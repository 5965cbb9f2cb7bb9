//! Settings and decisions of the code emitter that do not depend on the
//! target language's syntax.

use vstd::prelude::*;

use crate::bits::{msb_of, msb_pos};
use crate::{TypeAdr, TypeBitwidth};

verus! {

/// Settings of the emitter.
pub struct GeneratorOpts {
    /// Type to use for register addresses; when none is given, the smallest
    /// unsigned type that holds the largest address.
    pub address_type: Option<String>,
    /// Include static error messages for unpacking errors.
    pub unpacking_error_msg: bool,
    /// Traits to derive on all register structs.
    pub struct_derive: Vec<String>,
    /// Traits to derive on all enums, besides `Clone` and `Copy`.
    pub raw_enum_derive: Vec<String>,
    /// Modules to `use` at the top of the generated module.
    pub add_use: Vec<String>,
    /// Prefix of externally defined conversion traits; when none is given,
    /// the traits are generated.
    pub external_traits: Option<String>,
    /// Generate `Default` implementations from reset values.
    pub generate_defaults: bool,
    /// Generate conversions to and from the smallest fitting unsigned integer.
    pub generate_uint_conversion: bool,
}

/// The largest of the first `n` addresses; zero for none.
pub open spec fn max_address(addrs: Seq<u64>, n: nat) -> u64
    decreases n,
{
    if n == 0 || n > addrs.len() {
        0
    } else {
        let m = max_address(addrs, (n - 1) as nat);
        if addrs[n - 1] > m {
            addrs[n - 1]
        } else {
            m
        }
    }
}

/// Width in bits of the smallest of the unsigned integer types of 8, 16, 32,
/// 64 and 128 bits that has at least `bits` bits; none above 128.
pub open spec fn fitting_unsigned_spec(bits: u32) -> Option<u32> {
    if bits <= 8 {
        Some(8)
    } else if bits <= 16 {
        Some(16)
    } else if bits <= 32 {
        Some(32)
    } else if bits <= 64 {
        Some(64)
    } else if bits <= 128 {
        Some(128)
    } else {
        None
    }
}

/// Width in bits of the smallest unsigned integer type with at least `bits`
/// bits; none when even 128 bits are too few.
pub fn fitting_unsigned_bits(bits: TypeBitwidth) -> (r: Option<TypeBitwidth>)
    ensures
        r == fitting_unsigned_spec(bits),
{
    if bits <= 8 {
        Some(8)
    } else if bits <= 16 {
        Some(16)
    } else if bits <= 32 {
        Some(32)
    } else if bits <= 64 {
        Some(64)
    } else if bits <= 128 {
        Some(128)
    } else {
        None
    }
}

/// Bits needed to hold the largest of `addresses`: the position of its
/// highest set bit plus one (one when all are zero or there are none).
pub fn address_bitwidth(addresses: &Vec<TypeAdr>) -> (r: TypeBitwidth)
    ensures
        r == msb_of(max_address(addresses@, addresses@.len()) as u128) + 1,
        1 <= r <= 64,
{
    let mut max: TypeAdr = 0;
    let mut i: usize = 0;
    while i < addresses.len()
        invariant
            i <= addresses@.len(),
            max == max_address(addresses@, i as nat),
        decreases addresses@.len() - i,
    {
        if addresses[i] > max {
            max = addresses[i];
        }
        i = i + 1;
    }
    let pos = msb_pos(max as u128);
    proof {
        if max != 0 {
            assert(pos < 64) by (bit_vector)
                requires
                    (max as u128) >> pos == 1u128,
                    pos < 128,
            ;
        }
    }
    pos + 1
}

/// Width in bytes of the unsigned integer type that a layout of `width_bytes`
/// bytes converts to and from: the smallest of 1, 2, 4, 8 and 16 bytes that
/// holds it; none for an empty layout or one wider than 16 bytes.
pub fn uint_conversion_bytes(width_bytes: TypeBitwidth) -> (r: Option<TypeBitwidth>)
    ensures
        width_bytes == 0 || width_bytes > 16 ==> r is None,
        1 <= width_bytes <= 16 ==> r == Some(
            (fitting_unsigned_spec((8 * width_bytes) as u32)->Some_0 / 8) as u32,
        ),
{
    if width_bytes == 0 || width_bytes > 16 {
        None
    } else if width_bytes == 1 {
        Some(1)
    } else if width_bytes == 2 {
        Some(2)
    } else if width_bytes <= 4 {
        Some(4)
    } else if width_bytes <= 8 {
        Some(8)
    } else {
        Some(16)
    }
}

} // verus!
