//! The register listing as written by hand, before resolution: bit ranges
//! and references are still text, shared items are referred to by name.

use std::collections::BTreeMap;
use std::ops::RangeInclusive;

use vstd::prelude::*;
use vstd::utf8::encode_utf8;

use crate::bits::{bit_mask_range, range_mask};
use crate::{TypeAdr, TypeBitwidth, TypeValue, MAX_BITWIDTH};

verus! {

// ==== Basic Types ============================================================

/// One entry of a field's bit list: a single bit, or a range written `"a-b"`.
#[derive(Debug, PartialEq, Eq)]
pub enum BitRange {
    Bit(TypeBitwidth),
    Range(String),
}

/// The bits a field occupies.
pub type Bits = Vec<BitRange>;

/// Why a bit list does not describe a mask.
#[derive(Debug, Clone, Copy, PartialEq, Eq)]
pub enum BitsError {
    /// A range is not two decimal numbers joined by `-`.
    Malformed,
    /// A bit lies at or above the largest register width.
    OutOfRange,
    /// A range ends below where it starts.
    Reversed,
}

/// Whether `c` is an ASCII decimal digit.
pub open spec fn is_digit(c: u8) -> bool {
    48 <= c <= 57
}

/// The value of a string of decimal digits.
pub open spec fn dec_value(s: Seq<u8>) -> nat
    decreases s.len(),
{
    if s.len() == 0 {
        0
    } else {
        dec_value(s.drop_last()) * 10 + (s.last() - 48) as nat
    }
}

/// Whether `s` is one or more decimal digits.
pub open spec fn is_number(s: Seq<u8>) -> bool {
    s.len() > 0 && forall|i: int| 0 <= i < s.len() ==> is_digit(#[trigger] s[i])
}

/// Whether `s` is two decimal numbers joined by `-`, split at `i`.
pub open spec fn is_range_at(s: Seq<u8>, i: int) -> bool {
    0 <= i < s.len() && s[i] == 45 && is_number(s.subrange(0, i)) && is_number(
        s.subrange(i + 1, s.len() as int),
    )
}

/// The mask that a range text `s` stands for, or why it stands for none.
pub open spec fn range_text_mask(s: Seq<u8>) -> Result<u128, BitsError> {
    if exists|i: int| is_range_at(s, i) {
        let i = choose|i: int| is_range_at(s, i);
        let lo = dec_value(s.subrange(0, i));
        let hi = dec_value(s.subrange(i + 1, s.len() as int));
        if lo >= 128 || hi >= 128 {
            Err(BitsError::OutOfRange)
        } else if lo > hi {
            Err(BitsError::Reversed)
        } else {
            Ok(range_mask(lo as u32, hi as u32))
        }
    } else {
        Err(BitsError::Malformed)
    }
}

proof fn lemma_range_split_unique(s: Seq<u8>, i: int, j: int)
    requires
        is_range_at(s, i),
        is_range_at(s, j),
    ensures
        i == j,
{
    if i < j {
        assert(s.subrange(i + 1, s.len() as int)[j - i - 1] == s[j]);
    } else if j < i {
        assert(s.subrange(j + 1, s.len() as int)[i - j - 1] == s[i]);
    }
}

/// Reads the decimal number in `s[from..to]`, or reports that it is not one
/// or is at least 128.
fn read_number(s: &[u8], from: usize, to: usize) -> (r: Result<u32, BitsError>)
    requires
        from <= to <= s@.len(),
    ensures
        !is_number(s@.subrange(from as int, to as int)) ==> r == Err::<u32, BitsError>(BitsError::Malformed),
        is_number(s@.subrange(from as int, to as int)) ==> (if dec_value(s@.subrange(from as int, to as int)) < 128 {
            r == Ok::<u32, BitsError>(dec_value(s@.subrange(from as int, to as int)) as u32)
        } else {
            r == Err::<u32, BitsError>(BitsError::OutOfRange)
        }),
{
    if from == to {
        return Err(BitsError::Malformed);
    }
    let mut i = from;
    while i < to
        invariant
            from <= i <= to <= s@.len(),
            forall|k: int| from <= k < i ==> is_digit(#[trigger] s@[k]),
        decreases to - i,
    {
        if s[i] < 48 || s[i] > 57 {
            proof {
                assert(s@.subrange(from as int, to as int)[i - from] == s@[i as int]);
            }
            return Err(BitsError::Malformed);
        }
        i = i + 1;
    }
    let mut v: u32 = 0;
    let mut big = false;
    let mut j = from;
    while j < to
        invariant
            from <= j <= to <= s@.len(),
            forall|k: int| from <= k < to ==> is_digit(#[trigger] s@[k]),
            !big ==> v as nat == dec_value(s@.subrange(from as int, j as int)) && v < 128,
            big ==> dec_value(s@.subrange(from as int, j as int)) >= 128,
        decreases to - j,
    {
        proof {
            assert(s@.subrange(from as int, j + 1).drop_last() =~= s@.subrange(from as int, j as int));
            assert(s@.subrange(from as int, j + 1).last() == s@[j as int]);
            assert(is_digit(s@[j as int]));
        }
        if !big {
            v = v * 10 + (s[j] - 48) as u32;
            if v >= 128 {
                big = true;
            }
        } else {
            proof {
                assert(dec_value(s@.subrange(from as int, j + 1)) >= dec_value(s@.subrange(from as int, j as int)) * 10) by (nonlinear_arith)
                    requires
                        dec_value(s@.subrange(from as int, j + 1)) == dec_value(s@.subrange(from as int, j as int)) * 10 + (s@[j as int] - 48) as nat,
                        s@[j as int] >= 48,
                ;
            }
        }
        j = j + 1;
    }
    if big {
        Err(BitsError::OutOfRange)
    } else {
        Ok(v)
    }
}

/// The mask that one bit-list entry stands for, or why it stands for none.
pub open spec fn entry_mask(b: BitRange) -> Result<u128, BitsError> {
    match b {
        BitRange::Bit(n) => if n < 128 {
            Ok(1u128 << n)
        } else {
            Err(BitsError::OutOfRange)
        },
        BitRange::Range(s) => range_text_mask(encode_utf8(s@)),
    }
}

/// The union of the masks of the first `n` entries, or the error of the
/// first entry that stands for none.
pub open spec fn bits_mask_spec(bits: Seq<BitRange>, n: nat) -> Result<u128, BitsError>
    decreases n,
{
    if n == 0 || n > bits.len() {
        Ok(0)
    } else {
        match bits_mask_spec(bits, (n - 1) as nat) {
            Err(e) => Err(e),
            Ok(m) => match entry_mask(bits[n - 1]) {
                Err(e) => Err(e),
                Ok(x) => Ok(m | x),
            },
        }
    }
}

/// The mask of all bits that a bit list names, or why some entry names none.
pub fn bits_mask(bits: &Bits) -> (r: Result<TypeValue, BitsError>)
    ensures
        r == bits_mask_spec(bits@, bits@.len()),
{
    let mut acc: TypeValue = 0;
    let mut i: usize = 0;
    while i < bits.len()
        invariant
            i <= bits@.len(),
            bits_mask_spec(bits@, i as nat) == Ok::<u128, BitsError>(acc),
        decreases bits@.len() - i,
    {
        match bits[i].mask() {
            Ok(x) => {
                acc = acc | x;
            },
            Err(e) => {
                proof {
                    let n: nat = (i + 1) as nat;
                    assert(bits_mask_spec(bits@, n) == Err::<u128, BitsError>(e));
                    lemma_bits_mask_err(bits@, n, bits@.len());
                }
                return Err(e);
            },
        }
        i = i + 1;
    }
    Ok(acc)
}

proof fn lemma_bits_mask_err(bits: Seq<BitRange>, n: nat, m: nat)
    requires
        0 < n <= m <= bits.len(),
        bits_mask_spec(bits, n) is Err,
    ensures
        bits_mask_spec(bits, m) == bits_mask_spec(bits, n),
    decreases m - n,
{
    if m > n {
        lemma_bits_mask_err(bits, n, (m - 1) as nat);
    }
}

impl BitRange {
    /// The mask this entry stands for: one bit, or the bits `a..=b` of a
    /// range written `"a-b"`.
    pub fn mask(&self) -> (r: Result<TypeValue, BitsError>)
        ensures
            match self {
                BitRange::Bit(b) => if *b < 128 {
                    r == Ok::<u128, BitsError>(1u128 << *b)
                } else {
                    r == Err::<u128, BitsError>(BitsError::OutOfRange)
                },
                BitRange::Range(s) => r == range_text_mask(encode_utf8(s@)),
            },
            r == entry_mask(*self),
    {
        match self {
            BitRange::Bit(b) => {
                if *b < MAX_BITWIDTH {
                    Ok(1u128 << *b)
                } else {
                    Err(BitsError::OutOfRange)
                }
            },
            BitRange::Range(text) => {
                let s = text.as_str().as_bytes();
                let mut i: usize = 0;
                while i < s.len() && s[i] != 45
                    invariant
                        i <= s@.len(),
                        forall|k: int| 0 <= k < i ==> s@[k] != 45,
                    decreases s@.len() - i,
                {
                    i = i + 1;
                }
                if i == s.len() {
                    proof {
                        assert forall|j: int| !is_range_at(s@, j) by {
                            if is_range_at(s@, j) {
                                assert(s@[j] == 45);
                            }
                        }
                    }
                    return Err(BitsError::Malformed);
                }
                let lo = read_number(s, 0, i);
                let hi = read_number(s, i + 1, s.len());
                proof {
                    assert forall|j: int| is_range_at(s@, j) implies j == i as int by {
                        if j < i {
                            assert(s@[j] != 45);
                        } else if j > i {
                            assert(s@.subrange(0, j)[i as int] == s@[i as int]);
                            assert(is_digit(s@.subrange(0, j)[i as int]));
                        }
                    }
                    if is_number(s@.subrange(0, i as int)) && is_number(s@.subrange(i + 1, s@.len() as int)) {
                        assert(is_range_at(s@, i as int));
                    }
                }
                match (lo, hi) {
                    (Ok(a), Ok(b)) => {
                        if a > b {
                            Err(BitsError::Reversed)
                        } else {
                            Ok(bit_mask_range(&RangeInclusive::new(a, b)))
                        }
                    },
                    (Err(BitsError::Malformed), _) => Err(BitsError::Malformed),
                    (_, Err(BitsError::Malformed)) => Err(BitsError::Malformed),
                    _ => Err(BitsError::OutOfRange),
                }
            },
        }
    }
}

/// A way a register may be accessed.
#[derive(Debug, PartialEq, Eq)]
pub enum AccessMode {
    R,
    W,
}

/// The ways a field may be accessed.
pub type Access = Vec<AccessMode>;

// ==== Enums ==================================================================

/// One value of an enum.
#[derive(Debug, PartialEq, Eq)]
pub struct EnumEntry {
    pub val: TypeValue,
    pub doc: Option<String>,
}

/// The values of an enum, by name.
pub type EnumEntries = BTreeMap<String, EnumEntry>;

/// An enum that fields refer to by name.
#[derive(Debug, PartialEq, Eq)]
pub struct SharedEnum {
    pub doc: Option<String>,
    pub entries: EnumEntries,
}

// ==== Layouts ================================================================

/// What a field holds.
#[derive(Debug, PartialEq, Eq, Default)]
pub enum FieldType {
    #[default]
    UInt,
    Bool,
    Fixed(TypeValue),
    Enum(EnumEntries),
    SharedEnum(String),
    Layout(LayoutFields),
    SharedLayout(String),
}

/// One field of a layout.
#[derive(Debug, PartialEq, Eq, Default)]
pub struct LayoutField {
    pub bits: Bits,
    pub doc: Option<String>,
    pub accepts: FieldType,
    pub access: Option<Access>,
}

/// The fields of a layout, by name.
pub type LayoutFields = BTreeMap<String, LayoutField>;

/// The layout of a register: its own fields, or a shared layout by name.
#[derive(Debug, PartialEq, Eq)]
pub enum RegisterLayout {
    Layout(LayoutFields),
    SharedLayout(String),
}

impl Default for RegisterLayout {
    /// A layout without fields.
    fn default() -> (r: Self)
        ensures
            r matches RegisterLayout::Layout(m) && m@ == Map::<String, LayoutField>::empty(),
    {
        RegisterLayout::Layout(BTreeMap::new())
    }
}

/// A layout that registers refer to by name.
#[derive(Debug, PartialEq, Eq)]
pub struct SharedLayout {
    pub doc: Option<String>,
    pub bitwidth: Option<TypeBitwidth>,
    pub layout: LayoutFields,
}

// ==== Individual Register ====================================================

/// A register at a fixed address.
#[derive(Debug, PartialEq, Eq, Default)]
pub struct Register {
    pub adr: TypeAdr,
    pub doc: Option<String>,
    pub bitwidth: Option<TypeBitwidth>,
    pub reset_val: Option<TypeValue>,
    pub layout: RegisterLayout,
}

// ==== Register Block =========================================================

/// One instance of a register block, at a base address.
#[derive(Debug, PartialEq, Eq, Default)]
pub struct Instance {
    pub adr: TypeAdr,
    pub doc: Option<String>,
    pub reset_vals: BTreeMap<String, TypeValue>,
}

/// A register of a block, at an offset from the block's base address.
#[derive(Debug, PartialEq, Eq, Default)]
pub struct RegisterBlockMember {
    pub offset: TypeAdr,
    pub doc: Option<String>,
    pub bitwidth: Option<TypeBitwidth>,
    pub reset_val: Option<TypeValue>,
    pub layout: RegisterLayout,
}

/// A group of registers repeated at several base addresses.
#[derive(Debug, PartialEq, Eq)]
pub struct RegisterBlock {
    pub instances: BTreeMap<String, Instance>,
    pub doc: Option<String>,
    pub registers: BTreeMap<String, RegisterBlockMember>,
}

// ==== Register Map ===========================================================

/// An entry of the register list: a register or a register block.
#[derive(Debug, PartialEq, Eq)]
pub enum RegisterListing {
    Register(Register),
    RegisterBlock(RegisterBlock),
}

/// Defaults that apply where a listing leaves a setting out.
#[derive(Debug, PartialEq, Eq, Default)]
pub struct Defaults {
    pub layout_bitwidth: Option<TypeBitwidth>,
    pub field_access_mode: Option<Access>,
}

/// A whole register listing.
#[derive(Debug, PartialEq, Eq, Default)]
pub struct RegisterMap {
    pub name: String,
    pub doc: Option<String>,
    pub notice: Option<String>,
    pub author: Option<String>,
    pub defaults: Defaults,
    pub enums: BTreeMap<String, SharedEnum>,
    pub layouts: BTreeMap<String, SharedLayout>,
    pub registers: BTreeMap<String, RegisterListing>,
}

} // verus!
