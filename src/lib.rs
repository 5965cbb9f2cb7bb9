//! Register layout model and bit-to-byte transform engine.
//!
//! The library describes registers as byte arrays holding bit fields, and
//! derives the per-byte shift and mask steps that move a field's value into
//! and out of such an array, for either byte order.

pub mod bits;
pub mod transform;
pub mod regmap;
pub mod listing;
pub mod generator;

use vstd::prelude::*;

verus! {

/// Integer type that holds register values and bit masks.
pub type TypeValue = u128;

/// Integer type that holds bit positions and widths.
pub type TypeBitwidth = u32;

/// Integer type that holds register addresses.
pub type TypeAdr = u64;

/// Largest number of bits a register value can have.
pub const MAX_BITWIDTH: u32 = 128;

} // verus!
