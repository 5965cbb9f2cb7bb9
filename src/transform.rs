//! Byte transform engine: the shift and mask steps that move a field's bits
//! between its own value and the bytes of a packed register image.
//!
//! A packed image of `w` bytes is read as one unsigned value: in little-endian
//! order byte `b` holds bits `8*b .. 8*b + 8`, in big-endian order byte `b`
//! holds bits `8*(w-1-b) .. 8*(w-1-b) + 8`. A field with the unpositioned mask
//! `fm` placed at bit `p` occupies the bits of `fm << p`.

use vstd::prelude::*;

use crate::bits::{is_lsb, lemma_bit_identities, low_mask, lsb_of, lsb_pos, unpositioned_mask};
use crate::{TypeBitwidth, TypeValue};

verus! {

/// Byte order of a packed register image.
#[derive(Debug, Clone, Copy, PartialEq, Eq)]
pub enum Endianess {
    Little,
    Big,
}

/// Direction of a shift step.
#[derive(Debug, Clone, Copy, PartialEq, Eq)]
pub enum ShiftDirection {
    Left,
    Right,
}

/// One step: an optional shift followed (when packing) or preceded (when
/// unpacking) by a byte mask.
#[derive(Debug, Clone, Copy, PartialEq, Eq)]
pub struct ShiftTransform {
    pub shift: Option<(ShiftDirection, TypeBitwidth)>,
    pub mask: u8,
}

/// Index of the eight-bit group of the packed value that byte `b` holds.
pub open spec fn logical_byte(endian: Endianess, b: u32, w: u32) -> u32 {
    match endian {
        Endianess::Little => b,
        Endianess::Big => (w - 1 - b) as u32,
    }
}

/// Bits `8*k .. 8*k + 8` of `v`.
pub open spec fn byte_of(v: u128, k: u32) -> u8 {
    ((v >> ((8 * k) as u32)) & 0xFFu128) as u8
}

/// The shift that moves bit position `from` to bit position `to`; none when
/// they are equal.
pub open spec fn shift_between(from: int, to: int) -> Option<(ShiftDirection, u32)> {
    if from < to {
        Some((ShiftDirection::Left, (to - from) as u32))
    } else if from > to {
        Some((ShiftDirection::Right, (from - to) as u32))
    } else {
        None
    }
}

/// `v` shifted as `shift` says.
pub open spec fn shifted(v: u128, shift: Option<(ShiftDirection, u32)>) -> u128 {
    match shift {
        Some((ShiftDirection::Left, a)) => v << a,
        Some((ShiftDirection::Right, a)) => v >> a,
        None => v,
    }
}

/// What a packing step puts into its byte: the value shifted, then masked.
pub open spec fn pack_step(t: ShiftTransform, v: u128) -> u8 {
    (shifted(v, t.shift) & (t.mask as u128)) as u8
}

/// What an unpacking step takes from its byte: the byte masked, then shifted.
pub open spec fn unpack_step(t: ShiftTransform, x: u8) -> u128 {
    shifted((x as u128) & (t.mask as u128), t.shift)
}

/// The step between a field value and byte `b` of a `w`-byte image, for the
/// field with unpositioned mask `fm` at bit `p`; none where the field has no
/// bit in that byte. `to_field` selects the unpacking direction.
pub open spec fn field_transform_spec(
    endian: Endianess,
    fm: u128,
    p: u32,
    b: u32,
    w: u32,
    to_field: bool,
) -> Option<ShiftTransform> {
    let k = logical_byte(endian, b, w);
    let m = byte_of(fm << p, k);
    if m == 0 {
        None
    } else if to_field {
        Some(ShiftTransform { shift: shift_between(p as int, 8 * k), mask: m })
    } else {
        Some(ShiftTransform { shift: shift_between(8 * k, p as int), mask: m })
    }
}

/// Byte `b` of the `w`-byte image of `value`.
pub fn grab_byte(endian: Endianess, value: TypeValue, byte: TypeBitwidth, width_bytes: TypeBitwidth) -> (r: u8)
    requires
        byte < width_bytes <= 16,
    ensures
        r == byte_of(value, logical_byte(endian, byte, width_bytes)),
{
    let k = match endian {
        Endianess::Little => byte,
        Endianess::Big => width_bytes - 1 - byte,
    };
    ((value >> (8 * k)) & 0xFF) as u8
}

fn shift_from_to(from: u32, to: u32) -> (r: Option<(ShiftDirection, TypeBitwidth)>)
    ensures
        r == shift_between(from as int, to as int),
{
    if from < to {
        Some((ShiftDirection::Left, to - from))
    } else if from > to {
        Some((ShiftDirection::Right, from - to))
    } else {
        None
    }
}

/// The step that packs bits of a field value into byte `byte` of a
/// `width_bytes`-byte image: `image[byte] |= (value shifted) & mask`. The
/// field has the unpositioned mask `field_mask` and starts at bit `field_pos`.
/// None when the field has no bit in that byte.
pub fn field_to_packed_byte_transform(
    endian: Endianess,
    field_mask: TypeValue,
    field_pos: TypeBitwidth,
    byte: TypeBitwidth,
    width_bytes: TypeBitwidth,
) -> (r: Option<ShiftTransform>)
    requires
        byte < width_bytes <= 16,
        field_pos < 128,
    ensures
        r == field_transform_spec(endian, field_mask, field_pos, byte, width_bytes, false),
{
    let k = match endian {
        Endianess::Little => byte,
        Endianess::Big => width_bytes - 1 - byte,
    };
    let mask = grab_byte(endian, field_mask << field_pos, byte, width_bytes);
    if mask == 0 {
        None
    } else {
        Some(ShiftTransform { shift: shift_from_to(8 * k, field_pos), mask })
    }
}

/// The step that unpacks byte `byte` of a `width_bytes`-byte image into a
/// field value: `value |= (image[byte] & mask) shifted`. The field has the
/// unpositioned mask `field_mask` and starts at bit `field_pos`. None when
/// the field has no bit in that byte.
pub fn packed_byte_to_field_transform(
    endian: Endianess,
    field_mask: TypeValue,
    field_pos: TypeBitwidth,
    byte: TypeBitwidth,
    width_bytes: TypeBitwidth,
) -> (r: Option<ShiftTransform>)
    requires
        byte < width_bytes <= 16,
        field_pos < 128,
    ensures
        r == field_transform_spec(endian, field_mask, field_pos, byte, width_bytes, true),
{
    let k = match endian {
        Endianess::Little => byte,
        Endianess::Big => width_bytes - 1 - byte,
    };
    let mask = grab_byte(endian, field_mask << field_pos, byte, width_bytes);
    if mask == 0 {
        None
    } else {
        Some(ShiftTransform { shift: shift_from_to(field_pos, 8 * k), mask })
    }
}


/// What the step for byte `b` packs from `v`; zero where there is no step.
pub open spec fn pack_byte(endian: Endianess, fm: u128, p: u32, w: u32, b: u32, v: u128) -> u8 {
    match field_transform_spec(endian, fm, p, b, w, false) {
        Some(t) => pack_step(t, v),
        None => 0,
    }
}

/// What the step for byte `b` unpacks from `x`; zero where there is no step.
pub open spec fn unpack_byte(endian: Endianess, fm: u128, p: u32, w: u32, b: u32, x: u8) -> u128 {
    match field_transform_spec(endian, fm, p, b, w, true) {
        Some(t) => unpack_step(t, x),
        None => 0,
    }
}

/// The field value unpacked from the first `n` bytes of `bytes`.
pub open spec fn unpack_prefix(
    endian: Endianess,
    fm: u128,
    p: u32,
    w: u32,
    bytes: Seq<u8>,
    n: nat,
) -> u128
    decreases n,
{
    if n == 0 {
        0
    } else {
        unpack_prefix(endian, fm, p, w, bytes, (n - 1) as nat) | unpack_byte(
            endian,
            fm,
            p,
            w,
            (n - 1) as u32,
            bytes[n - 1],
        )
    }
}

/// The field value unpacked from a whole `w`-byte image.
pub open spec fn unpack_value(endian: Endianess, fm: u128, p: u32, w: u32, bytes: Seq<u8>) -> u128 {
    unpack_prefix(endian, fm, p, w, bytes, w as nat)
}

#[verifier::rlimit(100)]
proof fn lemma_pack_bits(v: u128, fm: u128, p: u32, q: u32)
    requires
        q <= 120,
        p < 128,
    ensures
        p > q ==> (v << ((p - q) as u32)) & (((fm << p) >> q) & 0xFFu128) == (((v & fm) << p) >> q)
            & 0xFFu128,
        p < q ==> (v >> ((q - p) as u32)) & (((fm << p) >> q) & 0xFFu128) == (((v & fm) << p) >> q)
            & 0xFFu128,
        p == q ==> v & (((fm << p) >> q) & 0xFFu128) == (((v & fm) << p) >> q) & 0xFFu128,
        ((fm << p) >> q) & 0xFFu128 == 0 ==> (((v & fm) << p) >> q) & 0xFFu128 == 0,
{
    assert(p > q ==> (v << ((p - q) as u32)) & (((fm << p) >> q) & 0xFFu128) == (((v & fm) << p)
        >> q) & 0xFFu128) by (bit_vector)
        requires
            q <= 120,
            p < 128,
    ;
    assert(p < q ==> (v >> ((q - p) as u32)) & (((fm << p) >> q) & 0xFFu128) == (((v & fm) << p)
        >> q) & 0xFFu128) by (bit_vector)
        requires
            q <= 120,
            p < 128,
    ;
    assert(p == q ==> v & (((fm << p) >> q) & 0xFFu128) == (((v & fm) << p) >> q) & 0xFFu128)
        by (bit_vector);
    assert(((fm << p) >> q) & 0xFFu128 == 0 ==> (((v & fm) << p) >> q) & 0xFFu128 == 0)
        by (bit_vector);
}

/// A packing step puts into its byte exactly the bits of the positioned field
/// value that fall in that byte; a byte without a step gets none of them.
pub proof fn lemma_pack_byte(endian: Endianess, fm: u128, p: u32, w: u32, b: u32, v: u128)
    requires
        b < w <= 16,
        p < 128,
    ensures
        pack_byte(endian, fm, p, w, b, v) == byte_of((v & fm) << p, logical_byte(endian, b, w)),
{
    let k = logical_byte(endian, b, w);
    let q = (8 * k) as u32;
    lemma_pack_bits(v, fm, p, q);
    lemma_byte_cast((fm << p) >> q);
    lemma_byte_cast(((v & fm) << p) >> q);
    let m = ((fm << p) >> q) & 0xFFu128;
    let t = ((v & fm) << p) >> q;
    lemma_bit_identities();
}

proof fn lemma_byte_cast(x: u128)
    ensures
        ((x & 0xFFu128) as u8) as u128 == x & 0xFFu128,
        x & 0xFFu128 <= 0xFF,
        (((x & 0xFFu128) as u8) == 0) == (x & 0xFFu128 == 0),
{
    lemma_bit_identities();
    assert(x & 0xFFu128 <= 0xFF);
}

#[verifier::rlimit(100)]
proof fn lemma_unpack_bits(x: u128, fm: u128, p: u32, q: u32)
    requires
        q <= 120,
        p < 128,
    ensures
        ({
            let m = ((fm << p) >> q) & 0xFFu128;
            let y = (x >> q) & 0xFFu128;
            let c = ((x & (0xFFu128 << q)) & (fm << p)) >> p;
            &&& q > p ==> (y & m) << ((q - p) as u32) == c
            &&& q < p ==> (y & m) >> ((p - q) as u32) == c
            &&& q == p ==> y & m == c
            &&& m == 0 ==> c == 0
        }),
{
    assert(q > p ==> (((x >> q) & 0xFFu128) & (((fm << p) >> q) & 0xFFu128)) << ((q - p) as u32)
        == ((x & (0xFFu128 << q)) & (fm << p)) >> p) by (bit_vector)
        requires
            q <= 120,
            p < 128,
    ;
    assert(q < p ==> (((x >> q) & 0xFFu128) & (((fm << p) >> q) & 0xFFu128)) >> ((p - q) as u32)
        == ((x & (0xFFu128 << q)) & (fm << p)) >> p) by (bit_vector)
        requires
            q <= 120,
            p < 128,
    ;
    assert(q == p ==> ((x >> q) & 0xFFu128) & (((fm << p) >> q) & 0xFFu128) == ((x & (0xFFu128
        << q)) & (fm << p)) >> p) by (bit_vector);
    assert(((fm << p) >> q) & 0xFFu128 == 0 ==> ((x & (0xFFu128 << q)) & (fm << p)) >> p == 0)
        by (bit_vector)
        requires
            q <= 120,
    ;
}

/// An unpacking step takes from its byte exactly the field's bits that the
/// byte holds, moved to their place in the field value.
pub proof fn lemma_unpack_byte(endian: Endianess, fm: u128, p: u32, w: u32, b: u32, x: u128)
    requires
        b < w <= 16,
        p < 128,
    ensures
        unpack_byte(endian, fm, p, w, b, byte_of(x, logical_byte(endian, b, w))) == ((x & (0xFFu128
            << ((8 * logical_byte(endian, b, w)) as u32))) & (fm << p)) >> p,
{
    let k = logical_byte(endian, b, w);
    let q = (8 * k) as u32;
    lemma_unpack_bits(x, fm, p, q);
    lemma_byte_cast(x >> q);
    lemma_byte_cast((fm << p) >> q);
}


/// The bits of the packed value that the first `n` bytes of a `w`-byte image
/// hold.
pub open spec fn bytes_mask(endian: Endianess, w: u32, n: nat) -> u128
    decreases n,
{
    if n == 0 {
        0
    } else {
        bytes_mask(endian, w, (n - 1) as nat) | (0xFFu128 << ((8 * logical_byte(
            endian,
            (n - 1) as u32,
            w,
        )) as u32))
    }
}

proof fn lemma_bytes_mask_whole(endian: Endianess, w: u32, n: nat)
    requires
        n <= w <= 16,
    ensures
        endian == Endianess::Little ==> bytes_mask(endian, w, n) == low_mask((8 * n) as u32),
        endian == Endianess::Big ==> bytes_mask(endian, w, n) == low_mask((8 * w) as u32)
            & !low_mask((8 * (w - n)) as u32),
    decreases n,
{
    if n == 0 {
        lemma_bit_identities();
    } else {
        lemma_bytes_mask_whole(endian, w, (n - 1) as nat);
        let a = (8 * (n - 1)) as u32;
        let c = (8 * (w - n)) as u32;
        let d = (8 * w) as u32;
        assert(low_mask(a) | (0xFFu128 << a) == low_mask((a + 8) as u32)) by (bit_vector)
            requires
                a <= 120,
        ;
        assert((low_mask(d) & !low_mask((c + 8) as u32)) | (0xFFu128 << c) == low_mask(d)
            & !low_mask(c)) by (bit_vector)
            requires
                c + 8 <= d <= 128,
        ;
    }
}

proof fn lemma_unpack_prefix(
    endian: Endianess,
    fm: u128,
    p: u32,
    w: u32,
    bytes: Seq<u8>,
    x: u128,
    n: nat,
)
    requires
        n <= w <= 16,
        p < 128,
        bytes.len() == w,
        forall|b: u32| b < w ==> bytes[b as int] == byte_of(x, #[trigger] logical_byte(endian, b, w)),
    ensures
        unpack_prefix(endian, fm, p, w, bytes, n) == ((x & bytes_mask(endian, w, n)) & (fm << p))
            >> p,
    decreases n,
{
    if n == 0 {
        lemma_bit_identities();
        assert(x & 0u128 == 0);
        assert(0u128 & (fm << p) == 0);
        assert(0u128 >> p == 0);
    } else {
        let b = (n - 1) as u32;
        lemma_unpack_prefix(endian, fm, p, w, bytes, x, (n - 1) as nat);
        lemma_unpack_byte(endian, fm, p, w, b, x);
        assert(bytes[b as int] == byte_of(x, logical_byte(endian, b, w)));
        let a = bytes_mask(endian, w, (n - 1) as nat);
        let q = (8 * logical_byte(endian, b, w)) as u32;
        let m = fm << p;
        let c = 0xFFu128 << q;
        lemma_bit_identities();
        assert(((x & a) & m) | ((x & c) & m) == (x & (a | c)) & m);
        let e = (x & a) & m;
        let f = (x & c) & m;
        assert((e >> p) | (f >> p) == (e | f) >> p);
    }
}

proof fn lemma_byte_of_or(x: u128, y: u128, k: u32)
    requires
        k < 16,
    ensures
        byte_of(x, k) | byte_of(y, k) == byte_of(x | y, k),
{
    let q = (8 * k) as u32;
    assert(((x >> q) & 0xFFu128) as u8 | ((y >> q) & 0xFFu128) as u8 == (((x | y) >> q) & 0xFFu128)
        as u8) by (bit_vector);
}

/// Round trip of a scalar field: packing `v` into a `w`-byte image, beside
/// whatever bits other fields put outside the field's mask, and unpacking the
/// field from that image gives back `v`, in either byte order.
pub proof fn lemma_field_round_trip(
    endian: Endianess,
    fm: u128,
    p: u32,
    w: u32,
    v: u128,
    other: u128,
    bytes: Seq<u8>,
)
    requires
        1 <= w <= 16,
        p < 128,
        (fm << p) >> p == fm,
        fm << p <= low_mask((8 * w) as u32),
        v & fm == v,
        other & (fm << p) == 0,
        bytes.len() == w,
        forall|b: u32|
            b < w ==> #[trigger] bytes[b as int] == pack_byte(endian, fm, p, w, b, v) | byte_of(
                other,
                logical_byte(endian, b, w),
            ),
    ensures
        unpack_value(endian, fm, p, w, bytes) == v,
{
    let x = ((v & fm) << p) | other;
    assert forall|b: u32| b < w implies bytes[b as int] == byte_of(
        x,
        #[trigger] logical_byte(endian, b, w),
    ) by {
        let k = logical_byte(endian, b, w);
        let q = (8 * k) as u32;
        lemma_pack_byte(endian, fm, p, w, b, v);
        let y = (v & fm) << p;
        lemma_byte_of_or(y, other, k);
        assert(bytes[b as int] == pack_byte(endian, fm, p, w, b, v) | byte_of(other, k));
    }
    lemma_unpack_prefix(endian, fm, p, w, bytes, x, w as nat);
    lemma_bytes_mask_whole(endian, w, w as nat);
    let l = low_mask((8 * w) as u32);
    let d = (8 * w) as u32;
    lemma_bit_identities();
    assert(low_mask(d) & !low_mask(0) == low_mask(d));
    assert(bytes_mask(endian, w, w as nat) == l);
    let m = fm << p;
    let y = (v & fm) << p;
    assert(m & l == m) by (bit_vector)
        requires
            m <= l,
            l == low_mask(d),
            d <= 128,
    ;
    assert(((y | other) & l) & m == y) by (bit_vector)
        requires
            m & l == m,
            other & m == 0,
            y == (v & fm) << p,
            m == fm << p,
    ;
    assert(((v & fm) << p) >> p == v & fm) by (bit_vector)
        requires
            (fm << p) >> p == fm,
    ;
}


/// A byte of a packed image has a step for a field exactly when the field
/// occupies at least one bit of that byte.
pub proof fn lemma_transform_iff_overlap(
    endian: Endianess,
    fm: u128,
    p: u32,
    b: u32,
    w: u32,
    to_field: bool,
)
    requires
        b < w <= 16,
        p < 128,
    ensures
        field_transform_spec(endian, fm, p, b, w, to_field) is Some <==> (fm << p) & (0xFFu128 << ((
        8 * logical_byte(endian, b, w)) as u32)) != 0,
{
    let q = (8 * logical_byte(endian, b, w)) as u32;
    let m = fm << p;
    assert((((m >> q) & 0xFFu128) as u8 != 0) == (m & (0xFFu128 << q) != 0)) by (bit_vector)
        requires
            q <= 120,
    ;
}

/// The step between byte `f` of a nested layout's own `fw`-byte image and
/// byte `b` of the enclosing `w`-byte image. The nested layout occupies the
/// bits `om` of its own value and starts at bit `p` of the enclosing one; its
/// byte `f` thus acts as a field with mask `byte_of(om, ..)` at bit
/// `p + 8 * ..`.
pub open spec fn nested_transform_spec(
    endian: Endianess,
    om: u128,
    p: u32,
    f: u32,
    fw: u32,
    b: u32,
    w: u32,
    to_field: bool,
) -> Option<ShiftTransform> {
    let lf = logical_byte(endian, f, fw);
    field_transform_spec(endian, byte_of(om, lf) as u128, (p + 8 * lf) as u32, b, w, to_field)
}

/// The step that packs byte `field_byte` of a nested layout's own
/// `field_width_bytes`-byte image into byte `byte` of the enclosing
/// `width_bytes`-byte image: `image[byte] |= (nested[field_byte] shifted) & mask`.
/// The nested layout occupies the bits `field_mask` of its own value and starts
/// at bit `field_pos`. None when the two bytes share no bit.
pub fn field_byte_to_packed_byte_transform(
    endian: Endianess,
    field_mask: TypeValue,
    field_pos: TypeBitwidth,
    field_byte: TypeBitwidth,
    field_width_bytes: TypeBitwidth,
    byte: TypeBitwidth,
    width_bytes: TypeBitwidth,
) -> (r: Option<ShiftTransform>)
    requires
        field_byte < field_width_bytes <= 16,
        byte < width_bytes <= 16,
        field_pos + 8 * field_width_bytes <= 128,
    ensures
        r == nested_transform_spec(
            endian,
            field_mask,
            field_pos,
            field_byte,
            field_width_bytes,
            byte,
            width_bytes,
            false,
        ),
{
    let lf = match endian {
        Endianess::Little => field_byte,
        Endianess::Big => field_width_bytes - 1 - field_byte,
    };
    let byte_mask = grab_byte(endian, field_mask, field_byte, field_width_bytes);
    field_to_packed_byte_transform(endian, byte_mask as u128, field_pos + 8 * lf, byte, width_bytes)
}

/// The step that unpacks byte `byte` of the enclosing `width_bytes`-byte image
/// into byte `field_byte` of a nested layout's own `field_width_bytes`-byte
/// image: `nested[field_byte] |= (image[byte] & mask) shifted`. The nested
/// layout occupies the bits `field_mask` of its own value and starts at bit
/// `field_pos`. None when the two bytes share no bit.
pub fn packed_byte_to_field_byte_transform(
    endian: Endianess,
    field_mask: TypeValue,
    field_pos: TypeBitwidth,
    field_byte: TypeBitwidth,
    field_width_bytes: TypeBitwidth,
    byte: TypeBitwidth,
    width_bytes: TypeBitwidth,
) -> (r: Option<ShiftTransform>)
    requires
        field_byte < field_width_bytes <= 16,
        byte < width_bytes <= 16,
        field_pos + 8 * field_width_bytes <= 128,
    ensures
        r == nested_transform_spec(
            endian,
            field_mask,
            field_pos,
            field_byte,
            field_width_bytes,
            byte,
            width_bytes,
            true,
        ),
{
    let lf = match endian {
        Endianess::Little => field_byte,
        Endianess::Big => field_width_bytes - 1 - field_byte,
    };
    let byte_mask = grab_byte(endian, field_mask, field_byte, field_width_bytes);
    packed_byte_to_field_transform(endian, byte_mask as u128, field_pos + 8 * lf, byte, width_bytes)
}

/// Nested splicing round trip: byte `f` of a nested layout's image, holding
/// only bits that the nested layout occupies, is packed into the enclosing
/// image beside any bits outside those that byte covers there; unpacking it
/// from that image with the byte-to-byte steps gives back the same byte. This
/// holds whether or not the nested layout starts on a byte boundary.
pub proof fn lemma_nested_round_trip(
    endian: Endianess,
    om: u128,
    p: u32,
    fw: u32,
    f: u32,
    w: u32,
    y: u8,
    other: u128,
    bytes: Seq<u8>,
)
    requires
        f < fw <= 16,
        1 <= w <= 16,
        p + 8 * fw <= 128,
        (om << p) <= low_mask((8 * w) as u32),
        (y as u128) & (byte_of(om, logical_byte(endian, f, fw)) as u128) == y as u128,
        other & ((byte_of(om, logical_byte(endian, f, fw)) as u128) << ((p + 8 * logical_byte(
            endian,
            f,
            fw,
        )) as u32)) == 0,
        bytes.len() == w,
        forall|b: u32|
            b < w ==> #[trigger] bytes[b as int] == (match nested_transform_spec(
                endian,
                om,
                p,
                f,
                fw,
                b,
                w,
                false,
            ) {
                Some(t) => pack_step(t, y as u128),
                None => 0,
            }) | byte_of(other, logical_byte(endian, b, w)),
    ensures
        unpack_value(
            endian,
            byte_of(om, logical_byte(endian, f, fw)) as u128,
            (p + 8 * logical_byte(endian, f, fw)) as u32,
            w,
            bytes,
        ) == y as u128,
{
    let lf = logical_byte(endian, f, fw);
    let fm = byte_of(om, lf) as u128;
    let pf = (p + 8 * lf) as u32;
    let q = (8 * lf) as u32;
    let l = low_mask((8 * w) as u32);
    assert(fm == (om >> q) & 0xFFu128) by (bit_vector)
        requires
            fm == byte_of(om, lf) as u128,
            q == 8 * lf,
            q <= 120,
    ;
    assert((fm << pf) >> pf == fm) by (bit_vector)
        requires
            fm == (om >> q) & 0xFFu128,
            pf + 8 <= 128,
    ;
    assert((fm << pf) & (om << p) == fm << pf) by (bit_vector)
        requires
            fm == (om >> q) & 0xFFu128,
            pf == p + q,
            pf + 8 <= 128,
    ;
    let x = fm << pf;
    let z = om << p;
    assert(x <= l) by (bit_vector)
        requires
            x & z == x,
            z <= l,
            l == low_mask((8 * w) as u32),
            w <= 16,
    ;
    assert forall|b: u32| b < w implies #[trigger] bytes[b as int] == pack_byte(
        endian,
        fm,
        pf,
        w,
        b,
        y as u128,
    ) | byte_of(other, logical_byte(endian, b, w)) by {}
    lemma_field_round_trip(endian, fm, pf, w, y as u128, other, bytes);
}


/// A step between a field value and one byte of the packed image.
#[derive(Debug, Clone, Copy, PartialEq, Eq)]
pub struct ByteStep {
    pub byte: TypeBitwidth,
    pub transform: ShiftTransform,
}

/// A constant that packing ORs into one byte of the packed image.
#[derive(Debug, Clone, Copy, PartialEq, Eq)]
pub struct FixedStep {
    pub byte: TypeBitwidth,
    pub value: u8,
}

/// A step between one byte of the packed image and one byte of a nested
/// layout's own image.
#[derive(Debug, Clone, Copy, PartialEq, Eq)]
pub struct SpliceStep {
    pub byte: TypeBitwidth,
    pub field_byte: TypeBitwidth,
    pub transform: ShiftTransform,
}

/// The steps of a field with unpositioned mask `fm` at bit `p` for the first
/// `n` bytes of a `w`-byte image, in byte order, skipping bytes the field
/// does not touch.
pub open spec fn field_steps_spec(
    endian: Endianess,
    fm: u128,
    p: u32,
    w: u32,
    to_field: bool,
    n: nat,
) -> Seq<ByteStep>
    decreases n,
{
    if n == 0 {
        Seq::empty()
    } else {
        let prev = field_steps_spec(endian, fm, p, w, to_field, (n - 1) as nat);
        match field_transform_spec(endian, fm, p, (n - 1) as u32, w, to_field) {
            Some(t) => prev.push(ByteStep { byte: (n - 1) as u32, transform: t }),
            None => prev,
        }
    }
}

/// The constant bytes that a fixed field with mask `mask` and value `value`
/// contributes to the first `n` bytes of a `w`-byte image.
pub open spec fn fixed_steps_spec(endian: Endianess, mask: u128, value: u128, w: u32, n: nat) -> Seq<
    FixedStep,
>
    decreases n,
{
    if n == 0 {
        Seq::empty()
    } else {
        let prev = fixed_steps_spec(endian, mask, value, w, (n - 1) as nat);
        let k = logical_byte(endian, (n - 1) as u32, w);
        if byte_of(mask, k) == 0 {
            prev
        } else {
            prev.push(FixedStep { byte: (n - 1) as u32, value: byte_of(value << lsb_of(mask), k) })
        }
    }
}

/// The splice steps between byte `b` of the packed image and the first `m`
/// bytes of the nested layout's image.
pub open spec fn splice_row_spec(
    endian: Endianess,
    om: u128,
    p: u32,
    fw: u32,
    b: u32,
    w: u32,
    to_field: bool,
    m: nat,
) -> Seq<SpliceStep>
    decreases m,
{
    if m == 0 {
        Seq::empty()
    } else {
        let prev = splice_row_spec(endian, om, p, fw, b, w, to_field, (m - 1) as nat);
        match nested_transform_spec(endian, om, p, (m - 1) as u32, fw, b, w, to_field) {
            Some(t) => prev.push(SpliceStep { byte: b, field_byte: (m - 1) as u32, transform: t }),
            None => prev,
        }
    }
}

/// The splice steps for the first `n` bytes of the packed image, each with
/// every byte of the nested layout's image.
pub open spec fn splice_steps_spec(
    endian: Endianess,
    om: u128,
    p: u32,
    fw: u32,
    w: u32,
    to_field: bool,
    n: nat,
) -> Seq<SpliceStep>
    decreases n,
{
    if n == 0 {
        Seq::empty()
    } else {
        splice_steps_spec(endian, om, p, fw, w, to_field, (n - 1) as nat) + splice_row_spec(
            endian,
            om,
            p,
            fw,
            (n - 1) as u32,
            w,
            to_field,
            fw as nat,
        )
    }
}

fn field_steps(endian: Endianess, mask: TypeValue, width_bytes: TypeBitwidth, to_field: bool) -> (r: Vec<ByteStep>)
    requires
        width_bytes <= 16,
    ensures
        r@ == field_steps_spec(endian, mask >> lsb_of(mask), lsb_of(mask), width_bytes, to_field, width_bytes as nat),
{
    let fm = unpositioned_mask(mask);
    let p = lsb_pos(mask);
    let mut steps: Vec<ByteStep> = Vec::new();
    let mut b: u32 = 0;
    while b < width_bytes
        invariant
            b <= width_bytes <= 16,
            p == lsb_of(mask),
            p < 128,
            fm == mask >> p,
            steps@ == field_steps_spec(endian, fm, p, width_bytes, to_field, b as nat),
        decreases width_bytes - b,
    {
        let t = if to_field {
            packed_byte_to_field_transform(endian, fm, p, b, width_bytes)
        } else {
            field_to_packed_byte_transform(endian, fm, p, b, width_bytes)
        };
        match t {
            Some(t) => {
                steps.push(ByteStep { byte: b, transform: t });
            },
            None => {},
        }
        b = b + 1;
    }
    steps
}

/// The steps that pack a scalar field occupying `mask` into a
/// `width_bytes`-byte image, one per byte the field touches, in byte order:
/// `image[s.byte] |= (value shifted) & s.transform.mask`.
pub fn field_pack_steps(endian: Endianess, mask: TypeValue, width_bytes: TypeBitwidth) -> (r: Vec<ByteStep>)
    requires
        width_bytes <= 16,
    ensures
        r@ == field_steps_spec(endian, mask >> lsb_of(mask), lsb_of(mask), width_bytes, false, width_bytes as nat),
{
    field_steps(endian, mask, width_bytes, false)
}

/// The steps that unpack a scalar field occupying `mask` from a
/// `width_bytes`-byte image, one per byte the field touches, in byte order:
/// `value |= (image[s.byte] & s.transform.mask) shifted`.
pub fn field_unpack_steps(endian: Endianess, mask: TypeValue, width_bytes: TypeBitwidth) -> (r: Vec<ByteStep>)
    requires
        width_bytes <= 16,
    ensures
        r@ == field_steps_spec(endian, mask >> lsb_of(mask), lsb_of(mask), width_bytes, true, width_bytes as nat),
{
    field_steps(endian, mask, width_bytes, true)
}

/// The constant bytes that a fixed field occupying `mask` with value `value`
/// ORs into a `width_bytes`-byte image, for each byte the field touches.
pub fn fixed_steps(endian: Endianess, mask: TypeValue, value: TypeValue, width_bytes: TypeBitwidth) -> (r: Vec<FixedStep>)
    requires
        width_bytes <= 16,
    ensures
        r@ == fixed_steps_spec(endian, mask, value, width_bytes, width_bytes as nat),
{
    let positioned = value << lsb_pos(mask);
    let mut steps: Vec<FixedStep> = Vec::new();
    let mut b: u32 = 0;
    while b < width_bytes
        invariant
            b <= width_bytes <= 16,
            positioned == value << lsb_of(mask),
            steps@ == fixed_steps_spec(endian, mask, value, width_bytes, b as nat),
        decreases width_bytes - b,
    {
        if grab_byte(endian, mask, b, width_bytes) != 0 {
            steps.push(FixedStep { byte: b, value: grab_byte(endian, positioned, b, width_bytes) });
        }
        b = b + 1;
    }
    steps
}

fn splice_steps(
    endian: Endianess,
    occupied: TypeValue,
    field_pos: TypeBitwidth,
    field_width_bytes: TypeBitwidth,
    width_bytes: TypeBitwidth,
    to_field: bool,
) -> (r: Vec<SpliceStep>)
    requires
        field_width_bytes <= 16,
        width_bytes <= 16,
        field_pos + 8 * field_width_bytes <= 128,
    ensures
        r@ == splice_steps_spec(endian, occupied, field_pos, field_width_bytes, width_bytes, to_field, width_bytes as nat),
{
    let mut steps: Vec<SpliceStep> = Vec::new();
    let mut b: u32 = 0;
    while b < width_bytes
        invariant
            b <= width_bytes <= 16,
            field_width_bytes <= 16,
            field_pos + 8 * field_width_bytes <= 128,
            steps@ == splice_steps_spec(endian, occupied, field_pos, field_width_bytes, width_bytes, to_field, b as nat),
        decreases width_bytes - b,
    {
        let ghost before = steps@;
        let mut f: u32 = 0;
        while f < field_width_bytes
            invariant
                b < width_bytes <= 16,
                f <= field_width_bytes <= 16,
                field_pos + 8 * field_width_bytes <= 128,
                steps@ == before + splice_row_spec(endian, occupied, field_pos, field_width_bytes, b, width_bytes, to_field, f as nat),
            decreases field_width_bytes - f,
        {
            let t = if to_field {
                packed_byte_to_field_byte_transform(endian, occupied, field_pos, f, field_width_bytes, b, width_bytes)
            } else {
                field_byte_to_packed_byte_transform(endian, occupied, field_pos, f, field_width_bytes, b, width_bytes)
            };
            match t {
                Some(t) => {
                    steps.push(SpliceStep { byte: b, field_byte: f, transform: t });
                    proof {
                        assert(before + splice_row_spec(endian, occupied, field_pos, field_width_bytes, b, width_bytes, to_field, (f + 1) as nat)
                            =~= (before + splice_row_spec(endian, occupied, field_pos, field_width_bytes, b, width_bytes, to_field, f as nat)).push(SpliceStep { byte: b, field_byte: f, transform: t }));
                    }
                },
                None => {},
            }
            f = f + 1;
        }
        b = b + 1;
    }
    steps
}

/// The steps that pack a nested layout, occupying the bits `occupied` of its
/// own `field_width_bytes`-byte image and starting at bit `field_pos`, into a
/// `width_bytes`-byte image: `image[s.byte] |= (nested[s.field_byte] shifted)
/// & s.transform.mask`, for each pair of bytes that share a bit.
pub fn splice_pack_steps(
    endian: Endianess,
    occupied: TypeValue,
    field_pos: TypeBitwidth,
    field_width_bytes: TypeBitwidth,
    width_bytes: TypeBitwidth,
) -> (r: Vec<SpliceStep>)
    requires
        field_width_bytes <= 16,
        width_bytes <= 16,
        field_pos + 8 * field_width_bytes <= 128,
    ensures
        r@ == splice_steps_spec(endian, occupied, field_pos, field_width_bytes, width_bytes, false, width_bytes as nat),
{
    splice_steps(endian, occupied, field_pos, field_width_bytes, width_bytes, false)
}

/// The steps that unpack a nested layout, occupying the bits `occupied` of
/// its own `field_width_bytes`-byte image and starting at bit `field_pos`,
/// from a `width_bytes`-byte image: `nested[s.field_byte] |= (image[s.byte] &
/// s.transform.mask) shifted`, for each pair of bytes that share a bit.
pub fn splice_unpack_steps(
    endian: Endianess,
    occupied: TypeValue,
    field_pos: TypeBitwidth,
    field_width_bytes: TypeBitwidth,
    width_bytes: TypeBitwidth,
) -> (r: Vec<SpliceStep>)
    requires
        field_width_bytes <= 16,
        width_bytes <= 16,
        field_pos + 8 * field_width_bytes <= 128,
    ensures
        r@ == splice_steps_spec(endian, occupied, field_pos, field_width_bytes, width_bytes, true, width_bytes as nat),
{
    splice_steps(endian, occupied, field_pos, field_width_bytes, width_bytes, true)
}

/// The `width_bytes`-byte image of `value` in the given byte order.
pub fn to_byte_array(endian: Endianess, value: TypeValue, width_bytes: TypeBitwidth) -> (r: Vec<u8>)
    requires
        width_bytes <= 16,
    ensures
        r@.len() == width_bytes,
        forall|b: int| 0 <= b < width_bytes ==> r@[b] == byte_of(value, logical_byte(endian, b as u32, width_bytes)),
{
    let mut bytes: Vec<u8> = Vec::new();
    let mut b: u32 = 0;
    while b < width_bytes
        invariant
            b <= width_bytes <= 16,
            bytes@.len() == b,
            forall|i: int| 0 <= i < b ==> bytes@[i] == byte_of(value, logical_byte(endian, i as u32, width_bytes)),
        decreases width_bytes - b,
    {
        bytes.push(grab_byte(endian, value, b, width_bytes));
        b = b + 1;
    }
    bytes
}


/// The bits that value `v` of the field occupying `m` sets in the packed
/// value.
pub open spec fn positioned(m: u128, v: u128) -> u128 {
    (v & (m >> lsb_of(m))) << lsb_of(m)
}

/// The packed value of the first `n` fields, occupying `masks`, with the
/// values `values`.
pub open spec fn layout_image(masks: Seq<u128>, values: Seq<u128>, n: nat) -> u128
    decreases n,
{
    if n == 0 || n > masks.len() || n > values.len() {
        0
    } else {
        layout_image(masks, values, (n - 1) as nat) | positioned(masks[n - 1], values[n - 1])
    }
}

/// The packed value of the first `n` fields but field `k`.
pub open spec fn image_without(masks: Seq<u128>, values: Seq<u128>, k: int, n: nat) -> u128
    decreases n,
{
    if n == 0 || n > masks.len() || n > values.len() {
        0
    } else if n - 1 == k {
        image_without(masks, values, k, (n - 1) as nat)
    } else {
        image_without(masks, values, k, (n - 1) as nat) | positioned(masks[n - 1], values[n - 1])
    }
}

/// Byte `b` of a `w`-byte image after packing the first `n` fields with
/// their steps.
pub open spec fn layout_pack_byte(
    endian: Endianess,
    masks: Seq<u128>,
    values: Seq<u128>,
    w: u32,
    b: u32,
    n: nat,
) -> u8
    decreases n,
{
    if n == 0 || n > masks.len() || n > values.len() {
        0
    } else {
        layout_pack_byte(endian, masks, values, w, b, (n - 1) as nat) | pack_byte(
            endian,
            masks[n - 1] >> lsb_of(masks[n - 1]),
            lsb_of(masks[n - 1]),
            w,
            b,
            values[n - 1],
        )
    }
}

proof fn lemma_or_identities()
    by (bit_vector)
    ensures
        forall|a: u128| #[trigger] (a | 0u128) == a,
        forall|a: u128, b: u128| #[trigger] (a | b) == b | a,
        forall|a: u128, b: u128, c: u128| #[trigger] ((a | b) | c) == (a | c) | b,
        forall|x: u128, y: u128| #[trigger] (x & y) == y & x,
        forall|a: u128, c: u128, mj: u128, mk: u128|
            a & mk == 0 && #[trigger] (c & !mj) == 0 && mj & mk == 0 ==> #[trigger] ((a | c) & mk)
                == 0,
        forall|x: u128, y: u128, p: u32| #[trigger] (((x & y) << p) & !(y << p)) == 0,
{
}

proof fn lemma_shift_back(m: u128, p: u32)
    by (bit_vector)
    requires
        p < 128,
        m & low_mask(p) == 0,
    ensures
        (m >> p) << p == m,
{
}

proof fn lemma_positioned_within(m: u128, v: u128, p: u32)
    requires
        m != 0 ==> is_lsb(m, p),
        m == 0 ==> p == 0,
    ensures
        positioned(m, v) & !m == 0,
        (m >> p) << p == m,
{
    lemma_bit_identities();
    lemma_or_identities();
    if m != 0 {
        crate::bits::lemma_lsb_of(m, p);
    }
    lemma_shift_back(m, p);
    assert(((v & (m >> p)) << p) & !((m >> p) << p) == 0);
}

proof fn lemma_layout_pack_byte(
    endian: Endianess,
    masks: Seq<u128>,
    values: Seq<u128>,
    w: u32,
    b: u32,
    n: nat,
)
    requires
        b < w <= 16,
        masks.len() == values.len(),
        n <= masks.len(),
        forall|j: int| 0 <= j < masks.len() ==> lsb_of(#[trigger] masks[j]) < 128,
    ensures
        layout_pack_byte(endian, masks, values, w, b, n) == byte_of(
            layout_image(masks, values, n),
            logical_byte(endian, b, w),
        ),
    decreases n,
{
    let k = logical_byte(endian, b, w);
    lemma_bit_identities();
    if n == 0 {
        assert(0u128 >> ((8 * k) as u32) == 0);
        assert(0u128 & 0xFFu128 == 0);
    } else {
        let j = n - 1;
        lemma_layout_pack_byte(endian, masks, values, w, b, (n - 1) as nat);
        lemma_pack_byte(endian, masks[j] >> lsb_of(masks[j]), lsb_of(masks[j]), w, b, values[j]);
        lemma_byte_of_or(layout_image(masks, values, (n - 1) as nat), positioned(masks[j], values[j]), k);
    }
}

proof fn lemma_image_split(masks: Seq<u128>, values: Seq<u128>, k: int, n: nat)
    requires
        masks.len() == values.len(),
        n <= masks.len(),
        0 <= k < masks.len(),
        forall|j: int| 0 <= j < masks.len() && j != k ==> #[trigger] masks[j] & masks[k] == 0,
        forall|j: int| 0 <= j < masks.len() ==> #[trigger] positioned(masks[j], values[j]) & !masks[j] == 0,
    ensures
        layout_image(masks, values, n) == image_without(masks, values, k, n) | (if k < n {
            positioned(masks[k], values[k])
        } else {
            0
        }),
        image_without(masks, values, k, n) & masks[k] == 0,
    decreases n,
{
    lemma_bit_identities();
    lemma_or_identities();
    if n > 0 {
        let j = n - 1;
        lemma_image_split(masks, values, k, (n - 1) as nat);
        let a = image_without(masks, values, k, (n - 1) as nat);
        let c = positioned(masks[j], values[j]);
        let ck = positioned(masks[k], values[k]);
        let mj = masks[j];
        let mk = masks[k];
        if j == k {
            assert(a | 0u128 == a);
        } else if k < j {
            assert((a | ck) | c == (a | c) | ck);
            assert((a | c) & mk == 0);
        } else {
            assert((a | 0u128) | c == (a | c) | 0u128);
            assert((a | c) & mk == 0);
        }
    }
}

/// Round trip of a whole layout: packing every field of a `w`-byte layout
/// with its steps, each value within its field's width, and unpacking field
/// `k` from the resulting image gives back that field's value, in either
/// byte order. The fields occupy non-empty, pairwise disjoint masks inside
/// the image.
pub proof fn lemma_layout_round_trip(
    endian: Endianess,
    masks: Seq<u128>,
    values: Seq<u128>,
    w: u32,
    bytes: Seq<u8>,
    k: int,
)
    requires
        1 <= w <= 16,
        masks.len() == values.len(),
        0 <= k < masks.len(),
        forall|j: int| 0 <= j < masks.len() ==> #[trigger] masks[j] != 0 && masks[j] <= low_mask((8 * w) as u32),
        forall|a: int, b: int| 0 <= a < b < masks.len() ==> #[trigger] masks[a] & #[trigger] masks[b] == 0,
        forall|j: int| 0 <= j < masks.len() ==> #[trigger] values[j] & (masks[j] >> lsb_of(masks[j])) == values[j],
        bytes.len() == w,
        forall|b: u32| b < w ==> #[trigger] bytes[b as int] == layout_pack_byte(endian, masks, values, w, b, masks.len()),
    ensures
        unpack_value(endian, masks[k] >> lsb_of(masks[k]), lsb_of(masks[k]), w, bytes) == values[k],
{
    lemma_bit_identities();
    lemma_or_identities();
    assert forall|j: int| 0 <= j < masks.len() implies lsb_of(#[trigger] masks[j]) < 128
        && positioned(masks[j], values[j]) & !masks[j] == 0 && (masks[j] >> lsb_of(masks[j])) << lsb_of(masks[j]) == masks[j] by {
        let p = crate::bits::lemma_lsb_exists(masks[j]);
        crate::bits::lemma_lsb_of(masks[j], p);
        lemma_positioned_within(masks[j], values[j], p);
    }
    assert forall|j: int| 0 <= j < masks.len() && j != k implies #[trigger] masks[j] & masks[k] == 0 by {
        if j < k {
            assert(masks[j] & masks[k] == 0);
        } else {
            assert(masks[k] & masks[j] == 0);
        }
    }
    let n = masks.len();
    let m = masks[k];
    let p = lsb_of(m);
    let fm = m >> p;
    let v = values[k];
    lemma_image_split(masks, values, k, n);
    let other = image_without(masks, values, k, n);
    assert(fm << p == m);
    assert((fm << p) >> p == fm);
    assert forall|b: u32| b < w implies #[trigger] bytes[b as int] == pack_byte(endian, fm, p, w, b, v)
        | byte_of(other, logical_byte(endian, b, w)) by {
        let q = logical_byte(endian, b, w);
        lemma_layout_pack_byte(endian, masks, values, w, b, n);
        lemma_pack_byte(endian, fm, p, w, b, v);
        lemma_byte_of_or(positioned(m, v), other, q);
        let x = positioned(m, v);
        assert(other | x == x | other);
    }
    lemma_field_round_trip(endian, fm, p, w, v, other, bytes);
}

} // verus!
