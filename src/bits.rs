//! Bit-geometry utilities: pure functions over integer bit masks.

use vstd::arithmetic::power2::pow2;
use vstd::prelude::*;

use std::ops::RangeInclusive;
use vstd::std_specs::range::RangeInclusiveView;

use crate::{TypeBitwidth, TypeValue, MAX_BITWIDTH};

verus! {

/// Mask with the low `n` bits set.
pub open spec fn low_mask(n: u32) -> u128 {
    if n >= 128 {
        u128::MAX
    } else {
        ((1u128 << n) - 1) as u128
    }
}

/// Whether bit `i` of `v` is set.
pub open spec fn bit_set(v: u128, i: u32) -> bool {
    (v >> i) & 1u128 == 1u128
}

/// Identities on masks and bytes that the proofs below rely on.
pub proof fn lemma_bit_identities()
    by (bit_vector)
    ensures
        low_mask(0) == 0,
        forall|x: u128| #[trigger] (x & 0u128) == 0,
        forall|x: u128| #[trigger] (0u128 & x) == 0,
        forall|p: u32| #[trigger] (0u128 >> p) == 0,
        forall|x: u128| #[trigger] (x << 0u32) == x,
        forall|x: u128| #[trigger] (0u128 | x) == x,
        low_mask(128) == !0u128,
        forall|x: u128| #[trigger] (x & !0u128) == x,
        forall|x: u128| #[trigger] (x & !x) == 0,
        forall|x: u128, m: u128| #[trigger] (x & !m) == 0 ==> x <= m,
        forall|x: u128, m: u128| m <= 0xFF ==> #[trigger] (x & m) <= 0xFF,
        forall|x: u128| #[trigger] (((x & 0xFFu128) as u8) as u128) == x & 0xFFu128,
        forall|x: u128| ((x & 0xFFu128) as u8 == 0) == (#[trigger] (x & 0xFFu128) == 0),
        forall|x: u128, a: u128, c: u128, m: u128| #[trigger] (((x & a) & m) | ((x & c) & m)) == (x
            & (a | c)) & m,
        forall|e: u128, f: u128, p: u32| #[trigger] ((e >> p) | (f >> p)) == (e | f) >> p,
{
}

proof fn lemma_low_mask_step(n: u32)
    requires
        n < 128,
    ensures
        low_mask(n) | (1u128 << n) == low_mask((n + 1) as u32),
{
    assert(low_mask(n) | (1u128 << n) == low_mask((n + 1) as u32)) by (bit_vector)
        requires
            n < 128,
    ;
}

/// Mask with the low `width` bits set; zero for a width of zero.
pub fn bit_mask_width(width: TypeBitwidth) -> (r: TypeValue)
    requires
        width <= MAX_BITWIDTH,
    ensures
        r == low_mask(width),
{
    if width == 0 {
        proof {
            lemma_bit_identities();
        }
        0
    } else {
        let mut result: TypeValue = 0;
        let mut i: u32 = 1;
        proof {
            lemma_bit_identities();
        }
        while i <= width
            invariant
                1 <= i <= width + 1,
                width <= 128,
                result == low_mask((i - 1) as u32),
            decreases width + 1 - i,
        {
            proof {
                lemma_low_mask_step((i - 1) as u32);
            }
            result = result | (1u128 << (i - 1));
            i = i + 1;
        }
        result
    }
}


/// Whether `i` is the position of the most significant set bit of `v`.
pub open spec fn is_msb(v: u128, i: u32) -> bool {
    i < 128 && v >> i == 1u128
}

/// Whether `i` is the position of the least significant set bit of `v`.
pub open spec fn is_lsb(v: u128, i: u32) -> bool {
    i < 128 && bit_set(v, i) && v & low_mask(i) == 0
}

/// Position of the most significant set bit; zero for zero.
pub open spec fn msb_of(v: u128) -> u32 {
    if v == 0 {
        0
    } else {
        choose|i: u32| is_msb(v, i)
    }
}

/// Position of the least significant set bit; zero for zero.
pub open spec fn lsb_of(v: u128) -> u32 {
    if v == 0 {
        0
    } else {
        choose|i: u32| is_lsb(v, i)
    }
}

proof fn lemma_msb_unique(v: u128, i: u32, j: u32)
    requires
        is_msb(v, i),
        is_msb(v, j),
    ensures
        i == j,
{
    assert(i == j) by (bit_vector)
        requires
            i < 128,
            j < 128,
            v >> i == 1u128,
            v >> j == 1u128,
    ;
}

proof fn lemma_lsb_unique(v: u128, i: u32, j: u32)
    requires
        is_lsb(v, i),
        is_lsb(v, j),
    ensures
        i == j,
{
    assert(i == j) by (bit_vector)
        requires
            i < 128,
            j < 128,
            (v >> i) & 1u128 == 1u128,
            (v >> j) & 1u128 == 1u128,
            v & low_mask(i) == 0,
            v & low_mask(j) == 0,
    ;
}

/// A position that is the most significant set bit is the one `msb_of` names.
pub proof fn lemma_msb_of(v: u128, i: u32)
    requires
        is_msb(v, i),
    ensures
        msb_of(v) == i,
{
    assert(v != 0) by (bit_vector)
        requires
            v >> i == 1u128,
    ;
    lemma_msb_unique(v, i, msb_of(v));
}

/// A position that is the least significant set bit is the one `lsb_of` names.
pub proof fn lemma_lsb_of(v: u128, i: u32)
    requires
        is_lsb(v, i),
    ensures
        lsb_of(v) == i,
{
    assert(v != 0) by (bit_vector)
        requires
            (v >> i) & 1u128 == 1u128,
    ;
    lemma_lsb_unique(v, i, lsb_of(v));
}

/// A non-zero mask has a lowest set bit.
pub proof fn lemma_lsb_exists(v: u128) -> (p: u32)
    requires
        v != 0,
    ensures
        is_lsb(v, p),
{
    lemma_bit_identities();
    lemma_lsb_exists_from(v, 0)
}

proof fn lemma_lsb_exists_from(v: u128, i: u32) -> (p: u32)
    requires
        v != 0,
        i < 128,
        v & low_mask(i) == 0,
    ensures
        is_lsb(v, p),
    decreases 128 - i,
{
    if bit_set(v, i) {
        i
    } else {
        assert(i + 1 < 128 && v & low_mask((i + 1) as u32) == 0) by (bit_vector)
            requires
                i < 128,
                v != 0,
                (v >> i) & 1u128 != 1u128,
                v & low_mask(i) == 0,
        ;
        lemma_lsb_exists_from(v, (i + 1) as u32)
    }
}

/// Position of the most significant set bit of `val`; zero for zero.
pub fn msb_pos(val: TypeValue) -> (r: TypeBitwidth)
    ensures
        r == msb_of(val),
        r < 128,
        val != 0 ==> is_msb(val, r),
{
    if val == 0 {
        0
    } else {
        let mut i: u32 = 127;
        assert(val >> 127u32 <= 1) by (bit_vector);
        while val >> i == 0
            invariant
                i < 128,
                val != 0,
                val >> i <= 1,
            decreases i,
        {
            assert(i > 0 && val >> ((i - 1) as u32) <= 1) by (bit_vector)
                requires
                    i < 128,
                    val != 0,
                    val >> i == 0,
            ;
            i = i - 1;
        }
        proof {
            lemma_msb_of(val, i);
        }
        i
    }
}

/// Position of the least significant set bit of `val`; zero for zero.
pub fn lsb_pos(val: TypeValue) -> (r: TypeBitwidth)
    ensures
        r == lsb_of(val),
        r < 128,
        val != 0 ==> is_lsb(val, r),
{
    if val == 0 {
        0
    } else {
        let mut i: u32 = 0;
        proof {
            lemma_bit_identities();
        }
        while val & (1u128 << i) == 0
            invariant
                i < 128,
                val != 0,
                val & low_mask(i) == 0,
            decreases 128 - i,
        {
            assert(i + 1 < 128 && val & low_mask((i + 1) as u32) == 0) by (bit_vector)
                requires
                    i < 128,
                    val != 0,
                    val & (1u128 << i) == 0,
                    val & low_mask(i) == 0,
            ;
            i = i + 1;
        }
        assert(bit_set(val, i)) by (bit_vector)
            requires
                i < 128,
                val & (1u128 << i) != 0,
        ;
        proof {
            lemma_lsb_of(val, i);
        }
        i
    }
}


/// Relies on `RangeInclusive::start`: the lower bound given at construction,
/// as long as the range has not been iterated to exhaustion.
pub assume_specification<Idx>[ RangeInclusive::<Idx>::start ](r: &RangeInclusive<Idx>) -> (s: &Idx)
    ensures
        !r@.exhausted ==> *s == r@.start,
;

/// Relies on `RangeInclusive::end`: the upper bound given at construction,
/// as long as the range has not been iterated to exhaustion.
pub assume_specification<Idx>[ RangeInclusive::<Idx>::end ](r: &RangeInclusive<Idx>) -> (s: &Idx)
    ensures
        !r@.exhausted ==> *s == r@.end,
;

/// Mask with the bits `lo..=hi` set.
pub open spec fn range_mask(lo: u32, hi: u32) -> u128 {
    low_mask((hi - lo + 1) as u32) << lo
}

/// Whether `mask` is one run of set bits without gaps.
pub open spec fn is_contiguous(mask: u128) -> bool {
    exists|lo: u32, hi: u32| lo <= hi < 128 && mask == #[trigger] range_mask(lo, hi)
}

proof fn lemma_range_mask_ends(lo: u32, hi: u32)
    requires
        lo <= hi < 128,
    ensures
        is_lsb(range_mask(lo, hi), lo),
        is_msb(range_mask(lo, hi), hi),
{
    assert(is_lsb(range_mask(lo, hi), lo) && is_msb(range_mask(lo, hi), hi)) by (bit_vector)
        requires
            lo <= hi < 128,
    ;
}

proof fn lemma_lsb_le_msb(v: u128, l: u32, h: u32)
    requires
        v != 0 ==> is_lsb(v, l) && is_msb(v, h),
        v == 0 ==> l == 0 && h == 0,
    ensures
        l <= h < 128,
{
    if v != 0 {
        assert(l <= h) by (bit_vector)
            requires
                l < 128,
                h < 128,
                (v >> l) & 1u128 == 1u128,
                v >> h == 1u128,
        ;
    }
}

/// Mask with the bits of `range` set.
pub fn bit_mask_range(range: &RangeInclusive<TypeBitwidth>) -> (r: TypeValue)
    requires
        !range@.exhausted,
        range@.start <= range@.end < MAX_BITWIDTH,
    ensures
        r == range_mask(range@.start, range@.end),
{
    let width = range.end() - range.start() + 1;
    bit_mask_width(width) << range.start()
}

/// Whether `mask` is one run of set bits without gaps; false for zero.
pub fn bit_mask_is_contigous(mask: TypeValue) -> (r: bool)
    ensures
        r == is_contiguous(mask),
{
    let lo = lsb_pos(mask);
    let hi = msb_pos(mask);
    proof {
        lemma_lsb_le_msb(mask, lo, hi);
    }
    let r = bit_mask_range(&RangeInclusive::new(lo, hi)) == mask;
    proof {
        if r {
            assert(mask == range_mask(lo, hi));
        } else if is_contiguous(mask) {
            let (a, b) = choose|a: u32, b: u32| a <= b < 128 && mask == #[trigger] range_mask(a, b);
            lemma_range_mask_ends(a, b);
            lemma_lsb_of(mask, a);
            lemma_msb_of(mask, b);
        }
    }
    r
}

/// The mask moved down so that its lowest set bit is bit zero.
pub fn unpositioned_mask(mask: TypeValue) -> (r: TypeValue)
    ensures
        r == mask >> lsb_of(mask),
{
    mask >> lsb_pos(mask)
}

/// Number of bits from the lowest to the highest set bit of `mask`, both
/// included; one for zero.
pub fn mask_width(mask: TypeValue) -> (r: TypeBitwidth)
    ensures
        r == msb_of(mask) - lsb_of(mask) + 1,
        1 <= r <= 128,
{
    let lo = lsb_pos(mask);
    let hi = msb_pos(mask);
    proof {
        lemma_lsb_le_msb(mask, lo, hi);
    }
    hi - lo + 1
}

/// Whether `val` has no bit set at position `bitwidth` or above.
pub fn fits_into_bitwidth(val: TypeValue, bitwidth: TypeBitwidth) -> (r: bool)
    requires
        bitwidth <= MAX_BITWIDTH,
    ensures
        r == (val <= low_mask(bitwidth)),
{
    let m = bit_mask_width(bitwidth);
    assert(((!m) & val == 0) == (val <= m)) by (bit_vector)
        requires
            m == low_mask(bitwidth),
            bitwidth <= 128,
    ;
    (!m) & val == 0
}


/// Whether some range of `s` holds position `j`.
pub open spec fn covers(s: Seq<(u32, u32)>, j: u32) -> bool {
    exists|k: int| 0 <= k < s.len() && s[k].0 <= j <= #[trigger] s[k].1
}

/// Whether `s` lists, in increasing order, the maximal runs of set bits of
/// `mask`, each as its first and last bit position.
pub open spec fn is_bit_ranges_of(s: Seq<(u32, u32)>, mask: u128) -> bool {
    &&& forall|k: int| 0 <= k < s.len() ==> s[k].0 <= #[trigger] s[k].1 < 128
    &&& forall|k: int| 0 <= k < s.len() - 1 ==> #[trigger] s[k].1 + 1 < s[k + 1].0
    &&& forall|j: u32| j < 128 ==> bit_set(mask, j) == #[trigger] covers(s, j)
}

/// The first and last bit of each range.
pub open spec fn range_bounds(s: Seq<RangeInclusive<u32>>) -> Seq<(u32, u32)> {
    s.map_values(|r: RangeInclusive<u32>| (r@.start, r@.end))
}

proof fn lemma_covers_push(s: Seq<(u32, u32)>, x: (u32, u32), j: u32)
    ensures
        covers(s.push(x), j) == (covers(s, j) || (x.0 <= j <= x.1)),
{
    let t = s.push(x);
    if covers(s, j) {
        let k = choose|k: int| 0 <= k < s.len() && s[k].0 <= j <= #[trigger] s[k].1;
        assert(t[k] == s[k]);
    }
    if x.0 <= j <= x.1 {
        assert(t[s.len() as int] == x);
    }
    if covers(t, j) {
        let k = choose|k: int| 0 <= k < t.len() && t[k].0 <= j <= #[trigger] t[k].1;
        if k < s.len() {
            assert(t[k] == s[k]);
        }
    }
}

proof fn lemma_bit_test(v: u128, i: u32)
    requires
        i < 128,
    ensures
        (v & (1u128 << i) != 0) == bit_set(v, i),
{
    assert((v & (1u128 << i) != 0) == bit_set(v, i)) by (bit_vector)
        requires
            i < 128,
    ;
}

/// Whether the positions below `n` are set in `mask` exactly where the ranges
/// `g`, or the open run from `start` when `in_run`, cover them.
pub open spec fn scan_ok(mask: u128, g: Seq<(u32, u32)>, in_run: bool, start: u32, n: int) -> bool {
    forall|j: u32| j < n ==> bit_set(mask, j) == (#[trigger] covers(g, j) || (in_run && start <= j))
}

proof fn lemma_scan_step(
    mask: u128,
    g0: Seq<(u32, u32)>,
    r0: bool,
    s0: u32,
    i: u32,
    g: Seq<(u32, u32)>,
    r: bool,
    s: u32,
)
    requires
        i < 128,
        forall|j: u32| j < i ==> bit_set(mask, j) == (#[trigger] covers(g0, j) || (r0 && s0 <= j)),
        forall|k: int| 0 <= k < g0.len() ==> #[trigger] g0[k].1 + 1 < i,
        r0 ==> s0 < i,
        bit_set(mask, i) ==> g == g0 && r && s == (if r0 {
            s0
        } else {
            i
        }),
        !bit_set(mask, i) ==> !r && g == (if r0 {
            g0.push((s0, (i - 1) as u32))
        } else {
            g0
        }),
    ensures
        scan_ok(mask, g, r, s, i + 1),
{
    assert forall|j: u32| j < i implies bit_set(mask, j) == (covers(g0, j) || (r0 && s0 <= j)) by {}
    assert forall|j: u32| j < i + 1 implies bit_set(mask, j) == (#[trigger] covers(g, j) || (r
        && s <= j)) by {
        assert(!covers(g0, i)) by {
            if covers(g0, i) {
                let k = choose|k: int| 0 <= k < g0.len() && g0[k].0 <= i <= #[trigger] g0[k].1;
            }
        }
        if r0 && !bit_set(mask, i) {
            lemma_covers_push(g0, (s0, (i - 1) as u32), j);
        }
    }
}

/// The maximal runs of set bits of `mask`, lowest first.
pub fn mask_to_bit_ranges(mask: TypeValue) -> (r: Vec<RangeInclusive<TypeBitwidth>>)
    ensures
        forall|k: int| 0 <= k < r@.len() ==> !(#[trigger] r@[k])@.exhausted,
        is_bit_ranges_of(range_bounds(r@), mask),
{
    let mut ranges: Vec<RangeInclusive<TypeBitwidth>> = Vec::new();
    let ghost mut g: Seq<(u32, u32)> = Seq::empty();
    let mut in_run = false;
    let mut start: u32 = 0;
    let mut i: u32 = 0;
    while i < MAX_BITWIDTH
        invariant
            i <= 128,
            ranges@.len() == g.len(),
            forall|k: int|
                0 <= k < g.len() ==> (#[trigger] ranges@[k])@ == (RangeInclusiveView {
                    start: g[k].0,
                    end: g[k].1,
                    exhausted: false,
                }),
            forall|k: int| 0 <= k < g.len() ==> g[k].0 <= #[trigger] g[k].1 && g[k].1 + 1 < i,
            forall|k: int| 0 <= k < g.len() - 1 ==> #[trigger] g[k].1 + 1 < g[k + 1].0,
            in_run ==> start < i && (g.len() > 0 ==> g.last().1 + 1 < start),
            scan_ok(mask, g, in_run, start, i as int),
        decreases 128 - i,
    {
        proof {
            lemma_bit_test(mask, i);
        }
        let ghost g0 = g;
        let ghost r0 = in_run;
        let ghost s0 = start;
        let set = mask & (1u128 << i) != 0;
        if set {
            if !in_run {
                in_run = true;
                start = i;
            }
        } else if in_run {
            let ghost x = (start, (i - 1) as u32);
            ranges.push(RangeInclusive::new(start, i - 1));
            proof {
                g = g.push(x);
            }
            in_run = false;
        }
        proof {
            lemma_scan_step(mask, g0, r0, s0, i, g, in_run, start);
        }
        i = i + 1;
    }
    let ghost g0 = g;
    if in_run {
        let ghost x = (start, 127u32);
        ranges.push(RangeInclusive::new(start, 127));
        proof {
            g = g.push(x);
        }
    }
    proof {
        assert forall|j: u32| j < 128 implies bit_set(mask, j) == #[trigger] covers(g, j) by {
            assert(bit_set(mask, j) == (covers(g0, j) || (in_run && start <= j)));
            if in_run {
                lemma_covers_push(g0, (start, 127u32), j);
            }
        }
        assert(range_bounds(ranges@) =~= g);
    }
    ranges
}


proof fn lemma_low_mask_add(n: u32)
    by (bit_vector)
    requires
        n < 128,
    ensures
        low_mask(n) | (1u128 << n) == low_mask(n) + (1u128 << n),
        n + 1 < 128 ==> (1u128 << ((n + 1) as u32)) == (1u128 << n) * 2,
{
}

proof fn lemma_low_mask_bit_step(x: u128, y: u128, i: u32)
    by (bit_vector)
    requires
        i < 128,
        x & low_mask(i) == y & low_mask(i),
        bit_set(x, i) == bit_set(y, i),
    ensures
        x & low_mask((i + 1) as u32) == y & low_mask((i + 1) as u32),
{
}

proof fn lemma_range_mask_bit(x: u128, lo: u32, hi: u32, i: u32)
    requires
        lo <= hi < 128,
        i < 128,
    ensures
        bit_set(x | range_mask(lo, hi), i) == (bit_set(x, i) || (lo <= i && i <= hi)),
{
    lemma_range_mask_has_bit(lo, hi, i);
    lemma_bit_or(x, range_mask(lo, hi), i);
}

#[verifier::rlimit(100)]
proof fn lemma_range_mask_has_bit(lo: u32, hi: u32, i: u32)
    by (bit_vector)
    requires
        lo <= hi < 128,
        i < 128,
    ensures
        bit_set(range_mask(lo, hi), i) == (lo <= i && i <= hi),
{
}

proof fn lemma_bit_or(x: u128, y: u128, i: u32)
    by (bit_vector)
    ensures
        bit_set(x | y, i) == (bit_set(x, i) || bit_set(y, i)),
{
}

/// Two masks with the same bits are equal.
pub proof fn lemma_bits_ext(x: u128, y: u128)
    requires
        forall|i: u32| i < 128 ==> bit_set(x, i) == bit_set(y, i),
    ensures
        x == y,
{
    lemma_bit_identities();
    lemma_bits_ext_upto(x, y, 128);
}

proof fn lemma_bits_ext_upto(x: u128, y: u128, n: u32)
    requires
        n <= 128,
        forall|i: u32| i < 128 ==> bit_set(x, i) == bit_set(y, i),
    ensures
        x & low_mask(n) == y & low_mask(n),
    decreases n,
{
    lemma_bit_identities();
    if n > 0 {
        lemma_bits_ext_upto(x, y, (n - 1) as u32);
        lemma_low_mask_bit_step(x, y, (n - 1) as u32);
    }
}

/// The mask of `n` low bits has exactly the bits `0..n` set and equals
/// `2^n - 1`.
pub proof fn lemma_low_mask_value(n: u32)
    requires
        n <= 128,
    ensures
        low_mask(n) as nat == pow2(n as nat) - 1,
        forall|i: u32| i < 128 ==> bit_set(low_mask(n), i) == (i < n),
    decreases n,
{
    lemma_bit_identities();
    if n == 0 {
        vstd::arithmetic::power2::lemma2_to64();
        assert forall|i: u32| i < 128 implies bit_set(low_mask(n), i) == (i < n) by {
            assert(0u128 >> i == 0);
            assert(0u128 & 1u128 == 0);
        }
    } else {
        let m = (n - 1) as u32;
        lemma_low_mask_value(m);
        lemma_low_mask_step(m);
        lemma_low_mask_add(m);
        lemma_shl_one_pow2(m);
        vstd::arithmetic::power2::lemma_pow2_unfold(n as nat);
        assert forall|i: u32| i < 128 implies bit_set(low_mask(n), i) == (i < n) by {
            lemma_range_mask_bit(low_mask(m), m, m, i);
            assert(range_mask(m, m) == 1u128 << m) by {
                lemma_low_mask_step(0);
            }
        }
    }
}

proof fn lemma_shl_one_pow2(n: u32)
    requires
        n < 128,
    ensures
        (1u128 << n) as nat == pow2(n as nat),
    decreases n,
{
    lemma_bit_identities();
    if n == 0 {
        vstd::arithmetic::power2::lemma2_to64();
    } else {
        lemma_shl_one_pow2((n - 1) as u32);
        lemma_low_mask_add((n - 1) as u32);
        vstd::arithmetic::power2::lemma_pow2_unfold(n as nat);
    }
}

/// The highest set bit of the mask of `n` low bits is bit `n - 1`, and the
/// lowest set bit of a single shifted bit is its position; more generally the
/// bit range `lo..=hi` has its lowest set bit at `lo` and its highest at `hi`.
pub proof fn lemma_positions_round_trip(n: u32, lo: u32, hi: u32)
    requires
        1 <= n <= 128,
        lo <= hi < 128,
    ensures
        msb_of(low_mask(n)) == n - 1,
        lsb_of(low_mask(n)) == 0,
        lsb_of(1u128 << lo) == lo,
        msb_of(1u128 << lo) == lo,
        lsb_of(range_mask(lo, hi)) == lo,
        msb_of(range_mask(lo, hi)) == hi,
{
    lemma_bit_identities();
    lemma_range_mask_ends(lo, hi);
    lemma_msb_of(range_mask(lo, hi), hi);
    lemma_lsb_of(range_mask(lo, hi), lo);
    lemma_range_mask_ends(lo, lo);
    lemma_low_mask_step(0);
    assert(range_mask(lo, lo) == 1u128 << lo);
    lemma_msb_of(range_mask(lo, lo), lo);
    lemma_lsb_of(range_mask(lo, lo), lo);
    lemma_range_mask_ends(0, (n - 1) as u32);
    assert(range_mask(0, (n - 1) as u32) == low_mask(n));
    lemma_msb_of(low_mask(n), (n - 1) as u32);
    lemma_lsb_of(low_mask(n), 0);
}

/// The union of the bit ranges listed in `s`.
pub open spec fn ranges_union(s: Seq<(u32, u32)>) -> u128
    decreases s.len(),
{
    if s.len() == 0 {
        0
    } else {
        ranges_union(s.drop_last()) | range_mask(s.last().0, s.last().1)
    }
}

proof fn lemma_ranges_union_bits(s: Seq<(u32, u32)>, i: u32)
    requires
        i < 128,
        forall|k: int| 0 <= k < s.len() ==> s[k].0 <= #[trigger] s[k].1 < 128,
    ensures
        bit_set(ranges_union(s), i) == covers(s, i),
    decreases s.len(),
{
    lemma_bit_identities();
    if s.len() == 0 {
        assert(0u128 >> i == 0);
        assert(0u128 & 1u128 == 0);
    } else {
        let t = s.drop_last();
        assert forall|k: int| 0 <= k < t.len() implies t[k].0 <= #[trigger] t[k].1 < 128 by {
            assert(t[k] == s[k]);
        }
        lemma_ranges_union_bits(t, i);
        lemma_range_mask_bit(ranges_union(t), s.last().0, s.last().1, i);
        lemma_covers_push(t, s.last(), i);
        assert(t.push(s.last()) =~= s);
    }
}

/// Joining the bit ranges of a mask gives back the mask.
pub proof fn lemma_ranges_reconstruct_mask(mask: u128, s: Seq<(u32, u32)>)
    requires
        is_bit_ranges_of(s, mask),
    ensures
        ranges_union(s) == mask,
{
    assert forall|i: u32| i < 128 implies bit_set(ranges_union(s), i) == bit_set(mask, i) by {
        lemma_ranges_union_bits(s, i);
    }
    lemma_bits_ext(ranges_union(s), mask);
}

proof fn lemma_ranges_sorted(s: Seq<(u32, u32)>, a: int, b: int)
    requires
        forall|k: int| 0 <= k < s.len() ==> s[k].0 <= #[trigger] s[k].1 < 128,
        forall|k: int| 0 <= k < s.len() - 1 ==> #[trigger] s[k].1 + 1 < s[k + 1].0,
        0 <= a < b < s.len(),
    ensures
        s[a].1 + 1 < s[b].0,
    decreases b - a,
{
    if b > a + 1 {
        lemma_ranges_sorted(s, a, b - 1);
        assert(s[b - 1].1 + 1 < s[b].0);
    }
}

/// A mask is one run of set bits exactly when it splits into one bit range.
pub proof fn lemma_contiguous_iff_one_range(mask: u128, s: Seq<(u32, u32)>)
    requires
        is_bit_ranges_of(s, mask),
    ensures
        is_contiguous(mask) == (s.len() == 1),
{
    lemma_bit_identities();
    lemma_ranges_reconstruct_mask(mask, s);
    if s.len() == 1 {
        assert(s.drop_last().len() == 0);
        assert(ranges_union(s.drop_last()) == 0);
        assert(s.last() == s[0]);
        assert(mask == range_mask(s[0].0, s[0].1));
    }
    if is_contiguous(mask) {
        let (lo, hi) = choose|lo: u32, hi: u32| lo <= hi < 128 && mask == #[trigger] range_mask(lo, hi);
        assert forall|i: u32| i < 128 implies bit_set(mask, i) == (lo <= i && i <= hi) by {
            lemma_range_mask_bit(0, lo, hi, i);
            assert(0u128 | range_mask(lo, hi) == range_mask(lo, hi));
            assert(0u128 >> i == 0);
            assert(0u128 & 1u128 == 0);
        }
        assert(bit_set(mask, lo));
        assert(covers(s, lo));
        if s.len() >= 2 {
            let j = (s[0].1 + 1) as u32;
            lemma_ranges_sorted(s, 0, 1);
            assert(covers(s, s[0].1));
            assert(s[1].0 <= s[1].1);
            assert(covers(s, s[1].0));
            if covers(s, j) {
                let k = choose|k: int| 0 <= k < s.len() && s[k].0 <= j <= #[trigger] s[k].1;
                if k > 1 {
                    lemma_ranges_sorted(s, 1, k);
                }
            }
            assert(!bit_set(mask, j));
        }
    }
}

} // verus!
