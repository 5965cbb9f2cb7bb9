use reginald_codegen::bits::{
    bit_mask_is_contigous, bit_mask_range, bit_mask_width, fits_into_bitwidth, lsb_pos, mask_to_bit_ranges,
    mask_width, msb_pos, unpositioned_mask,
};
use reginald_codegen::MAX_BITWIDTH;

#[test]
fn test_bit_mask() {
    assert_eq!(bit_mask_width(0), 0b00);
    assert_eq!(bit_mask_width(1), 0b01);
    assert_eq!(bit_mask_width(2), 0b11);
}

#[test]
fn test_bit_mask_range() {
    assert_eq!(bit_mask_range(&(0..=0)), 0b01);
    assert_eq!(bit_mask_range(&(1..=1)), 0b10);
    assert_eq!(bit_mask_range(&(3..=5)), 0b111000);
}

#[test]
fn test_bit_mask_is_contigous() {
    assert_eq!(bit_mask_is_contigous(0b1), true);
    assert_eq!(bit_mask_is_contigous(0b10), true);
    assert_eq!(bit_mask_is_contigous(0b100), true);
    assert_eq!(bit_mask_is_contigous(0b111), true);
    assert_eq!(bit_mask_is_contigous(0b1110), true);
    assert_eq!(bit_mask_is_contigous(0b1010), false);
}

#[test]
fn test_msb_pos() {
    assert_eq!(msb_pos(0x0), 0);
    assert_eq!(msb_pos(0x1), 0);
    assert_eq!(msb_pos(0x2), 1);
    assert_eq!(msb_pos(0x10), 4);
    assert_eq!(msb_pos(0x1F), 4);
    assert_eq!(msb_pos(0x20), 5);
    assert_eq!(msb_pos(bit_mask_width(5)), 5 - 1);
    assert_eq!(msb_pos(bit_mask_width(MAX_BITWIDTH)), MAX_BITWIDTH - 1);
}

#[test]
fn test_lsb_pos() {
    assert_eq!(lsb_pos(0x0), 0);
    assert_eq!(lsb_pos(0x1), 0);
    assert_eq!(lsb_pos(0x2), 1);
    assert_eq!(lsb_pos(0x3), 0);
    assert_eq!(lsb_pos(0x10), 4);
    assert_eq!(lsb_pos(0x1F), 0);
    assert_eq!(lsb_pos(0x20), 5);
}

#[test]
fn test_unpositioned_mask() {
    assert_eq!(unpositioned_mask(0b0), 0b0);
    assert_eq!(unpositioned_mask(0b1 << 0), 0b1);
    assert_eq!(unpositioned_mask(0b1 << 1), 0b1);
    assert_eq!(unpositioned_mask(0b1 << 2), 0b1);
    assert_eq!(unpositioned_mask(0b1 << 3), 0b1);
    assert_eq!(unpositioned_mask(0xdeadbeef << 15), 0xdeadbeef);
}

#[test]
fn test_fits_into_bitwidth() {
    assert_eq!(fits_into_bitwidth(0b111, 0), false);
    assert_eq!(fits_into_bitwidth(0b111, 1), false);
    assert_eq!(fits_into_bitwidth(0b111, 2), false);
    assert_eq!(fits_into_bitwidth(0b111, 3), true);
    assert_eq!(fits_into_bitwidth(0b111, 4), true);
}

#[test]
fn test_mask_to_bit_ranges() {
    assert_eq!(mask_to_bit_ranges(0b0), vec![]);
    assert_eq!(mask_to_bit_ranges(0b111), vec![0..=2]);
    assert_eq!(mask_to_bit_ranges(0b1110), vec![1..=3]);
    assert_eq!(mask_to_bit_ranges(0b1101110), vec![1..=3, 5..=6]);
}

#[test]
fn mask_width_counts_bits_and_equals_power_minus_one() {
    for n in 0..=MAX_BITWIDTH {
        let m = bit_mask_width(n);
        assert_eq!(m.count_ones(), n);
        if n < 128 {
            assert_eq!(m, (1u128 << n) - 1);
        } else {
            assert_eq!(m, u128::MAX);
        }
    }
}

#[test]
fn positions_round_trip_through_masks_and_shifts() {
    for n in 1..=MAX_BITWIDTH {
        assert_eq!(msb_pos(bit_mask_width(n)), n - 1);
        assert_eq!(lsb_pos(bit_mask_width(n)), 0);
    }
    for k in 0..MAX_BITWIDTH {
        assert_eq!(lsb_pos(1u128 << k), k);
        assert_eq!(msb_pos(1u128 << k), k);
    }
    assert_eq!(lsb_pos(bit_mask_range(&(9..=20))), 9);
    assert_eq!(msb_pos(bit_mask_range(&(9..=20))), 20);
}

#[test]
fn ranges_rebuild_mask_and_decide_contiguity() {
    for mask in [0u128, 1, 0b1010, 0b1101110, 0xF0F0, u128::MAX, 1u128 << 127, 0xdeadbeef << 40] {
        let ranges = mask_to_bit_ranges(mask);
        let mut union = 0u128;
        for r in &ranges {
            union |= bit_mask_range(r);
        }
        assert_eq!(union, mask);
        assert_eq!(bit_mask_is_contigous(mask), ranges.len() == 1);
    }
}

#[test]
fn mask_width_spans_lowest_to_highest_bit() {
    assert_eq!(mask_width(0), 1);
    assert_eq!(mask_width(0b1), 1);
    assert_eq!(mask_width(0b1010), 3);
    assert_eq!(mask_width(u128::MAX), 128);
    assert_eq!(mask_to_bit_ranges(u128::MAX), vec![0..=127]);
    assert!(fits_into_bitwidth(u128::MAX, 128));
}
