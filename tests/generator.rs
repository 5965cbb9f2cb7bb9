use reginald_codegen::generator::{address_bitwidth, fitting_unsigned_bits, uint_conversion_bytes};

#[test]
fn fitting_unsigned_types() {
    assert_eq!(fitting_unsigned_bits(0), Some(8));
    assert_eq!(fitting_unsigned_bits(8), Some(8));
    assert_eq!(fitting_unsigned_bits(9), Some(16));
    assert_eq!(fitting_unsigned_bits(33), Some(64));
    assert_eq!(fitting_unsigned_bits(128), Some(128));
    assert_eq!(fitting_unsigned_bits(129), None);
}

#[test]
fn address_width_from_largest_address() {
    assert_eq!(address_bitwidth(&vec![]), 1);
    assert_eq!(address_bitwidth(&vec![0x10, 0x3, 0xFF]), 8);
    assert_eq!(address_bitwidth(&vec![0x100]), 9);
    assert_eq!(address_bitwidth(&vec![u64::MAX]), 64);
}

#[test]
fn uint_conversion_widths() {
    assert_eq!(uint_conversion_bytes(0), None);
    assert_eq!(uint_conversion_bytes(1), Some(1));
    assert_eq!(uint_conversion_bytes(2), Some(2));
    assert_eq!(uint_conversion_bytes(3), Some(4));
    assert_eq!(uint_conversion_bytes(5), Some(8));
    assert_eq!(uint_conversion_bytes(9), Some(16));
    assert_eq!(uint_conversion_bytes(17), None);
}
