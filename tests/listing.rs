use reginald_codegen::listing::{bits_mask, BitRange, BitsError, RegisterLayout};

#[test]
fn bit_list_entries_give_masks() {
    assert_eq!(BitRange::Bit(2).mask(), Ok(0b100));
    assert_eq!(BitRange::Range("2-3".into()).mask(), Ok(0b1100));
    assert_eq!(BitRange::Range("0-0".into()).mask(), Ok(0b1));
    assert_eq!(BitRange::Range("120-127".into()).mask(), Ok(0xFFu128 << 120));
    assert_eq!(
        bits_mask(&vec![BitRange::Range("1-3".into()), BitRange::Bit(4), BitRange::Range("5-6".into())]),
        Ok(0b111_1110)
    );
    assert_eq!(bits_mask(&vec![]), Ok(0));
}

#[test]
fn malformed_bit_lists_are_rejected() {
    assert_eq!(BitRange::Bit(128).mask(), Err(BitsError::OutOfRange));
    assert_eq!(BitRange::Range("3".into()).mask(), Err(BitsError::Malformed));
    assert_eq!(BitRange::Range("a-3".into()).mask(), Err(BitsError::Malformed));
    assert_eq!(BitRange::Range("-3".into()).mask(), Err(BitsError::Malformed));
    assert_eq!(BitRange::Range("1-".into()).mask(), Err(BitsError::Malformed));
    assert_eq!(BitRange::Range("1-2-3".into()).mask(), Err(BitsError::Malformed));
    assert_eq!(BitRange::Range("5-128".into()).mask(), Err(BitsError::OutOfRange));
    assert_eq!(BitRange::Range("99999999999-1".into()).mask(), Err(BitsError::OutOfRange));
    assert_eq!(BitRange::Range("5-3".into()).mask(), Err(BitsError::Reversed));
    assert_eq!(
        bits_mask(&vec![BitRange::Bit(1), BitRange::Range("x".into()), BitRange::Bit(200)]),
        Err(BitsError::Malformed)
    );
}

#[test]
fn default_register_layout_has_no_fields() {
    match RegisterLayout::default() {
        RegisterLayout::Layout(m) => assert!(m.is_empty()),
        RegisterLayout::SharedLayout(_) => panic!("expected a local layout"),
    }
}
