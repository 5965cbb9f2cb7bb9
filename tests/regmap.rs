use reginald_codegen::regmap::{
    Enum, EnumEntry, FieldType, LayoutField, RegisterModel, SchemaError, UnpackStrategy,
};

fn entries(values: &[u128]) -> Vec<EnumEntry> {
    values
        .iter()
        .map(|v| EnumEntry { name: format!("V{v}"), value: *v, doc: None })
        .collect()
}

fn an_enum(values: &[u128]) -> Enum {
    Enum { name: "E".to_string(), doc: None, is_local: false, entries: entries(values) }
}

fn local_enum(values: &[u128]) -> Enum {
    Enum { name: "L".to_string(), doc: None, is_local: true, entries: entries(values) }
}

fn field(name: &str, mask: u128, accepts: FieldType) -> LayoutField {
    LayoutField { name: name.to_string(), mask, doc: None, accepts }
}

#[test]
fn enum_widths_and_occupied_bits() {
    let e = an_enum(&[0, 1, 2]);
    assert_eq!(e.min_bitwidth(), 2);
    assert_eq!(e.occupied_bits(), 0b11);
    assert_eq!(an_enum(&[0]).min_bitwidth(), 1);
    assert_eq!(an_enum(&[4, 1]).occupied_bits(), 0b101);
    assert_eq!(an_enum(&[4, 1]).min_bitwidth(), 3);
    assert!(e.has_value(2));
    assert!(!e.has_value(3));
}

#[test]
fn full_two_bit_enum_is_total() {
    let e = an_enum(&[0, 1, 2, 3]);
    assert!(e.can_unpack_min_bitwidth());
    assert_eq!(e.unpack_strategy(0b11), UnpackStrategy::Total);
}

#[test]
fn enum_missing_a_value_in_unconstrained_field_is_fallible() {
    let e = an_enum(&[0, 1, 2]);
    assert!(!e.can_unpack_min_bitwidth());
    assert!(!e.can_do_truncating_unpacking(0b11));
    assert_eq!(e.unpack_strategy(0b11), UnpackStrategy::Fallible);
}

#[test]
fn enum_missing_a_value_the_field_cannot_carry_is_truncating() {
    // Field bits 0 and 2, with bit 1 fixed by a neighbour: the raw value's
    // bit 1 is always zero, so 3 never occurs after masking.
    let e = an_enum(&[0, 1, 2]);
    assert!(e.can_do_truncating_unpacking(0b101));
    assert_eq!(e.unpack_strategy(0b101), UnpackStrategy::Truncating);
}

#[test]
fn can_unpack_mask_checks_every_sub_value() {
    let e = an_enum(&[0, 1, 4, 5]);
    assert!(e.can_unpack_mask(0b101));
    assert!(!e.can_unpack_mask(0b111));
    assert!(e.can_unpack_mask(0));
    assert!(!an_enum(&[]).can_unpack_mask(0));
}

#[test]
fn duplicate_enum_values_are_rejected() {
    let mut m = RegisterModel::new();
    assert_eq!(m.add_enum(an_enum(&[0, 1, 0])), Err(SchemaError::DuplicateEnumValue(0, 2)));
    assert_eq!(m.enums.len(), 0);
    assert_eq!(m.add_enum(an_enum(&[0, 1])), Ok(0));
    assert_eq!(m.enums.len(), 1);
}

#[test]
fn layout_width_is_inferred_from_highest_bit() {
    let mut m = RegisterModel::new();
    let l = m
        .add_layout("A".into(), None, true, vec![field("F7", 1 << 7, FieldType::Bool), field("F1", 1 << 1, FieldType::Bool)], None)
        .unwrap();
    assert_eq!(m.layouts[l].width_bytes, 1);
    assert_eq!(m.layouts[l].occupied_mask(), 0b1000_0010);
    let l = m.add_layout("B".into(), None, true, vec![field("X", 1 << 8, FieldType::UInt)], None).unwrap();
    assert_eq!(m.layouts[l].width_bytes, 2);
    let l = m.add_layout("C".into(), None, true, vec![field("X", 1, FieldType::UInt)], Some(4)).unwrap();
    assert_eq!(m.layouts[l].width_bytes, 4);
    let l = m.add_layout("D".into(), None, true, vec![field("X", 1u128 << 127, FieldType::UInt)], None).unwrap();
    assert_eq!(m.layouts[l].width_bytes, 16);
}

#[test]
fn layout_errors_name_the_offending_field() {
    let mut m = RegisterModel::new();
    m.add_enum(an_enum(&[0, 1, 2, 3, 4])).unwrap();
    assert_eq!(
        m.add_layout("A".into(), None, true, vec![field("X", 0, FieldType::UInt)], None),
        Err(SchemaError::EmptyField(0))
    );
    assert_eq!(
        m.add_layout("A".into(), None, true, vec![field("X", 0b11, FieldType::UInt), field("Y", 0b110, FieldType::UInt)], None),
        Err(SchemaError::Overlap(0, 1))
    );
    assert_eq!(
        m.add_layout("A".into(), None, true, vec![field("X", 0b11, FieldType::Enum(0))], None),
        Err(SchemaError::FieldTooNarrow(0))
    );
    assert_eq!(
        m.add_layout("A".into(), None, true, vec![field("X", 0b11, FieldType::Enum(7))], None),
        Err(SchemaError::UndefinedEnum(0))
    );
    assert_eq!(
        m.add_layout("A".into(), None, true, vec![field("X", 0xFF, FieldType::Layout(0))], None),
        Err(SchemaError::UndefinedLayout(0))
    );
    assert_eq!(
        m.add_layout("A".into(), None, true, vec![field("X", 0b11, FieldType::Fixed(4))], None),
        Err(SchemaError::FieldTooNarrow(0))
    );
    assert_eq!(
        m.add_layout("A".into(), None, true, vec![field("X", 1 << 8, FieldType::UInt)], Some(1)),
        Err(SchemaError::WidthTooSmall)
    );
    assert_eq!(
        m.add_layout("A".into(), None, true, vec![field("X", 1, FieldType::UInt)], Some(17)),
        Err(SchemaError::TooWide)
    );
    assert_eq!(m.layouts.len(), 0);
}

#[test]
fn nested_layouts_and_decoding_failure() {
    let mut m = RegisterModel::new();
    let partial = m.add_enum(an_enum(&[0, 1, 2])).unwrap();
    let full = m.add_enum(an_enum(&[0, 1, 2, 3])).unwrap();
    let inner_ok = m
        .add_layout("In".into(), None, false, vec![field("E", 0b11, FieldType::Enum(full))], None)
        .unwrap();
    let inner_bad = m
        .add_layout("Bad".into(), None, false, vec![field("E", 0b11, FieldType::Enum(partial))], None)
        .unwrap();
    assert!(m.layout_can_always_unpack(inner_ok));
    assert!(!m.layout_can_always_unpack(inner_bad));
    let outer = m
        .add_layout("Out".into(), None, true, vec![field("N", 0xFF << 4, FieldType::Layout(inner_ok))], None)
        .unwrap();
    assert_eq!(m.layouts[outer].width_bytes, 2);
    assert!(m.layout_can_always_unpack(outer));
    let outer_bad = m
        .add_layout("OutBad".into(), None, true, vec![field("N", 0xFF, FieldType::Layout(inner_bad))], None)
        .unwrap();
    assert!(!m.layout_can_always_unpack(outer_bad));
    // A nested layout wider than the field is rejected.
    assert_eq!(
        m.add_layout("Narrow".into(), None, true, vec![field("N", 0b1, FieldType::Layout(inner_ok))], None),
        Err(SchemaError::FieldTooNarrow(0))
    );
    assert_eq!(m.field_strategy(inner_bad, 0), Some(UnpackStrategy::Fallible));
    assert_eq!(m.field_strategy(outer, 0), None);
}

#[test]
fn truncating_enums_are_listed_once_in_order() {
    let mut m = RegisterModel::new();
    let partial = m.add_enum(an_enum(&[0, 1, 2])).unwrap();
    let full = m.add_enum(an_enum(&[0, 1, 2, 3])).unwrap();
    let other = m.add_enum(an_enum(&[1, 2])).unwrap();
    m.add_layout(
        "A".into(),
        None,
        true,
        vec![
            field("X", 0b101, FieldType::Enum(partial)),
            field("Fix", 0b010, FieldType::Fixed(1)),
            field("Y", 0b11 << 3, FieldType::Enum(full)),
            field("Z", 0b11 << 5, FieldType::Enum(other)),
        ],
        None,
    )
    .unwrap();
    m.add_layout("B".into(), None, true, vec![field("X", 0b101, FieldType::Enum(partial))], None).unwrap();
    assert_eq!(m.field_strategy(0, 0), Some(UnpackStrategy::Truncating));
    assert_eq!(m.field_strategy(0, 2), Some(UnpackStrategy::Total));
    assert_eq!(m.field_strategy(0, 3), Some(UnpackStrategy::Fallible));
    assert_eq!(m.enums_requiring_truncating_conv(), vec![partial]);
    assert!(m.layout_can_always_unpack(1));
    assert!(!m.layout_can_always_unpack(0));
}

#[test]
fn local_definitions_in_order_of_first_use() {
    let mut m = RegisterModel::new();
    let shared = m.add_enum(an_enum(&[0, 1])).unwrap();
    let a = m.add_enum(local_enum(&[0, 1])).unwrap();
    let b = m.add_enum(local_enum(&[0, 1])).unwrap();
    let inner = m.add_layout("In".into(), None, true, vec![field("X", 0b1, FieldType::Bool)], None).unwrap();
    let shared_layout = m.add_layout("Sh".into(), None, false, vec![field("X", 0b1, FieldType::Bool)], None).unwrap();
    let l = m
        .add_layout(
            "Top".into(),
            None,
            true,
            vec![
                field("P", 1 << 0, FieldType::Enum(b)),
                field("Q", 1 << 1, FieldType::Enum(shared)),
                field("R", 1 << 2, FieldType::Enum(a)),
                field("S", 1 << 3, FieldType::Enum(b)),
                field("T", 0xFF << 8, FieldType::Layout(shared_layout)),
                field("U", 0xFF << 16, FieldType::Layout(inner)),
            ],
            None,
        )
        .unwrap();
    assert_eq!(m.local_enums(l), vec![b, a]);
    assert_eq!(m.local_layouts(l), vec![inner]);
    assert_eq!(m.local_enums(inner), Vec::<usize>::new());
}
