use reginald_codegen::transform::{
    field_byte_to_packed_byte_transform, field_pack_steps, field_to_packed_byte_transform, field_unpack_steps,
    fixed_steps, grab_byte, packed_byte_to_field_byte_transform, packed_byte_to_field_transform, splice_pack_steps,
    splice_unpack_steps, to_byte_array, Endianess, FixedStep, ShiftDirection, ShiftTransform,
};

fn shift(v: u128, s: Option<(ShiftDirection, u32)>) -> u128 {
    match s {
        Some((ShiftDirection::Left, a)) => v << a,
        Some((ShiftDirection::Right, a)) => v >> a,
        None => v,
    }
}

fn pack_into(img: &mut [u8], endian: Endianess, mask: u128, value: u128) {
    for s in field_pack_steps(endian, mask, img.len() as u32) {
        img[s.byte as usize] |= (shift(value, s.transform.shift) & s.transform.mask as u128) as u8;
    }
}

fn unpack_from(img: &[u8], endian: Endianess, mask: u128) -> u128 {
    let mut v = 0u128;
    for s in field_unpack_steps(endian, mask, img.len() as u32) {
        v |= shift((img[s.byte as usize] & s.transform.mask) as u128, s.transform.shift);
    }
    v
}

#[test]
fn single_byte_register_with_two_flags() {
    let f7: u128 = 1 << 7;
    let f1: u128 = 1 << 1;
    for endian in [Endianess::Little, Endianess::Big] {
        let mut img = [0u8; 1];
        pack_into(&mut img, endian, f7, 1);
        pack_into(&mut img, endian, f1, 1);
        assert_eq!(img[0], 0b1000_0010);
        assert_eq!(unpack_from(&img, endian, f7) != 0, true);
        assert_eq!(unpack_from(&img, endian, f1) != 0, true);
        let zero = [0u8; 1];
        assert_eq!(unpack_from(&zero, endian, f7) != 0, false);
        assert_eq!(unpack_from(&zero, endian, f1) != 0, false);
        let only7 = [0b1000_0000u8];
        assert_eq!(unpack_from(&only7, endian, f7), 1);
        assert_eq!(unpack_from(&only7, endian, f1), 0);
        let noise = [0b0111_1101u8];
        assert_eq!(unpack_from(&noise, endian, f7), 0);
        assert_eq!(unpack_from(&noise, endian, f1), 0);
    }
}

#[test]
fn scalar_fields_round_trip_for_all_widths_and_orders() {
    for endian in [Endianess::Little, Endianess::Big] {
        for w in 1u32..=16 {
            let bits = 8 * w;
            for width in [1u32, 3, 8, 13, 31] {
                for pos in [0u32, 1, 4, 7, 9, 17, 60] {
                    if pos + width > bits {
                        continue;
                    }
                    let fm = (1u128 << width) - 1;
                    let mask = fm << pos;
                    for v in [0u128, 1, fm, fm >> 1, 0x5555_5555 & fm] {
                        let mut img = vec![0u8; w as usize];
                        // Neighbouring bits set by other fields must not leak in.
                        let other = !mask & if bits == 128 { u128::MAX } else { (1u128 << bits) - 1 };
                        pack_into(&mut img, endian, other, other >> (other.trailing_zeros().min(127)));
                        pack_into(&mut img, endian, mask, v);
                        assert_eq!(unpack_from(&img, endian, mask), v);
                    }
                }
            }
        }
    }
}

#[test]
fn big_endian_reverses_byte_order() {
    let mut le = [0u8; 2];
    let mut be = [0u8; 2];
    pack_into(&mut le, Endianess::Little, 0xFFFF, 0x1234);
    pack_into(&mut be, Endianess::Big, 0xFFFF, 0x1234);
    assert_eq!(le, [0x34, 0x12]);
    assert_eq!(be, [0x12, 0x34]);
    assert_eq!(to_byte_array(Endianess::Little, 0x1234, 2), vec![0x34, 0x12]);
    assert_eq!(to_byte_array(Endianess::Big, 0x1234, 2), vec![0x12, 0x34]);
    assert_eq!(to_byte_array(Endianess::Big, 0x0102_0304, 3), vec![0x02, 0x03, 0x04]);
}

#[test]
fn steps_exist_only_for_touched_bytes() {
    for endian in [Endianess::Little, Endianess::Big] {
        for mask in [0x1u128, 0xF0, 0x0FF0, 0xFF_0000, 0x8000_0001, 0x00FF_00FF_0000] {
            let w = 8u32;
            let steps = field_pack_steps(endian, mask, w);
            let touched: Vec<u32> = (0..w).filter(|b| grab_byte(endian, mask, *b, w) != 0).collect();
            let bytes: Vec<u32> = steps.iter().map(|s| s.byte).collect();
            assert_eq!(bytes, touched);
            let bytes: Vec<u32> = field_unpack_steps(endian, mask, w).iter().map(|s| s.byte).collect();
            assert_eq!(bytes, touched);
        }
    }
    assert_eq!(field_pack_steps(Endianess::Little, 0x0, 4).len(), 0);
    assert_eq!(field_pack_steps(Endianess::Little, 0x10, 4).len(), 1);
}

#[test]
fn transform_shift_and_mask_values() {
    // A byte-wide field at bit 4 of a two-byte image straddles both bytes.
    assert_eq!(
        field_to_packed_byte_transform(Endianess::Little, 0xFF, 4, 0, 2),
        Some(ShiftTransform { shift: Some((ShiftDirection::Left, 4)), mask: 0xF0 })
    );
    assert_eq!(
        field_to_packed_byte_transform(Endianess::Little, 0xFF, 4, 1, 2),
        Some(ShiftTransform { shift: Some((ShiftDirection::Right, 4)), mask: 0x0F })
    );
    assert_eq!(
        packed_byte_to_field_transform(Endianess::Little, 0xFF, 4, 0, 2),
        Some(ShiftTransform { shift: Some((ShiftDirection::Right, 4)), mask: 0xF0 })
    );
    assert_eq!(
        packed_byte_to_field_transform(Endianess::Little, 0xFF, 4, 1, 2),
        Some(ShiftTransform { shift: Some((ShiftDirection::Left, 4)), mask: 0x0F })
    );
    // Big endian: byte 1 holds the low bits.
    assert_eq!(
        field_to_packed_byte_transform(Endianess::Big, 0xFF, 4, 1, 2),
        Some(ShiftTransform { shift: Some((ShiftDirection::Left, 4)), mask: 0xF0 })
    );
    // An aligned byte needs neither shift nor partial mask.
    assert_eq!(
        field_to_packed_byte_transform(Endianess::Little, 0xFF, 8, 1, 2),
        Some(ShiftTransform { shift: None, mask: 0xFF })
    );
    assert_eq!(field_to_packed_byte_transform(Endianess::Little, 0xFF, 8, 0, 2), None);
    assert_eq!(grab_byte(Endianess::Little, 0xAABBCC, 1, 3), 0xBB);
    assert_eq!(grab_byte(Endianess::Big, 0xAABBCC, 0, 3), 0xAA);
}

#[test]
fn fixed_fields_contribute_constant_bytes() {
    // Value 0b10 in bits 6..=9 of a two-byte image.
    let steps = fixed_steps(Endianess::Little, 0b11_1100_0000, 0b10, 2);
    assert_eq!(
        steps,
        vec![FixedStep { byte: 0, value: 0b1000_0000 }, FixedStep { byte: 1, value: 0 }]
    );
    let steps = fixed_steps(Endianess::Big, 0b11_1100_0000, 0b1001, 2);
    assert_eq!(
        steps,
        vec![FixedStep { byte: 0, value: 0b10 }, FixedStep { byte: 1, value: 0b0100_0000 }]
    );
}

fn splice_round_trip(endian: Endianess, occupied: u128, offset: u32, sub_w: u32, w: u32, sub: &[u8]) -> Vec<u8> {
    let mut img = vec![0u8; w as usize];
    for s in splice_pack_steps(endian, occupied, offset, sub_w, w) {
        img[s.byte as usize] |= (shift(sub[s.field_byte as usize] as u128, s.transform.shift)
            & s.transform.mask as u128) as u8;
    }
    let mut out = vec![0u8; sub_w as usize];
    for s in splice_unpack_steps(endian, occupied, offset, sub_w, w) {
        out[s.field_byte as usize] |=
            shift((img[s.byte as usize] & s.transform.mask) as u128, s.transform.shift) as u8;
    }
    out
}

#[test]
fn nested_layout_splices_at_byte_and_bit_offsets() {
    for endian in [Endianess::Little, Endianess::Big] {
        for sub in [[0x00u8, 0x00], [0xA5, 0x3C], [0xFF, 0xFF], [0x12, 0x34]] {
            assert_eq!(splice_round_trip(endian, 0xFFFF, 8, 2, 4, &sub), sub.to_vec());
            assert_eq!(splice_round_trip(endian, 0xFFFF, 4, 2, 3, &sub), sub.to_vec());
            assert_eq!(splice_round_trip(endian, 0xFFFF, 13, 2, 4, &sub), sub.to_vec());
        }
    }
}

#[test]
fn nested_splice_steps_pair_overlapping_bytes() {
    // Offset 4: nested byte 0 lands in parent bytes 0 and 1.
    assert_eq!(
        field_byte_to_packed_byte_transform(Endianess::Little, 0xFFFF, 4, 0, 2, 0, 3),
        Some(ShiftTransform { shift: Some((ShiftDirection::Left, 4)), mask: 0xF0 })
    );
    assert_eq!(
        field_byte_to_packed_byte_transform(Endianess::Little, 0xFFFF, 4, 0, 2, 1, 3),
        Some(ShiftTransform { shift: Some((ShiftDirection::Right, 4)), mask: 0x0F })
    );
    assert_eq!(field_byte_to_packed_byte_transform(Endianess::Little, 0xFFFF, 4, 0, 2, 2, 3), None);
    assert_eq!(
        packed_byte_to_field_byte_transform(Endianess::Little, 0xFFFF, 4, 1, 2, 2, 3),
        Some(ShiftTransform { shift: Some((ShiftDirection::Left, 4)), mask: 0x0F })
    );
    // Offset 8: bytes line up one to one.
    let steps = splice_pack_steps(Endianess::Little, 0xFFFF, 8, 2, 4);
    let pairs: Vec<(u32, u32)> = steps.iter().map(|s| (s.byte, s.field_byte)).collect();
    assert_eq!(pairs, vec![(1, 0), (2, 1)]);
    // Only occupied bits of the nested layout are spliced.
    let steps = splice_pack_steps(Endianess::Little, 0x00F0, 8, 2, 4);
    assert_eq!(steps.len(), 1);
    assert_eq!(steps[0].transform.mask, 0xF0);
}

#[test]
fn step_lists_are_the_same_on_every_call() {
    for endian in [Endianess::Little, Endianess::Big] {
        assert_eq!(field_pack_steps(endian, 0x0FF0, 4), field_pack_steps(endian, 0x0FF0, 4));
        assert_eq!(field_unpack_steps(endian, 0x1_8001, 3), field_unpack_steps(endian, 0x1_8001, 3));
        assert_eq!(splice_pack_steps(endian, 0x3FF, 5, 2, 3), splice_pack_steps(endian, 0x3FF, 5, 2, 3));
        assert_eq!(fixed_steps(endian, 0xF0, 0x5, 2), fixed_steps(endian, 0xF0, 0x5, 2));
    }
}
