use pnk2json::cell_storage::{parse_storage_v3, parse_storage_v4, parse_storage_v5, V3Read};

fn le32(v: u32) -> [u8; 4] {
    v.to_le_bytes()
}

#[test]
fn v5_fields_follow_the_flags() {
    let mut b = vec![5u8, 2, 0, 0, 0, 0, 0, 0];
    b.extend_from_slice(&le32(0x2 | 0x20 | 0x2000));
    b.extend_from_slice(&1.5f64.to_le_bytes());
    b.extend_from_slice(&le32(7));
    b.extend_from_slice(&le32(0xffff_ffff));
    let s = parse_storage_v5(&b).unwrap();
    assert_eq!(s.cell_type, 2);
    assert_eq!(s.double_bits, Some(1.5f64.to_bits()));
    assert_eq!(s.cell_style_id, Some(7));
    assert_eq!(s.num_format_id, Some(-1));
    assert_eq!(s.decimal128, None);
    assert_eq!(s.string_id, None);
}

#[test]
fn v5_field_that_does_not_fit_takes_no_room() {
    // decimal128 flagged but only 8 bytes follow: it is absent and the
    // double after it still reads
    let mut b = vec![5u8, 2, 0, 0, 0, 0, 0, 0];
    b.extend_from_slice(&le32(0x1 | 0x2));
    b.extend_from_slice(&2.0f64.to_le_bytes());
    let s = parse_storage_v5(&b).unwrap();
    assert_eq!(s.decimal128, None);
    assert_eq!(s.double_bits, Some(2.0f64.to_bits()));
    let mut b = vec![5u8, 10, 0, 0, 0, 0, 0, 0];
    b.extend_from_slice(&le32(0x1 | 0x4000));
    b.extend_from_slice(&[9u8; 16]);
    b.extend_from_slice(&le32(3));
    let s = parse_storage_v5(&b).unwrap();
    assert_eq!(s.decimal128, Some(vec![9u8; 16]));
    assert_eq!(s.currency_format_id, Some(3));
}

#[test]
fn v5_other_versions_are_refused() {
    assert_eq!(
        parse_storage_v5(&[4u8, 2]).err(),
        Some("cell storage version 4 unsupported (expected 5)".to_string())
    );
}

#[test]
fn v4_leading_and_trailing_fields() {
    // word 1: bits 2 (format) and 4 (string key); word 2: bits 16 and 19
    // (two trailing keys)
    let mut b = vec![0u8, 3, 0, 0];
    b.extend_from_slice(&le32((1 << 2) | (1 << 4)));
    b.extend_from_slice(&le32((1 << 16) | (1 << 19)));
    b.extend_from_slice(&le32(11));
    b.extend_from_slice(&le32(22));
    b.extend_from_slice(&3.25f64.to_le_bytes());
    b.extend_from_slice(&le32(33));
    b.extend_from_slice(&le32(44));
    let s = parse_storage_v4(&b).unwrap();
    assert_eq!(s.cell_type, 3);
    assert_eq!(s.cell_style_id, None);
    assert_eq!(s.format_id, Some(11));
    assert_eq!(s.string_key, Some(22));
    assert_eq!(s.formula_key, None);
    assert_eq!(s.value_bits, Some(3.25f64.to_bits()));
    assert_eq!(s.trailing_keys, vec![33, 44]);
    assert_eq!(s.slot5, Some(u32::from_le_bytes(3.25f64.to_le_bytes()[0..4].try_into().unwrap())));
    assert_eq!(s.last_word, 44);
    assert!(parse_storage_v4(&[0u8; 15]).is_none());
}

#[test]
fn v4_too_many_trailing_keys_leave_no_value() {
    let mut b = vec![0u8, 2, 0, 0];
    b.extend_from_slice(&le32(0));
    b.extend_from_slice(&le32(0x00FF_0000));
    b.extend_from_slice(&le32(0));
    let s = parse_storage_v4(&b).unwrap();
    assert_eq!(s.value_bits, None);
    assert!(s.trailing_keys.is_empty());
}

#[test]
fn v3_fields_and_unknown_flags() {
    let mut b = vec![0u8, 0, 2, 0];
    b.extend_from_slice(&((1u64 << 1) | (1u64 << 5) | (1u64 << 9)).to_le_bytes());
    b.extend_from_slice(&le32(5));
    b.extend_from_slice(&7.0f64.to_le_bytes());
    b.extend_from_slice(&le32(6));
    match parse_storage_v3(&b) {
        V3Read::Fields(s) => {
            assert_eq!(s.cell_type, 2);
            assert_eq!(s.cell_style_id, Some(5));
            assert_eq!(s.double_bits, Some(7.0f64.to_bits()));
            assert_eq!(s.rich_id, Some(6));
            assert_eq!(s.string_id, None);
        }
        _ => panic!("expected fields"),
    }
    let mut b = vec![0u8, 0, 2, 0];
    b.extend_from_slice(&(1u64 << 3).to_le_bytes());
    assert!(matches!(parse_storage_v3(&b), V3Read::UnknownFlags(8)));
    assert!(matches!(parse_storage_v3(&[0u8; 11]), V3Read::TooShort));
}
