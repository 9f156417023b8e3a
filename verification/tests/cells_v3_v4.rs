use std::collections::HashMap;

use pnk2json::cells::{decode_cell_v3, decode_cell_v4, RawValue, StoredNumber};
use pnk2json::loader::load;
use pnk2json::model::WarningCode;
use pnk2json::tables::{DataList, ListEntry};

fn le32(v: u32) -> [u8; 4] {
    v.to_le_bytes()
}

fn strings(entries: &[(i32, &str)]) -> DataList {
    let mut m = HashMap::new();
    for (k, s) in entries {
        m.insert(*k, ListEntry { string: Some(s.to_string()), reference: None, format: None, custom_format: None });
    }
    DataList { entries: m }
}

fn empty() -> DataList {
    DataList { entries: HashMap::new() }
}

/// A version-3 record of the given type and flags, then its fields.
fn v3(cell_type: u8, flags: u64, fields: &[u8]) -> Vec<u8> {
    let mut b = vec![0u8, 0, cell_type, 0];
    b.extend_from_slice(&flags.to_le_bytes());
    b.extend_from_slice(fields);
    b
}

#[test]
fn v3_text_and_number_cells() {
    let loaded = load(&[], &vec![]);
    let st = strings(&[(4, "Total")]);
    let mut w = Vec::new();
    let c = decode_cell_v3(&loaded, 1, 2, &v3(3, 1 << 4, &le32(4)), &st, &empty(), &empty(), &mut w).unwrap();
    assert!(matches!(&c.value, RawValue::Text(s) if s == "Total"));
    assert_eq!((c.row, c.col, c.cell_style_id, c.formula.clone()), (1, 2, None, None));
    let mut f = le32(5).to_vec();
    f.extend_from_slice(&7.0f64.to_le_bytes());
    let c = decode_cell_v3(&loaded, 0, 0, &v3(2, (1 << 1) | (1 << 5), &f), &st, &empty(), &empty(), &mut w).unwrap();
    assert!(matches!(c.value, RawValue::Number(StoredNumber::Double(b)) if b == 7.0f64.to_bits()));
    assert_eq!(c.cell_style_id, Some(5));
    assert!(w.is_empty());
}

#[test]
fn v3_refusals_become_warnings() {
    let loaded = load(&[], &vec![]);
    let mut w = Vec::new();
    assert!(decode_cell_v3(&loaded, 1, 2, &v3(3, 1 << 4, &le32(9)), &empty(), &empty(), &empty(), &mut w).is_none());
    assert!(decode_cell_v3(&loaded, 0, 0, &v3(2, 1 << 3, &[]), &empty(), &empty(), &empty(), &mut w).is_none());
    assert!(decode_cell_v3(&loaded, 3, 4, &v3(7, 0, &[]), &empty(), &empty(), &empty(), &mut w).is_none());
    // too short, and an empty cell without a style: nothing, silently
    assert!(decode_cell_v3(&loaded, 0, 0, &[0u8; 11], &empty(), &empty(), &empty(), &mut w).is_none());
    assert!(decode_cell_v3(&loaded, 0, 0, &v3(0, 0, &[]), &empty(), &empty(), &empty(), &mut w).is_none());
    assert_eq!(w.len(), 3);
    assert_eq!(w[0].code, WarningCode::TableDegraded);
    assert_eq!(w[0].message, "v3 string key 9 not resolvable in the string table; cell r1c2 dropped");
    assert_eq!(w[0].detail.as_deref(), Some("r1c2"));
    assert_eq!(w[1].message, "v3 cell with unknown storage flags 0x8; cell r0c0 dropped");
    assert_eq!(w[2].message, "unrecognized v3 cell type 7; cell skipped");
}

/// A version-4 record: type in byte 1, then words 1 and 2, then the rest.
fn v4(cell_type: u8, w1: u32, w2: u32, rest: &[u8]) -> Vec<u8> {
    let mut b = vec![0u8, cell_type, 0, 0];
    b.extend_from_slice(&le32(w1));
    b.extend_from_slice(&le32(w2));
    b.extend_from_slice(rest);
    b
}

#[test]
fn v4_text_and_number_cells() {
    let loaded = load(&[], &vec![]);
    let st = strings(&[(22, "Hi")]);
    let mut w = Vec::new();
    let c = decode_cell_v4(&loaded, 0, 1, &v4(3, 1 << 4, 0, &le32(22)), &st, &empty(), &empty(), &empty(), &mut w)
        .unwrap();
    assert!(matches!(&c.value, RawValue::Text(s) if s == "Hi"));
    // a number: its eight value bytes end the record
    let rec = {
        let mut b = vec![0u8, 2, 0, 0];
        b.extend_from_slice(&le32(0));
        b.extend_from_slice(&2.5f64.to_le_bytes());
        b
    };
    let c = decode_cell_v4(&loaded, 0, 0, &rec, &st, &empty(), &empty(), &empty(), &mut w).unwrap();
    assert!(matches!(c.value, RawValue::Number(StoredNumber::Double(b)) if b == 2.5f64.to_bits()));
    assert!(w.is_empty());
}

#[test]
fn v4_refusals_become_warnings() {
    let loaded = load(&[], &vec![]);
    let mut w = Vec::new();
    assert!(decode_cell_v4(&loaded, 2, 3, &v4(8, 0, 0, &le32(0)), &empty(), &empty(), &empty(), &empty(), &mut w).is_none());
    assert!(decode_cell_v4(&loaded, 0, 0, &v4(42, 0, 0, &le32(0)), &empty(), &empty(), &empty(), &empty(), &mut w).is_none());
    assert!(decode_cell_v4(&loaded, 0, 0, &[0u8; 15], &empty(), &empty(), &empty(), &empty(), &mut w).is_none());
    assert_eq!(w.len(), 2);
    assert_eq!(w[0].message, "v4 formula cell without a formula key; cell r2c3 dropped");
    assert_eq!(w[0].detail.as_deref(), Some("r2c3"));
    assert_eq!(w[1].message, "unrecognized v4 cell type 42; cell skipped");
}
