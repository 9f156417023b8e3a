use std::collections::HashMap;

use pnk2json::cells::{decode_cell_v5, RawValue, StoredNumber};
use pnk2json::loader::load;
use pnk2json::model::{CellFormatKind, WarningCode};
use pnk2json::pb::Msg;
use pnk2json::tables::{DataList, ListEntry};

/// A version-5 record: header, flags, then the given fields in flag order.
fn record(cell_type: u8, flags: u32, fields: &[u8]) -> Vec<u8> {
    let mut b = vec![5, cell_type, 0, 0, 0, 0, 0, 0];
    b.extend_from_slice(&flags.to_le_bytes());
    b.extend_from_slice(fields);
    b
}

fn strings(entries: &[(i32, &str)]) -> DataList {
    let mut m = HashMap::new();
    for (k, s) in entries {
        m.insert(*k, ListEntry { string: Some(s.to_string()), reference: None, format: None, custom_format: None });
    }
    DataList { entries: m }
}

fn empty() -> DataList {
    DataList { entries: HashMap::new() }
}

#[test]
fn text_number_bool_and_error_cells() {
    let loaded = load(&[], &vec![]);
    let st = strings(&[(4, "Total")]);
    let errs = strings(&[(2, "#DIV/0!")]);
    let mut w = Vec::new();
    // text: string id 4, cell style id 9
    let mut f = 4i32.to_le_bytes().to_vec();
    f.extend_from_slice(&9i32.to_le_bytes());
    let c = decode_cell_v5(&loaded, 1, 2, &record(3, 0x8 | 0x20, &f), &st, &errs, &empty(), &empty(), &empty(), &mut w)
        .unwrap();
    assert!(matches!(&c.value, RawValue::Text(s) if s == "Total"));
    assert_eq!((c.row, c.col, c.cell_style_id), (1, 2, Some(9)));
    // number: a double, with formula id 17
    let mut f = 2.5f64.to_bits().to_le_bytes().to_vec();
    f.extend_from_slice(&17i32.to_le_bytes());
    let c = decode_cell_v5(&loaded, 0, 0, &record(2, 0x2 | 0x200, &f), &st, &errs, &empty(), &empty(), &empty(), &mut w)
        .unwrap();
    assert!(matches!(c.value, RawValue::Number(StoredNumber::Double(b)) if b == 2.5f64.to_bits()));
    assert_eq!(c.formula.as_deref(), Some("17"));
    // booleans: positive doubles are true; absent, zero, negative and NaN are false
    for (bits, want) in [(1.0f64.to_bits(), true), (0.0f64.to_bits(), false), ((-3.0f64).to_bits(), false), (f64::NAN.to_bits(), false)] {
        let c = decode_cell_v5(&loaded, 0, 0, &record(6, 0x2, &bits.to_le_bytes()), &st, &errs, &empty(), &empty(), &empty(), &mut w)
            .unwrap();
        assert!(matches!(c.value, RawValue::Bool(b) if b == want));
    }
    // formula error: from the error list, else the stock text
    let c = decode_cell_v5(&loaded, 0, 0, &record(8, 0x800, &2i32.to_le_bytes()), &st, &errs, &empty(), &empty(), &empty(), &mut w)
        .unwrap();
    assert!(matches!(&c.value, RawValue::Error(s) if s == "#DIV/0!"));
    let c = decode_cell_v5(&loaded, 0, 0, &record(8, 0, &[]), &st, &errs, &empty(), &empty(), &empty(), &mut w).unwrap();
    assert!(matches!(&c.value, RawValue::Error(s) if s == "formula error"));
    assert!(w.is_empty());
}

#[test]
fn currency_cells_carry_their_code_and_format() {
    let loaded = load(&[], &vec![]);
    let mut fmt = vec![0x08];
    fmt.extend_from_slice(&[0x81, 0x02]); // field 1 = 257 (currency)
    fmt.extend_from_slice(&[0x1a, 3, b'E', b'U', b'R']); // field 3 = "EUR"
    let mut m = HashMap::new();
    m.insert(6, ListEntry { string: None, reference: None, format: Some(Msg::parse(&fmt).unwrap()), custom_format: None });
    let formats = DataList { entries: m };
    let mut f = 7.0f64.to_bits().to_le_bytes().to_vec();
    f.extend_from_slice(&6i32.to_le_bytes());
    let mut w = Vec::new();
    let c = decode_cell_v5(&loaded, 3, 4, &record(10, 0x2 | 0x4000, &f), &empty(), &empty(), &formats, &empty(), &empty(), &mut w)
        .unwrap();
    assert!(matches!(&c.value, RawValue::Currency(StoredNumber::Double(_), Some(code)) if code == "EUR"));
    assert_eq!(c.format.unwrap().kind, CellFormatKind::Currency);
}

#[test]
fn bare_unknown_and_foreign_cells() {
    let loaded = load(&[], &vec![]);
    let mut w = Vec::new();
    // an empty cell with nothing on it is dropped without a word
    assert!(decode_cell_v5(&loaded, 0, 0, &record(0, 0, &[]), &empty(), &empty(), &empty(), &empty(), &empty(), &mut w).is_none());
    // a number cell without a number is dropped too
    assert!(decode_cell_v5(&loaded, 0, 0, &record(2, 0, &[]), &empty(), &empty(), &empty(), &empty(), &empty(), &mut w).is_none());
    assert!(w.is_empty());
    // an empty cell with a style stays
    let c = decode_cell_v5(&loaded, 0, 0, &record(0, 0x20, &3i32.to_le_bytes()), &empty(), &empty(), &empty(), &empty(), &empty(), &mut w);
    assert!(matches!(c.unwrap().value, RawValue::Empty));
    // unknown types and other versions are skipped with a warning
    assert!(decode_cell_v5(&loaded, 5, 6, &record(42, 0, &[]), &empty(), &empty(), &empty(), &empty(), &empty(), &mut w).is_none());
    assert!(decode_cell_v5(&loaded, 7, 8, &[4, 2, 0], &empty(), &empty(), &empty(), &empty(), &empty(), &mut w).is_none());
    assert_eq!(w.len(), 2);
    assert_eq!(w[0].code, WarningCode::TableDegraded);
    assert_eq!(w[0].message, "unrecognized cell type 42; cell skipped");
    assert_eq!(w[0].detail.as_deref(), Some("r5c6"));
    assert_eq!(w[1].message, "cell storage version 4 unsupported (expected 5)");
    assert_eq!(w[1].detail.as_deref(), Some("r7c8"));
}
