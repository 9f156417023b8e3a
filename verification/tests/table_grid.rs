use pnk2json::cells::{RawValue, StoredNumber};
use pnk2json::loader::{load, ArchiveInfo, MessageInfo};
use pnk2json::model::{Warning, WarningCode};
use pnk2json::table_grid::{cell_spans_of, convert_table};

fn varint(mut v: u64) -> Vec<u8> {
    let mut out = Vec::new();
    while v >= 128 {
        out.push((v as u8 & 0x7f) | 0x80);
        v >>= 7;
    }
    out.push(v as u8);
    out
}

fn len_field(number: u64, body: &[u8]) -> Vec<u8> {
    let mut out = varint((number << 3) | 2);
    out.extend(varint(body.len() as u64));
    out.extend_from_slice(body);
    out
}

fn varint_field(number: u64, v: u64) -> Vec<u8> {
    let mut out = varint(number << 3);
    out.extend(varint(v));
    out
}

fn object(identifier: u64, type_id: u32, payload: Vec<u8>) -> ArchiveInfo {
    ArchiveInfo {
        identifier,
        should_merge: false,
        messages: vec![MessageInfo { type_id, length: payload.len() as u32, payload, patch: vec![] }],
    }
}

/// A version-5 number cell.
fn number_cell(v: f64) -> Vec<u8> {
    let mut b = vec![5u8, 2, 0, 0, 0, 0, 0, 0];
    b.extend_from_slice(&2u32.to_le_bytes());
    b.extend_from_slice(&v.to_bits().to_le_bytes());
    b
}

fn offsets(v: &[i16]) -> Vec<u8> {
    v.iter().flat_map(|o| o.to_le_bytes()).collect()
}

/// A table model of `rows` × `cols` whose one tile (object 20) holds the
/// given row infos.
fn model(rows: u64, cols: u64, name: &str) -> Vec<u8> {
    let tile_entry = [varint_field(1, 0), len_field(2, &varint_field(1, 20))].concat();
    let store = len_field(3, &len_field(1, &tile_entry));
    let mut m = varint_field(6, rows);
    m.extend(varint_field(7, cols));
    m.extend(len_field(4, &store));
    m.extend(len_field(8, name.as_bytes()));
    m.extend(varint_field(22, 1));
    m.extend(varint_field(9, 1));
    m
}

#[test]
fn spans_run_to_the_next_later_offset() {
    // slot 0 at 0, slot 1 absent, slot 2 at 20, slot 3 at 30 (10 bytes: too short)
    let spans = cell_spans_of(40, &offsets(&[0, -1, 20, 30]), false);
    assert_eq!(spans, vec![(0, 0, 20)]);
    // wide offsets count quarter units
    assert_eq!(cell_spans_of(40, &offsets(&[0, 5]), true), vec![(0, 0, 20), (1, 20, 40)]);
}

#[test]
fn cells_land_in_a_grid_of_the_table_size() {
    let mut buf = number_cell(2.5);
    buf.extend(number_cell(7.0));
    let mut ri = varint_field(1, 0);
    ri.extend(len_field(6, &buf));
    ri.extend(len_field(7, &offsets(&[0, -1, 20])));
    let tile = len_field(5, &ri);
    let loaded = load(&[object(10, 6001, model(2, 3, "Totals")), object(20, 6002, tile)], &vec![]);
    let mut w: Vec<Warning> = Vec::new();
    let t = convert_table(&loaded, 10, &mut w).unwrap();
    assert_eq!((t.row_count, t.column_count), (2, 3));
    assert_eq!(t.grid.len(), 6);
    assert!(matches!(t.grid[0].as_ref().unwrap().value, RawValue::Number(StoredNumber::Double(b)) if b == 2.5f64.to_bits()));
    assert!(t.grid[1].is_none());
    assert!(matches!(t.grid[2].as_ref().unwrap().value, RawValue::Number(StoredNumber::Double(b)) if b == 7.0f64.to_bits()));
    assert!(t.grid[3..].iter().all(|c| c.is_none()));
    assert_eq!(t.name.as_deref(), Some("Totals"));
    assert_eq!(t.header_row_count, 1);
    assert!(t.merges.is_empty());
    assert!(w.is_empty());
}

#[test]
fn pre_bnc_rows_are_read_with_a_warning() {
    let mut ri = varint_field(1, 1);
    ri.extend(len_field(3, &number_cell(1.0)));
    ri.extend(len_field(4, &offsets(&[0])));
    let tile = len_field(5, &ri);
    let loaded = load(&[object(10, 6001, model(2, 1, "")), object(20, 6002, tile)], &vec![]);
    let mut w: Vec<Warning> = Vec::new();
    let t = convert_table(&loaded, 10, &mut w).unwrap();
    assert!(t.grid[0].is_none());
    assert_eq!(t.grid[1].as_ref().unwrap().row, 1);
    assert_eq!(t.name, None);
    assert_eq!(w.len(), 1);
    assert_eq!(w[0].code, WarningCode::TableDegraded);
    assert_eq!(w[0].message, "table model 10 contains pre-BNC tile storage; decode is best-effort");
}

#[test]
fn a_missing_table_model_is_unresolved() {
    let loaded = load(&[], &vec![]);
    let mut w: Vec<Warning> = Vec::new();
    assert!(convert_table(&loaded, 3, &mut w).is_none());
    assert_eq!(w[0].message, "table model reference 3 points nowhere");
}
