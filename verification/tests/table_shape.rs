use pnk2json::loader::{load, ArchiveInfo, MessageInfo};
use pnk2json::model::{TableMerge, Warning, WarningCode};
use pnk2json::table_shape::{clamp_table_size, table_shape};

fn varint(mut v: u64) -> Vec<u8> {
    let mut out = Vec::new();
    while v >= 128 {
        out.push((v as u8 & 0x7f) | 0x80);
        v >>= 7;
    }
    out.push(v as u8);
    out
}

fn len_field(number: u64, body: &[u8]) -> Vec<u8> {
    let mut out = varint((number << 3) | 2);
    out.extend(varint(body.len() as u64));
    out.extend_from_slice(body);
    out
}

fn varint_field(number: u64, v: u64) -> Vec<u8> {
    let mut out = varint(number << 3);
    out.extend(varint(v));
    out
}

fn fixed32_field(number: u64, v: u32) -> Vec<u8> {
    let mut out = varint((number << 3) | 5);
    out.extend_from_slice(&v.to_le_bytes());
    out
}

fn object(identifier: u64, type_id: u32, payload: Vec<u8>) -> ArchiveInfo {
    ArchiveInfo {
        identifier,
        should_merge: false,
        messages: vec![MessageInfo { type_id, length: payload.len() as u32, payload, patch: vec![] }],
    }
}

/// A formula-store pair whose formula holds the given nodes.
fn pair(nodes: &[Vec<u8>]) -> Vec<u8> {
    let mut arr = Vec::new();
    for n in nodes {
        arr.extend(len_field(1, n));
    }
    len_field(2, &len_field(1, &arr))
}

/// A colon-tract node over rows r0..=r1 and columns c0..=c1.
fn tract_node(r0: u64, r1: u64, c0: u64, c1: u64) -> Vec<u8> {
    let mut row = varint_field(1, r0);
    row.extend(varint_field(2, r1));
    let mut col = varint_field(1, c0);
    col.extend(varint_field(2, c1));
    let mut tract = len_field(4, &row);
    tract.extend(len_field(3, &col));
    let mut n = varint_field(1, 67);
    n.extend(len_field(40, &tract));
    n
}

/// A cell-reference node (type 36) at (row, col).
fn cell_ref_node(row: u64, col: u64) -> Vec<u8> {
    let mut n = varint_field(1, 36);
    n.extend(len_field(27, &varint_field(1, row)));
    n.extend(len_field(26, &varint_field(1, col)));
    n
}

/// A table model of `rows` × `cols` whose merge owner lists the pairs.
fn model(rows: u64, cols: u64, pairs: &[Vec<u8>]) -> Vec<u8> {
    let mut store = Vec::new();
    for p in pairs {
        store.extend(len_field(3, p));
    }
    let mut m = varint_field(6, rows);
    m.extend(varint_field(7, cols));
    m.extend(len_field(47, &len_field(2, &store)));
    m
}

fn merge(anchor_row: u32, anchor_column: u32, row_span: u32, column_span: u32) -> TableMerge {
    TableMerge { anchor_row, anchor_column, row_span, column_span }
}

#[test]
fn sizes_within_the_limits_are_kept() {
    let mut w: Vec<Warning> = Vec::new();
    assert_eq!(clamp_table_size(7, 10, 5, &mut w), (10, 5));
    assert!(w.is_empty());
}

#[test]
fn oversized_tables_are_clamped_with_two_warnings() {
    let mut w: Vec<Warning> = Vec::new();
    assert_eq!(clamp_table_size(7, 2_000_000, 20_000, &mut w), (800, 10_000));
    assert_eq!(w.len(), 2);
    assert_eq!(w[0].message, "table declares 2000000 x 20000 cells, past app limits; clamping");
    assert_eq!(
        w[1].message,
        "table declares 1000000 x 10000 cells, past the 8000000-cell budget; keeping the first 800 rows"
    );
    assert_eq!(w[1].code, WarningCode::TableDegraded);
    assert_eq!(w[1].detail.as_deref(), Some("7"));
}

#[test]
fn the_cell_budget_alone_cuts_rows() {
    let mut w: Vec<Warning> = Vec::new();
    assert_eq!(clamp_table_size(1, 1_000_000, 9, &mut w), (888_888, 9));
    assert_eq!(w.len(), 1);
}

#[test]
fn a_missing_model_is_an_unresolved_reference() {
    let loaded = load(&[], &vec![]);
    let mut w: Vec<Warning> = Vec::new();
    assert!(table_shape(&loaded, 42, &mut w).is_none());
    assert_eq!(w.len(), 1);
    assert_eq!(w[0].code, WarningCode::UnresolvedReference);
    assert_eq!(w[0].message, "table model reference 42 points nowhere");
    assert_eq!(w[0].detail.as_deref(), Some("42"));
}

#[test]
fn colon_tract_merges_are_clipped_and_sorted() {
    let pairs = vec![pair(&[tract_node(3, 4, 0, 1)]), pair(&[tract_node(0, 0, 0, 6)])];
    let loaded = load(&[object(10, 6001, model(5, 4, &pairs))], &vec![]);
    let mut w: Vec<Warning> = Vec::new();
    let t = table_shape(&loaded, 10, &mut w).unwrap();
    assert_eq!((t.row_count, t.column_count), (5, 4));
    assert!(w.is_empty());
    // the stale-wide A1:G1 range is clipped to the four columns
    assert_eq!(t.merges, vec![merge(0, 0, 1, 4), merge(3, 0, 2, 2)]);
}

#[test]
fn pre_bnc_reference_pairs_span_their_corners() {
    let colon = varint_field(1, 29);
    let pairs = vec![pair(&[cell_ref_node(3, 2), cell_ref_node(1, 0), colon])];
    let loaded = load(&[object(10, 6001, model(10, 10, &pairs))], &vec![]);
    let mut w: Vec<Warning> = Vec::new();
    let t = table_shape(&loaded, 10, &mut w).unwrap();
    assert_eq!(t.merges, vec![merge(1, 0, 3, 3)]);
}

#[test]
fn reference_pairs_without_a_colon_give_no_merge() {
    let pairs = vec![pair(&[cell_ref_node(3, 2), cell_ref_node(1, 0)])];
    let loaded = load(&[object(10, 6001, model(10, 10, &pairs))], &vec![]);
    let mut w: Vec<Warning> = Vec::new();
    let t = table_shape(&loaded, 10, &mut w).unwrap();
    assert!(t.merges.is_empty());
}

#[test]
fn the_legacy_region_map_is_the_fallback() {
    // origin: column 2, row 4; size: 0 columns (counts as 1), 3 rows
    let mut range = len_field(1, &fixed32_field(1, (2 << 16) | 4));
    range.extend(len_field(2, &fixed32_field(1, 3)));
    let mut later = len_field(1, &fixed32_field(1, 1));
    later.extend(len_field(2, &fixed32_field(1, (2 << 16) | 2)));
    let mut map = len_field(1, &range);
    map.extend(len_field(1, &later));
    let store = len_field(13, &varint_field(1, 70));
    let mut m = varint_field(6, 10);
    m.extend(varint_field(7, 10));
    m.extend(len_field(4, &store));
    let loaded = load(&[object(10, 6001, m), object(70, 6144, map)], &vec![]);
    let mut w: Vec<Warning> = Vec::new();
    let t = table_shape(&loaded, 10, &mut w).unwrap();
    assert_eq!(t.merges, vec![merge(1, 0, 2, 2), merge(4, 2, 3, 1)]);
}

#[test]
fn stale_wide_legacy_ranges_clamp_to_the_table() {
    // origin A1; size 7 columns x 1 row on a 4-column table; a range at
    // row 20 lies outside and gives nothing
    let mut range = len_field(1, &fixed32_field(1, 0));
    range.extend(len_field(2, &fixed32_field(1, (7 << 16) | 1)));
    let mut outside = len_field(1, &fixed32_field(1, 20));
    outside.extend(len_field(2, &fixed32_field(1, (2 << 16) | 2)));
    let mut map = len_field(1, &range);
    map.extend(len_field(1, &outside));
    let store = len_field(13, &varint_field(1, 70));
    let mut m = varint_field(6, 5);
    m.extend(varint_field(7, 4));
    m.extend(len_field(4, &store));
    let loaded = load(&[object(10, 6001, m), object(70, 6144, map)], &vec![]);
    let mut w: Vec<Warning> = Vec::new();
    let t = table_shape(&loaded, 10, &mut w).unwrap();
    assert_eq!(t.merges, vec![merge(0, 0, 1, 4)]);
}

#[test]
fn a_reversed_range_gives_no_merge() {
    let mut merges: Vec<TableMerge> = Vec::new();
    // far corner (2, 2) before the anchor (5, 5): no extent, no merge
    pnk2json::tables::push_merge(&mut merges, 5, 5, 2, 2, 10, 10);
    assert!(merges.is_empty());
    // a forward range still gives its merge, clipped to the table
    pnk2json::tables::push_merge(&mut merges, 1, 1, 20, 2, 10, 10);
    assert_eq!(merges.len(), 1);
    assert_eq!((merges[0].anchor_row, merges[0].row_span, merges[0].column_span), (1, 9, 2));
}
