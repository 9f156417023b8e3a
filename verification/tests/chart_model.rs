use pnk2json::chart_grid::GridValue;
use pnk2json::chart_model::convert_chart;
use pnk2json::loader::{load, ArchiveInfo, MessageInfo};
use pnk2json::model::{ChartDataStatus, ChartType};
use pnk2json::pb::Msg;

fn varint(mut v: u64) -> Vec<u8> {
    let mut out = Vec::new();
    while v >= 128 {
        out.push((v as u8 & 0x7f) | 0x80);
        v >>= 7;
    }
    out.push(v as u8);
    out
}

fn len_field(number: u64, body: &[u8]) -> Vec<u8> {
    let mut out = varint((number << 3) | 2);
    out.extend(varint(body.len() as u64));
    out.extend_from_slice(body);
    out
}

fn varint_field(number: u64, v: u64) -> Vec<u8> {
    let mut out = varint(number << 3);
    out.extend(varint(v));
    out
}

fn double_field(number: u64, v: f64) -> Vec<u8> {
    let mut out = varint((number << 3) | 1);
    out.extend_from_slice(&v.to_le_bytes());
    out
}

fn object(identifier: u64, type_id: u32, payload: Vec<u8>) -> ArchiveInfo {
    ArchiveInfo {
        identifier,
        should_merge: false,
        messages: vec![MessageInfo { type_id, length: payload.len() as u32, payload, patch: vec![] }],
    }
}

/// A grid of two rows ("a", "b") and columns ("x", "y"); row b lacks its
/// second value.
fn grid() -> Vec<u8> {
    let mut g = len_field(1, b"a");
    g.extend(len_field(1, b"b"));
    g.extend(len_field(2, b"x"));
    g.extend(len_field(2, b"y"));
    let row_a = [len_field(1, &double_field(1, 1.0)), len_field(1, &double_field(1, 2.0))].concat();
    let row_b = len_field(1, &double_field(2, 3.0));
    g.extend(len_field(3, &row_a));
    g.extend(len_field(3, &row_b));
    g
}

#[test]
fn columns_become_series_by_default() {
    let mut ca = varint_field(1, 2);
    ca.extend(len_field(7, &grid()));
    let loaded = load(&[], &vec![]);
    let c = convert_chart(&loaded, &Msg::parse(&ca).unwrap());
    assert_eq!((c.chart_type, c.three_d), (ChartType::Bar, false));
    assert_eq!(c.categories, vec!["a", "b"]);
    assert_eq!(c.series.len(), 2);
    assert_eq!(c.series[0].name.as_deref(), Some("x"));
    assert_eq!(c.series[0].values, vec![GridValue::Number(1.0f64.to_le_bytes()), GridValue::Date(3.0f64.to_le_bytes())]);
    assert_eq!(c.series[1].values, vec![GridValue::Number(2.0f64.to_le_bytes()), GridValue::Hole]);
    assert_eq!(c.data_status, ChartDataStatus::Inline);
    assert!(c.data_binding.is_none());
}

#[test]
fn rows_become_series_by_row_and_mediators_bind_tables() {
    let mut ca = varint_field(5, 1);
    ca.extend(len_field(7, &grid()));
    let loaded = load(&[], &vec![]);
    let c = convert_chart(&loaded, &Msg::parse(&ca).unwrap());
    assert_eq!(c.chart_type, ChartType::Other);
    assert_eq!(c.categories, vec!["x", "y"]);
    assert_eq!(c.series[1].name.as_deref(), Some("b"));
    assert_eq!(c.series[1].values.len(), 1);
    // no grid but a mediator: table-bound; the legend comes from the
    // non-style's extension
    let mut ca = len_field(8, &varint_field(1, 5));
    ca.extend(len_field(10, &varint_field(1, 6)));
    let ns = len_field(10000, &varint_field(20, 0));
    let loaded = load(&[object(6, 5020, ns)], &vec![]);
    let c = convert_chart(&loaded, &Msg::parse(&ca).unwrap());
    assert_eq!(c.data_status, ChartDataStatus::TableBound);
    assert_eq!(c.data_binding.unwrap().id, "mediator:5");
    assert_eq!(c.legend_visible, Some(false));
}
