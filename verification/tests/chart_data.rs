use pnk2json::charts::{chart_data_binding, chart_data_status};
use pnk2json::loader::{load, ArchiveInfo, MessageInfo};
use pnk2json::model::{ChartDataStatus, WarningCode};
use pnk2json::pb::Msg;

fn varint(mut v: u64) -> Vec<u8> {
    let mut out = Vec::new();
    while v >= 128 {
        out.push((v as u8 & 0x7f) | 0x80);
        v >>= 7;
    }
    out.push(v as u8);
    out
}

fn len_field(number: u64, body: &[u8]) -> Vec<u8> {
    let mut out = varint((number << 3) | 2);
    out.extend(varint(body.len() as u64));
    out.extend_from_slice(body);
    out
}

fn varint_field(number: u64, v: u64) -> Vec<u8> {
    let mut out = varint(number << 3);
    out.extend(varint(v));
    out
}

fn object(identifier: u64, type_id: u32, payload: Vec<u8>) -> ArchiveInfo {
    ArchiveInfo {
        identifier,
        should_merge: false,
        messages: vec![MessageInfo { type_id, length: payload.len() as u32, payload, patch: vec![] }],
    }
}

#[test]
fn data_status_prefers_grid_series_then_the_mediator() {
    let grid = len_field(7, &varint_field(1, 0));
    let mediator = len_field(8, &varint_field(1, 5));
    let both = Msg::parse(&[grid.clone(), mediator.clone()].concat()).unwrap();
    assert_eq!(chart_data_status(&both, false), ChartDataStatus::Inline);
    assert_eq!(chart_data_status(&both, true), ChartDataStatus::TableBound);
    let only_grid = Msg::parse(&grid).unwrap();
    assert_eq!(chart_data_status(&only_grid, true), ChartDataStatus::Inline);
    let none = Msg::parse(&varint_field(1, 3)).unwrap();
    assert_eq!(chart_data_status(&none, true), ChartDataStatus::Unavailable);
}

#[test]
fn data_binding_ids_name_the_formula_or_the_mediator() {
    // mediator 5 holds formula id 42; mediator 6 holds none
    let mediator = len_field(3, &len_field(1, &varint_field(1, 42)));
    let loaded = load(&[object(5, 5021, mediator), object(6, 5021, varint_field(1, 1))], &vec![]);
    let ca = Msg::parse(&len_field(8, &varint_field(1, 5))).unwrap();
    let b = chart_data_binding(&loaded, &ca);
    assert_eq!(b.id, "formula:42");
    assert_eq!(b.status, "unparsed");
    assert_eq!(b.warning.unwrap().code, WarningCode::FormulaUnparsed);
    let ca = Msg::parse(&len_field(8, &varint_field(1, 6))).unwrap();
    assert_eq!(chart_data_binding(&loaded, &ca).id, "mediator:6");
    let ca = Msg::parse(&varint_field(1, 3)).unwrap();
    assert_eq!(chart_data_binding(&loaded, &ca).id, "mediator");
}
