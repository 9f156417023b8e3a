use pnk2json::charts::{number_format, series_style_first, strings};
use pnk2json::loader::{load, ArchiveInfo, MessageInfo};
use pnk2json::model::ChartNumberKind;
use pnk2json::pb::Msg;

fn varint(mut v: u64) -> Vec<u8> {
    let mut out = Vec::new();
    while v >= 128 {
        out.push((v as u8 & 0x7f) | 0x80);
        v >>= 7;
    }
    out.push(v as u8);
    out
}

fn len_field(number: u64, body: &[u8]) -> Vec<u8> {
    let mut out = varint((number << 3) | 2);
    out.extend(varint(body.len() as u64));
    out.extend_from_slice(body);
    out
}

fn varint_field(number: u64, v: u64) -> Vec<u8> {
    let mut out = varint(number << 3);
    out.extend(varint(v));
    out
}

fn object(identifier: u64, type_id: u32, payload: Vec<u8>) -> ArchiveInfo {
    ArchiveInfo {
        identifier,
        should_merge: false,
        messages: vec![MessageInfo { type_id, length: payload.len() as u32, payload, patch: vec![] }],
    }
}

#[test]
fn number_formats_read_kind_places_and_currency() {
    let mut f = varint_field(1, 257);
    f.extend(varint_field(2, 2));
    f.extend(len_field(3, b"EUR"));
    f.extend(varint_field(5, 1));
    let nf = number_format(&Msg::parse(&f).unwrap());
    assert_eq!(nf.kind, ChartNumberKind::Currency);
    assert_eq!(nf.decimals, Some(2));
    assert!(nf.thousands_separator);
    assert_eq!(nf.currency_code.as_deref(), Some("EUR"));

    let mut g = varint_field(1, 258);
    g.extend(varint_field(2, 253));
    g.extend(len_field(3, b""));
    let pf = number_format(&Msg::parse(&g).unwrap());
    assert_eq!(pf.kind, ChartNumberKind::Percent);
    assert_eq!(pf.decimals, None);
    assert!(!pf.thousands_separator);
    assert_eq!(pf.currency_code, None);

    assert_eq!(number_format(&Msg::parse(&varint_field(1, 256)).unwrap()).kind, ChartNumberKind::Number);
}

#[test]
fn string_fields_are_read_in_order() {
    let mut m = len_field(4, b"North");
    m.extend(varint_field(4, 3));
    m.extend(len_field(4, &[0x53, 0xff]));
    assert_eq!(strings(&Msg::parse(&m).unwrap(), 4), vec!["North".to_string(), "S\u{FFFD}".to_string()]);
}

/// A series style { 1: super { 3: parent }, 10000: properties }.
fn style(parent: Option<u64>, slot: Option<(u64, u64)>) -> Vec<u8> {
    let mut b = Vec::new();
    if let Some(p) = parent {
        b.extend(len_field(1, &len_field(3, &varint_field(1, p))));
    }
    if let Some((f, v)) = slot {
        b.extend(len_field(10000, &varint_field(f, v)));
    }
    b
}

#[test]
fn series_style_slots_are_inherited_along_the_parent_chain() {
    let loaded = load(
        &[
            object(1, 5000, style(Some(2), None)),
            object(2, 5000, style(Some(3), None)),
            object(3, 5000, style(None, Some((29, 4)))),
            // a loop: 4 → 5 → 4, no slot anywhere
            object(4, 5000, style(Some(5), None)),
            object(5, 5000, style(Some(4), None)),
            object(6, 5000, style(None, Some((23, 9)))),
        ],
        &vec![],
    );
    // private styles (18 → entries 2 → style ref 2) before theme styles (17)
    let mut ca = len_field(18, &len_field(2, &len_field(2, &varint_field(1, 4))));
    ca.extend(len_field(17, &varint_field(1, 1)));
    let chart = Msg::parse(&ca).unwrap();
    assert_eq!(series_style_first(&loaded, &chart, &[23, 29]), Some(4));
    let only_loop = Msg::parse(&len_field(17, &varint_field(1, 4))).unwrap();
    assert_eq!(series_style_first(&loaded, &only_loop, &[29]), None);
    let direct = Msg::parse(&len_field(17, &varint_field(1, 6))).unwrap();
    assert_eq!(series_style_first(&loaded, &direct, &[29, 23]), Some(9));
}
