use std::collections::HashMap;

use pnk2json::cell_formats::{custom_pattern, pick_format, v3_format, v4_format, v4_format_key};
use pnk2json::loader::{load, ArchiveInfo, MessageInfo};
use pnk2json::model::CellFormatKind;
use pnk2json::pb::Msg;
use pnk2json::tables::{DataList, ListEntry};

fn varint(mut v: u64) -> Vec<u8> {
    let mut out = Vec::new();
    while v >= 128 {
        out.push((v as u8 & 0x7f) | 0x80);
        v >>= 7;
    }
    out.push(v as u8);
    out
}

fn len_field(number: u64, body: &[u8]) -> Vec<u8> {
    let mut out = varint((number << 3) | 2);
    out.extend(varint(body.len() as u64));
    out.extend_from_slice(body);
    out
}

fn varint_field(number: u64, v: u64) -> Vec<u8> {
    let mut out = varint(number << 3);
    out.extend(varint(v));
    out
}

fn object(identifier: u64, type_id: u32, payload: Vec<u8>) -> ArchiveInfo {
    ArchiveInfo {
        identifier,
        should_merge: false,
        messages: vec![MessageInfo { type_id, length: payload.len() as u32, payload, patch: vec![] }],
    }
}

fn format_entry(bytes: &[u8]) -> ListEntry {
    ListEntry { string: None, reference: None, format: Some(Msg::parse(bytes).unwrap()), custom_format: None }
}

fn table(entries: Vec<(i32, ListEntry)>) -> DataList {
    let mut m = HashMap::new();
    for (k, e) in entries {
        m.insert(k, e);
    }
    DataList { entries: m }
}

#[test]
fn the_first_slot_with_a_format_wins_and_the_format_type_decides_the_kind() {
    let loaded = load(&[], &vec![]);
    // id 5: a currency format (257) with 2 decimals, EUR, grouping
    let mut cur = varint_field(1, 257);
    cur.extend(varint_field(2, 2));
    cur.extend(len_field(3, b"EUR"));
    cur.extend(varint_field(5, 1));
    // id 6: a duration (268) with style 1, units 2..16
    let mut dur = varint_field(1, 268);
    dur.extend(varint_field(7, 1));
    dur.extend(varint_field(15, 2));
    let formats = table(vec![(5, format_entry(&cur)), (6, format_entry(&dur))]);
    let none = table(vec![]);
    let (f, flag) = pick_format(&loaded, Some(99), Some(5), Some(6), None, None, &formats, &none);
    assert!(!flag);
    let f = f.unwrap();
    assert_eq!(f.kind, CellFormatKind::Currency);
    assert_eq!(f.decimals, Some(2));
    assert_eq!(f.currency_code.as_deref(), Some("EUR"));
    assert_eq!(f.grouping, Some(true));
    assert_eq!(f.format_string, None);
    let (d, _) = pick_format(&loaded, None, None, None, Some(6), None, &formats, &none);
    let d = d.unwrap();
    assert_eq!(d.kind, CellFormatKind::Duration);
    assert_eq!(d.format_string.as_deref(), Some("duration-1-2-16-0"));
    assert_eq!(pick_format(&loaded, None, None, None, None, None, &formats, &none).0, None);
}

#[test]
fn format_markers_for_bases_fractions_and_scientific() {
    let loaded = load(&[], &vec![]);
    let mut base = varint_field(1, 269);
    base.extend(varint_field(8, 16));
    let mut frac = varint_field(1, 262);
    frac.extend(varint_field(11, 8));
    let frac_auto = [varint_field(1, 262), varint_field(11, 0xFFFF_FFFD)].concat();
    let sci = varint_field(1, 259);
    let mut date = varint_field(1, 261);
    date.extend(len_field(14, b"d. MMMM yyyy"));
    let formats = table(vec![
        (1, format_entry(&base)),
        (2, format_entry(&frac)),
        (3, format_entry(&frac_auto)),
        (4, format_entry(&sci)),
        (5, format_entry(&date)),
    ]);
    let none = table(vec![]);
    let fs = |id: i32| {
        pick_format(&loaded, Some(id), None, None, None, None, &formats, &none).0.unwrap()
    };
    assert_eq!(fs(1).format_string.as_deref(), Some("base-16"));
    assert_eq!(fs(1).kind, CellFormatKind::Number);
    assert_eq!(fs(2).format_string.as_deref(), Some("fraction-8"));
    assert_eq!(fs(3).format_string.as_deref(), Some("fraction"));
    assert_eq!(fs(4).format_string.as_deref(), Some("scientific"));
    assert_eq!(fs(5).format_string.as_deref(), Some("d. MMMM yyyy"));
    assert_eq!(fs(5).kind, CellFormatKind::Date);
}

/// A custom format archive { 3: default format { 18: pattern } }.
fn custom_archive(pattern: &[u8]) -> Vec<u8> {
    len_field(3, &len_field(18, pattern))
}

#[test]
fn custom_patterns_come_inline_or_from_the_custom_format_list() {
    // list (type 222): uuids (1,2) and (3,4) with formats "yyyy" and "d"
    let mut list = len_field(1, &[varint_field(1, 1), varint_field(2, 2)].concat());
    list.extend(len_field(1, &[varint_field(1, 3), varint_field(2, 4)].concat()));
    list.extend(len_field(2, &custom_archive(b"yyyy")));
    list.extend(len_field(2, &custom_archive(b"d")));
    let loaded = load(&[object(70, 222, list)], &vec![]);
    let inline = [varint_field(1, 270), len_field(42, &custom_archive(b"hh:mm"))].concat();
    assert_eq!(custom_pattern(&loaded, &Msg::parse(&inline).unwrap()).as_deref(), Some("hh:mm"));
    let by_uid = [varint_field(1, 271), len_field(41, &[varint_field(1, 3), varint_field(2, 4)].concat())].concat();
    assert_eq!(custom_pattern(&loaded, &Msg::parse(&by_uid).unwrap()).as_deref(), Some("d"));
    let unknown = [varint_field(1, 271), len_field(41, &[varint_field(1, 9), varint_field(2, 9)].concat())].concat();
    assert_eq!(custom_pattern(&loaded, &Msg::parse(&unknown).unwrap()), None);
    // through pick_format: kind custom, the list's pattern
    let formats = table(vec![(8, format_entry(&by_uid))]);
    let none = table(vec![]);
    let f = pick_format(&loaded, None, None, Some(8), None, None, &formats, &none).0.unwrap();
    assert_eq!(f.kind, CellFormatKind::Custom);
    assert_eq!(f.format_string.as_deref(), Some("d"));
}

#[test]
fn cells_without_a_slot_format_fall_back_to_the_custom_list() {
    let loaded = load(&[], &vec![]);
    let custom = table(vec![(
        3,
        ListEntry {
            string: None,
            reference: None,
            format: None,
            custom_format: Some(Msg::parse(&custom_archive(b"#,##0")).unwrap()),
        },
    )]);
    let f = pick_format(&loaded, None, None, None, None, None, &table(vec![]), &custom).0.unwrap();
    assert_eq!(f.kind, CellFormatKind::Custom);
    assert_eq!(f.format_string.as_deref(), Some("#,##0"));
    assert_eq!(f.decimals, None);
}

#[test]
fn older_storage_formats_and_keys() {
    let mut pct = varint_field(1, 258);
    pct.extend(varint_field(2, 253));
    let mut dur = varint_field(1, 268);
    dur.extend(varint_field(40, 1));
    let formats = table(vec![(4, format_entry(&pct)), (9, format_entry(&dur))]);
    let p = v3_format(&formats, Some(4)).unwrap();
    assert_eq!(p.kind, CellFormatKind::Percent);
    assert_eq!(p.decimals, None);
    assert!(v3_format(&formats, Some(5)).is_none());
    assert_eq!(v3_format(&formats, Some(9)).unwrap().format_string, None);
    assert_eq!(v4_format(&formats, Some(9)).unwrap().format_string.as_deref(), Some("duration-0-4-16-1"));
    // key choice: a listed lead wins; else the first listed trailing key;
    // else the lead; else the first trailing key
    assert_eq!(v4_format_key(Some(4), &vec![9], &formats), Some(4));
    assert_eq!(v4_format_key(Some(7), &vec![8, 9], &formats), Some(9));
    assert_eq!(v4_format_key(Some(7), &vec![8], &formats), Some(7));
    assert_eq!(v4_format_key(None, &vec![8, 6], &formats), Some(8));
    assert_eq!(v4_format_key(None, &vec![], &formats), None);
}
