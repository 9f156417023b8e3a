use pnk2json::loader::{load, ArchiveInfo, MessageInfo};
use pnk2json::pb::Msg;
use pnk2json::text::{change_ranges, entries_of, language_entries_of, para_table, Entry};

fn varint(mut v: u64) -> Vec<u8> {
    let mut out = Vec::new();
    while v >= 128 {
        out.push((v as u8 & 0x7f) | 0x80);
        v >>= 7;
    }
    out.push(v as u8);
    out
}

fn len_field(number: u64, body: &[u8]) -> Vec<u8> {
    let mut out = varint((number << 3) | 2);
    out.extend(varint(body.len() as u64));
    out.extend_from_slice(body);
    out
}

fn varint_field(number: u64, v: u64) -> Vec<u8> {
    let mut out = varint(number << 3);
    out.extend(varint(v));
    out
}

/// A table message { 1: entry, ... } from entry bodies.
fn table(entries: &[Vec<u8>]) -> Msg {
    let mut b = Vec::new();
    for e in entries {
        b.extend(len_field(1, e));
    }
    Msg::parse(&b).unwrap()
}

fn obj_entry(off: u64, object: Option<u64>) -> Vec<u8> {
    let mut e = varint_field(1, off);
    if let Some(id) = object {
        e.extend(len_field(2, &varint_field(1, id)));
    }
    e
}

#[test]
fn object_entries_sort_stably_by_offset() {
    let t = table(&[obj_entry(10, Some(3)), obj_entry(0, None), obj_entry(10, Some(1)), obj_entry(4, Some(7))]);
    let es = entries_of(Some(t));
    let got: Vec<(usize, Option<u64>)> = es.iter().map(|e| (e.utf16_off, e.object_id)).collect();
    assert_eq!(got, vec![(0, None), (4, Some(7)), (10, Some(3)), (10, Some(1))]);
    assert!(entries_of(None).is_empty());
}

#[test]
fn paragraph_data_keeps_table_order() {
    let mut a = varint_field(1, 5);
    a.extend(varint_field(2, 2));
    let mut b = varint_field(1, 0);
    b.extend(varint_field(3, 9));
    let rows = para_table(Some(table(&[a, b])));
    assert_eq!(rows, vec![(5, 2, 0), (0, 0, 9)]);
    assert!(para_table(None).is_empty());
}

#[test]
fn language_entries_drop_non_tags() {
    let mut a = varint_field(1, 20);
    a.extend(len_field(2, b"fr"));
    let mut b = varint_field(1, 0);
    b.extend(len_field(2, b"en_US"));
    let mut c = varint_field(1, 30);
    c.extend(len_field(2, b"__multilingual"));
    let d = varint_field(1, 20);
    let got = language_entries_of(Some(table(&[a, b, c, d])));
    assert_eq!(
        got,
        vec![(0, Some("en_US".to_string())), (20, Some("fr".to_string())), (20, None), (30, None)]
    );
}

fn change_object(identifier: u64, kind: u64) -> ArchiveInfo {
    let payload = varint_field(1, kind);
    ArchiveInfo {
        identifier,
        should_merge: false,
        messages: vec![MessageInfo { type_id: 2060, length: payload.len() as u32, payload, patch: vec![] }],
    }
}

#[test]
fn deletions_open_ranges_the_next_entry_closes() {
    let loaded = load(&[change_object(50, 2), change_object(51, 1)], &vec![]);
    let entries = vec![
        Entry { utf16_off: 3, object_id: Some(50) },
        Entry { utf16_off: 8, object_id: None },
        Entry { utf16_off: 12, object_id: Some(51) },
        Entry { utf16_off: 15, object_id: Some(50) },
    ];
    assert_eq!(change_ranges(&loaded, &entries, 2), vec![(3, 8), (15, usize::MAX)]);
    assert_eq!(change_ranges(&loaded, &entries, 1), vec![(12, 15)]);
    let same = vec![Entry { utf16_off: 4, object_id: Some(50) }, Entry { utf16_off: 4, object_id: None }];
    assert!(change_ranges(&loaded, &same, 2).is_empty());
}
