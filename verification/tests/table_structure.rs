use pnk2json::loader::{load, ArchiveInfo, MessageInfo};
use pnk2json::model::TableMerge;
use pnk2json::pb::Msg;
use pnk2json::tables::{dependency_merges, header_buckets, load_data_list, push_merge, strip_map_with_ctx};

fn varint(mut v: u64) -> Vec<u8> {
    let mut out = Vec::new();
    while v >= 128 {
        out.push((v as u8 & 0x7f) | 0x80);
        v >>= 7;
    }
    out.push(v as u8);
    out
}

fn len_field(number: u64, body: &[u8]) -> Vec<u8> {
    let mut out = varint((number << 3) | 2);
    out.extend(varint(body.len() as u64));
    out.extend_from_slice(body);
    out
}

fn varint_field(number: u64, v: u64) -> Vec<u8> {
    let mut out = varint(number << 3);
    out.extend(varint(v));
    out
}

fn fixed32_field(number: u64, v: u32) -> Vec<u8> {
    let mut out = varint((number << 3) | 5);
    out.extend_from_slice(&v.to_le_bytes());
    out
}

/// A `TSP.UUID` { lower = 1, upper = 2 }.
fn uuid_msg(lower: u64, upper: u64) -> Vec<u8> {
    let mut b = varint_field(1, lower);
    b.extend(varint_field(2, upper));
    b
}

fn object(identifier: u64, type_id: u32, payload: Vec<u8>) -> ArchiveInfo {
    ArchiveInfo {
        identifier,
        should_merge: false,
        messages: vec![MessageInfo { type_id, length: payload.len() as u32, payload, patch: vec![] }],
    }
}

/// A bucket holding headers with the given indices (field 2, each { 1: index }).
fn bucket(indices: &[u64]) -> Vec<u8> {
    let mut b = varint_field(1, 0);
    for i in indices {
        b.extend(len_field(2, &varint_field(1, *i)));
    }
    b
}

#[test]
fn buckets_are_read_inline_or_through_references() {
    // object 50 is a bucket with headers 7 and 8
    let loaded = load(&[object(50, 6006, bucket(&[7, 8]))], &vec![]);
    let mut hs = len_field(2, &varint_field(1, 50)); // reference to 50
    hs.extend(len_field(2, &bucket(&[3]))); // inline bucket
    hs.extend(len_field(2, &varint_field(1, 99))); // reference to nothing
    hs.extend(varint_field(2, 5)); // not bytes
    let m = Msg::parse(&hs).unwrap();
    let buckets = header_buckets(&loaded, &m);
    assert_eq!(buckets.len(), 2);
    assert_eq!(buckets[0].msgs(2).len(), 2);
    assert_eq!(buckets[1].msgs(2)[0].varint(1), Some(3));
}

#[test]
fn strip_map_pairs_indices_with_storage_ordinals() {
    let loaded = load(&[object(60, 6006, bucket(&[4, 2]))], &vec![]);
    // header storage inline under field 1: a referenced bucket, then an
    // older single-header bucket { 1: 9, 2: fixed32 }
    let mut v4 = varint_field(1, 9);
    v4.extend(fixed32_field(2, 17));
    let mut hs = len_field(2, &varint_field(1, 60));
    hs.extend(len_field(2, &v4));
    let storage = Msg::parse(&len_field(1, &hs)).unwrap();
    assert_eq!(strip_map_with_ctx(&loaded, &storage, 1, 2), vec![(4, 0), (2, 1), (9, 2)]);
}

#[test]
fn strip_map_follows_the_reference_field_and_is_empty_without_storage() {
    let mut hs = len_field(2, &bucket(&[1, 0]));
    hs.extend(len_field(2, &bucket(&[5])));
    let loaded = load(&[object(70, 6005, hs)], &vec![]);
    let storage = Msg::parse(&len_field(2, &varint_field(1, 70))).unwrap();
    assert_eq!(strip_map_with_ctx(&loaded, &storage, 1, 2), vec![(1, 0), (0, 1), (5, 2)]);
    let empty = Msg::parse(&[]).unwrap();
    assert!(strip_map_with_ctx(&loaded, &empty, 1, 2).is_empty());
}

/// A back dependency { 4: { 1: owner id, 2: range } }.
fn back_dependency(owner: u64, tlc: u64, tlr: u64, brc: Option<u64>, brr: Option<u64>) -> Vec<u8> {
    let mut range = varint_field(1, tlc);
    range.extend(varint_field(2, tlr));
    if let Some(c) = brc {
        range.extend(varint_field(3, c));
    }
    if let Some(r) = brr {
        range.extend(varint_field(4, r));
    }
    let mut irr = varint_field(1, owner);
    irr.extend(len_field(2, &range));
    len_field(2, &len_field(4, &irr))
}

fn calc_records() -> Vec<ArchiveInfo> {
    // haunted owner (kind 35): haunted (3, 9) → base (4, 11)
    let mut owner = len_field(1, &uuid_msg(3, 9));
    owner.extend(varint_field(3, 35));
    owner.extend(len_field(12, &uuid_msg(4, 11)));
    // calc engine: owner id 7 → base, owner id 8 → another uuid
    let mut map = len_field(1, &{
        let mut e = varint_field(1, 7);
        e.extend(len_field(2, &uuid_msg(4, 11)));
        e
    });
    map.extend(len_field(1, &{
        let mut e = varint_field(1, 8);
        e.extend(len_field(2, &uuid_msg(1, 1)));
        e
    }));
    let engine = len_field(2, &len_field(3, &map));
    // merge owner (kind 5): ranges of owners 7 and 8
    let mut deps = back_dependency(7, 1, 2, Some(2), Some(3)); // rows 2-3, cols 1-2
    deps.extend(back_dependency(8, 0, 0, Some(1), Some(1))); // another table
    deps.extend(back_dependency(7, 0, 0, None, None)); // 1 × 1: no merge
    deps.extend(back_dependency(7, 3, 4, Some(9), Some(9))); // clipped
    let mut merge_owner = varint_field(3, 5);
    merge_owner.extend(len_field(5, &deps));
    vec![object(10, 4008, owner), object(11, 4000, engine), object(12, 4008, merge_owner)]
}

#[test]
fn dependency_merges_keep_the_base_owners_ranges() {
    let loaded = load(&calc_records(), &vec![]);
    let haunted = (9u128 << 64) | 3;
    let merges = dependency_merges(&loaded, haunted, 6, 5);
    assert_eq!(
        merges,
        vec![
            TableMerge { anchor_row: 2, anchor_column: 1, row_span: 2, column_span: 2 },
            TableMerge { anchor_row: 4, anchor_column: 3, row_span: 2, column_span: 2 },
        ]
    );
}

#[test]
fn dependency_merges_need_a_known_haunted_owner() {
    let loaded = load(&calc_records(), &vec![]);
    assert!(dependency_merges(&loaded, 12345, 6, 5).is_empty());
}

#[test]
fn push_merge_drops_single_cells_and_outside_anchors() {
    let mut merges = Vec::new();
    push_merge(&mut merges, 0, 0, 0, 0, 3, 3);
    push_merge(&mut merges, 5, 0, 6, 1, 3, 3);
    push_merge(&mut merges, 1, 1, 7, 1, 3, 3);
    assert_eq!(merges, vec![TableMerge { anchor_row: 1, anchor_column: 1, row_span: 2, column_span: 1 }]);
}

/// A list entry { 1: key, 3: string, 4: reference }.
fn list_entry(key: Option<u64>, s: &[u8], reference: Option<u64>) -> Vec<u8> {
    let mut e = Vec::new();
    if let Some(k) = key {
        e.extend(varint_field(1, k));
    }
    e.extend(len_field(3, s));
    if let Some(r) = reference {
        e.extend(len_field(4, &varint_field(1, r)));
    }
    e
}

#[test]
fn data_lists_key_entries_and_keep_the_first() {
    // list 80: entries 1 "a", 2 "b", 1 "c" (ignored), and segment 81
    let mut list = len_field(3, &list_entry(Some(1), b"a", None));
    list.extend(len_field(3, &list_entry(Some(2), b"b", Some(500))));
    list.extend(len_field(3, &list_entry(Some(1), b"c", None)));
    list.extend(len_field(4, &varint_field(1, 81)));
    // segment 81: key range starts at 10; entries "x", "y"
    let mut seg = len_field(2, &varint_field(1, 10));
    seg.extend(len_field(3, &list_entry(None, b"x", None)));
    seg.extend(len_field(3, &list_entry(None, b"y", None)));
    let loaded = load(&[object(80, 6005, list), object(81, 6011, seg)], &vec![]);
    let d = load_data_list(&loaded, Some(80));
    assert_eq!(d.entries.len(), 4);
    assert_eq!(d.entries[&1].string.as_deref(), Some("a"));
    assert_eq!(d.entries[&2].reference, Some(500));
    assert_eq!(d.entries[&10].string.as_deref(), Some("x"));
    assert_eq!(d.entries[&11].string.as_deref(), Some("y"));
    assert!(load_data_list(&loaded, None).entries.is_empty());
    assert!(load_data_list(&loaded, Some(99)).entries.is_empty());
}
