use pnk2json::loader::{apply_patches, field_paths, ArchiveInfo, MessageInfo};
use pnk2json::patch::{filter_numbered, set_fields};
use pnk2json::pb::{Field, WireValue};

fn field(number: u32, value: WireValue) -> Field {
    Field { number, value }
}

fn numbers(fs: &[Field]) -> Vec<u32> {
    fs.iter().map(|f| f.number).collect()
}

fn varint(v: &WireValue) -> Option<u64> {
    match v {
        WireValue::Varint(x) => Some(*x),
        _ => None,
    }
}

fn message(type_id: u32, payload: Vec<u8>, patch: Vec<Field>) -> MessageInfo {
    MessageInfo { type_id, length: payload.len() as u32, payload, patch }
}

/// A `TSP.FieldPath` message: packed field 1.
fn path(segments: &[u8]) -> WireValue {
    let mut b = vec![0x0a, segments.len() as u8];
    b.extend_from_slice(segments);
    WireValue::Bytes(b)
}

#[test]
fn set_fields_replaces_in_place() {
    let base = vec![
        field(1, WireValue::Varint(10)),
        field(2, WireValue::Varint(20)),
        field(1, WireValue::Varint(11)),
        field(3, WireValue::Varint(30)),
    ];
    let repl = vec![
        field(1, WireValue::Varint(100)),
        field(4, WireValue::Varint(400)),
        field(1, WireValue::Varint(101)),
    ];
    let out = set_fields(&base, &repl);
    assert_eq!(numbers(&out), vec![1, 1, 2, 3, 4]);
    let vals: Vec<Option<u64>> = out.iter().map(|f| varint(&f.value)).collect();
    assert_eq!(vals, vec![Some(100), Some(101), Some(20), Some(30), Some(400)]);
    let kept = filter_numbered(&base, 1, true);
    assert_eq!(numbers(&kept), vec![1, 1]);
    let dropped = filter_numbered(&base, 1, false);
    assert_eq!(numbers(&dropped), vec![2, 3]);
}

#[test]
fn field_paths_read_packed_segments() {
    let patch = vec![
        field(9, path(&[2, 3])),
        field(10, path(&[4])),
        field(9, WireValue::Varint(1)),
        field(9, WireValue::Bytes(vec![0x08])),
    ];
    let paths = field_paths(&patch, 9);
    assert_eq!(paths, vec![vec![2, 3]]);
    assert_eq!(field_paths(&patch, 10), vec![vec![4]]);
    assert!(field_paths(&patch, 11).is_empty());
}

#[test]
fn one_field_patch_replaces_that_field() {
    // base: { 1: 5, 2: "x", 3: 7 }
    let base = vec![0x08, 0x05, 0x12, 0x01, b'x', 0x18, 0x07];
    let patch = message(0, b"yz".to_vec(), vec![field(7, WireValue::Varint(0)), field(9, path(&[2]))]);
    let archive = ArchiveInfo { identifier: 9, should_merge: true, messages: vec![message(100, base, vec![]), patch] };
    let (mut applied, mut dropped) = (0u64, 0u64);
    let merged = apply_patches(&archive, &mut applied, &mut dropped);
    assert_eq!((applied, dropped), (1, 0));
    let m = merged.get(&0).unwrap();
    assert_eq!(numbers(&m.fields), vec![1, 2, 3]);
    assert_eq!(m.bytes(2), Some(&b"yz"[..]));
    assert_eq!(m.varint(3), Some(7));
}

#[test]
fn partial_patch_merges_after_clearing() {
    // base: { 1: 5, 2: "x", 3: 7 }; patch clears 2 and sets 1 = 9, 4 = 1.
    let base = vec![0x08, 0x05, 0x12, 0x01, b'x', 0x18, 0x07];
    let patch = message(0, vec![0x08, 0x09, 0x20, 0x01], vec![field(10, path(&[2]))]);
    let archive = ArchiveInfo { identifier: 1, should_merge: true, messages: vec![message(100, base, vec![]), patch] };
    let (mut applied, mut dropped) = (3u64, 4u64);
    let merged = apply_patches(&archive, &mut applied, &mut dropped);
    assert_eq!((applied, dropped), (4, 4));
    let m = merged.get(&0).unwrap();
    assert_eq!(numbers(&m.fields), vec![1, 3, 4]);
    assert_eq!(m.varint(1), Some(9));
    assert_eq!(m.varint(4), Some(1));
    assert!(!m.has(2));
}

#[test]
fn later_patches_build_on_earlier_ones() {
    let base = vec![0x08, 0x05];
    let first = message(0, vec![0x08, 0x06], vec![]);
    let second = message(0, vec![0x10, 0x01], vec![]);
    let archive = ArchiveInfo {
        identifier: 1,
        should_merge: true,
        messages: vec![message(100, base, vec![]), first, second],
    };
    let (mut applied, mut dropped) = (0u64, 0u64);
    let merged = apply_patches(&archive, &mut applied, &mut dropped);
    assert_eq!((applied, dropped), (2, 0));
    let m = merged.get(&0).unwrap();
    assert_eq!(m.varint(1), Some(6));
    assert_eq!(m.varint(2), Some(1));
}

#[test]
fn unusable_patches_are_dropped() {
    let base = vec![0x08, 0x05];
    let messages = vec![
        message(100, base, vec![]),
        // base index pointing at a patch
        message(0, vec![], vec![field(7, WireValue::Varint(1))]),
        // base index out of range
        message(0, vec![], vec![field(7, WireValue::Varint(9))]),
        // a two-segment path
        message(0, vec![0x01], vec![field(9, path(&[2, 1]))]),
        // two paths
        message(0, vec![0x01], vec![field(9, path(&[2])), field(9, path(&[3]))]),
        // a partial payload that does not parse
        message(0, vec![0x08], vec![]),
        // a removal path of two segments
        message(0, vec![], vec![field(10, path(&[1, 2]))]),
    ];
    let archive = ArchiveInfo { identifier: 1, should_merge: true, messages };
    let (mut applied, mut dropped) = (0u64, 0u64);
    let merged = apply_patches(&archive, &mut applied, &mut dropped);
    assert_eq!((applied, dropped), (0, 6));
    assert!(merged.is_empty());
}

#[test]
fn an_unparsable_base_drops_the_patch() {
    let archive = ArchiveInfo {
        identifier: 1,
        should_merge: true,
        messages: vec![message(100, vec![0x08], vec![]), message(0, vec![], vec![])],
    };
    let (mut applied, mut dropped) = (0u64, 0u64);
    let merged = apply_patches(&archive, &mut applied, &mut dropped);
    assert_eq!((applied, dropped), (0, 1));
    assert!(merged.is_empty());
}

#[test]
fn an_empty_pathless_patch_only_clears() {
    let base = vec![0x08, 0x05, 0x10, 0x02];
    let archive = ArchiveInfo {
        identifier: 1,
        should_merge: true,
        messages: vec![message(100, base, vec![]), message(0, vec![], vec![field(10, path(&[1]))])],
    };
    let (mut applied, mut dropped) = (0u64, 0u64);
    let merged = apply_patches(&archive, &mut applied, &mut dropped);
    assert_eq!((applied, dropped), (1, 0));
    assert_eq!(numbers(&merged.get(&0).unwrap().fields), vec![2]);
}
