use std::collections::HashMap;

use pnk2json::categories::{
    coord_key, enabled_group_by, grouping_aggregates, grouping_columns, lookup_uids, uid_index_map,
    varints, Walk,
};
use pnk2json::loader::{load, ArchiveInfo, MessageInfo};
use pnk2json::model::GroupAggregate;
use pnk2json::pb::Msg;

fn varint(mut v: u64) -> Vec<u8> {
    let mut out = Vec::new();
    while v >= 128 {
        out.push((v as u8 & 0x7f) | 0x80);
        v >>= 7;
    }
    out.push(v as u8);
    out
}

fn len_field(number: u64, body: &[u8]) -> Vec<u8> {
    let mut out = varint((number << 3) | 2);
    out.extend(varint(body.len() as u64));
    out.extend_from_slice(body);
    out
}

fn varint_field(number: u64, v: u64) -> Vec<u8> {
    let mut out = varint(number << 3);
    out.extend(varint(v));
    out
}

/// A `TSP.UUID` { lower = 1, upper = 2 }.
fn uuid_msg(lower: u64, upper: u64) -> Vec<u8> {
    let mut b = varint_field(1, lower);
    b.extend(varint_field(2, upper));
    b
}

fn object(identifier: u64, type_id: u32, payload: Vec<u8>) -> ArchiveInfo {
    ArchiveInfo {
        identifier,
        should_merge: false,
        messages: vec![MessageInfo { type_id, length: payload.len() as u32, payload, patch: vec![] }],
    }
}

#[test]
fn varints_read_single_or_packed() {
    let mut single = varint_field(2, 7);
    single.extend(varint_field(2, 9));
    assert_eq!(varints(&Msg::parse(&single).unwrap(), 2), vec![7, 9]);
    let packed = len_field(2, &[3, 4, 5]);
    assert_eq!(varints(&Msg::parse(&packed).unwrap(), 2), vec![3, 4, 5]);
    assert!(varints(&Msg::parse(&[]).unwrap(), 2).is_empty());
}

#[test]
fn uid_maps_pair_uuids_with_indices() {
    // uuids (1,0), (2,0), (1,0) against indices 5, 6 (packed): zip stops at 2
    let mut m = len_field(1, &uuid_msg(1, 0));
    m.extend(len_field(1, &uuid_msg(2, 0)));
    m.extend(len_field(1, &uuid_msg(1, 0)));
    m.extend(len_field(2, &[5, 6]));
    let map = uid_index_map(&Msg::parse(&m).unwrap(), 1, 2);
    assert_eq!(map.len(), 2);
    assert_eq!(map[&1u128], 5);
    assert_eq!(map[&2u128], 6);
}

#[test]
fn coordinates_default_to_zero() {
    let mut c = varint_field(2, 4);
    c.extend(varint_field(3, 9));
    assert_eq!(coord_key(&Msg::parse(&c).unwrap()), (0, 4, 9));
}

#[test]
fn group_rows_come_from_inclusive_index_ranges_in_ascending_order() {
    let loaded = load(&[], &vec![]);
    let lookup: Vec<u128> = vec![10, 11, 12, 13];
    let mut row_index: HashMap<u128, u32> = HashMap::new();
    row_index.insert(10, 7);
    row_index.insert(11, 2);
    row_index.insert(13, 0);
    let walk = Walk { loaded: &loaded, lookup: &lookup, row_index: &row_index };
    // index set { 1: [ {1: 2, 2: 9}, {1: 0} ] }: positions 2..=9 then 0
    let mut set = len_field(1, &{
        let mut e = varint_field(1, 2);
        e.extend(varint_field(2, 9));
        e
    });
    set.extend(len_field(1, &varint_field(1, 0)));
    let node = Msg::parse(&len_field(9, &set)).unwrap();
    assert_eq!(walk.rows(&node), vec![0, 7]);
    // without an index set: row uids in field 4
    let mut uids = len_field(4, &uuid_msg(11, 0));
    uids.extend(len_field(4, &uuid_msg(10, 0)));
    uids.extend(len_field(4, &uuid_msg(99, 0)));
    assert_eq!(walk.rows(&Msg::parse(&uids).unwrap()), vec![2, 7]);
}

#[test]
fn group_children_are_inline_then_referenced() {
    let loaded = load(&[object(40, 6100, varint_field(1, 40))], &vec![]);
    let lookup: Vec<u128> = vec![];
    let row_index: HashMap<u128, u32> = HashMap::new();
    let walk = Walk { loaded: &loaded, lookup: &lookup, row_index: &row_index };
    let mut node = len_field(3, &varint_field(1, 30));
    node.extend(len_field(10, &varint_field(1, 40)));
    node.extend(len_field(10, &varint_field(1, 41)));
    let kids = walk.children(&Msg::parse(&node).unwrap());
    assert_eq!(kids.len(), 2);
    assert_eq!(kids[0].varint(1), Some(30));
    assert_eq!(kids[1].varint(1), Some(40));
}

#[test]
fn the_enabled_grouping_and_its_columns_and_rules() {
    // owner 50 lists groupings 51 (disabled) and 52 (enabled)
    let mut owner = len_field(1, &varint_field(1, 51));
    owner.extend(len_field(1, &varint_field(1, 52)));
    let disabled = varint_field(6, 0);
    let mut enabled = varint_field(6, 1);
    // group column uid (5, 0); a second, unknown column
    enabled.extend(len_field(2, &len_field(1, &uuid_msg(5, 0))));
    enabled.extend(len_field(2, &len_field(1, &uuid_msg(8, 0))));
    // summary rules: column (5,0) rule 2 level 1; column (5,0) rule 3 level 2
    enabled.extend(len_field(5, &{
        let mut a = len_field(1, &uuid_msg(5, 0));
        a.extend(varint_field(2, 1));
        a.extend(varint_field(3, 2));
        a
    }));
    enabled.extend(len_field(5, &{
        let mut a = len_field(1, &uuid_msg(5, 0));
        a.extend(varint_field(2, 2));
        a.extend(varint_field(3, 3));
        a
    }));
    // row lookup uids
    enabled.extend(len_field(15, &{
        let mut l = len_field(1, &uuid_msg(20, 0));
        l.extend(len_field(1, &uuid_msg(21, 0)));
        l
    }));
    let loaded = load(
        &[object(50, 6200, owner), object(51, 6201, disabled), object(52, 6201, enabled)],
        &vec![],
    );
    let model = Msg::parse(&len_field(86, &varint_field(1, 50))).unwrap();
    let g = enabled_group_by(&loaded, &model).unwrap();
    assert_eq!(g.boolean(6), Some(true));
    let mut col_index: HashMap<u128, u32> = HashMap::new();
    col_index.insert(5, 3);
    assert_eq!(grouping_columns(&g, &col_index), vec![3]);
    assert_eq!(
        grouping_aggregates(&g, &col_index),
        vec![
            GroupAggregate { column: 3, rule: 2, level: None },
            GroupAggregate { column: 3, rule: 3, level: Some(2) },
        ]
    );
    assert_eq!(lookup_uids(&g), vec![20u128, 21]);
    let plain = Msg::parse(&[]).unwrap();
    assert!(enabled_group_by(&loaded, &plain).is_none());
}
