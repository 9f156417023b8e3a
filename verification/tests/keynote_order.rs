use std::collections::HashMap;

use pnk2json::keynote::{
    collect_node_flags, master_order, placeholder_role, resolve_template_id, slide_order,
    walk_slide_nodes,
};
use pnk2json::loader::{load, ArchiveInfo, MessageInfo};
use pnk2json::pb::Msg;

fn varint(mut v: u64) -> Vec<u8> {
    let mut out = Vec::new();
    while v >= 128 {
        out.push((v as u8 & 0x7f) | 0x80);
        v >>= 7;
    }
    out.push(v as u8);
    out
}

fn len_field(number: u64, body: &[u8]) -> Vec<u8> {
    let mut out = varint((number << 3) | 2);
    out.extend(varint(body.len() as u64));
    out.extend_from_slice(body);
    out
}

fn varint_field(number: u64, v: u64) -> Vec<u8> {
    let mut out = varint(number << 3);
    out.extend(varint(v));
    out
}

fn reference(number: u64, id: u64) -> Vec<u8> {
    len_field(number, &varint_field(1, id))
}

fn object(identifier: u64, type_id: u32, payload: Vec<u8>) -> ArchiveInfo {
    ArchiveInfo {
        identifier,
        should_merge: false,
        messages: vec![MessageInfo { type_id, length: payload.len() as u32, payload, patch: vec![] }],
    }
}

/// A navigator node { 1: children, 2: slide, 4: skipped, 18: number visible }.
fn node(slide: Option<u64>, children: &[u64], skipped: Option<u64>) -> Vec<u8> {
    let mut b = Vec::new();
    for c in children {
        b.extend(reference(1, *c));
    }
    if let Some(s) = slide {
        b.extend(reference(2, s));
    }
    if let Some(k) = skipped {
        b.extend(varint_field(4, k));
        b.extend(varint_field(18, 1));
    }
    b
}

fn navigator() -> Vec<ArchiveInfo> {
    // root 100 → children 101, 102; 101 → child 103
    vec![
        object(100, 4, node(None, &[101, 102], None)),
        object(101, 4, node(Some(201), &[103], Some(0))),
        object(102, 4, node(Some(202), &[], Some(1))),
        object(103, 4, node(Some(203), &[], None)),
    ]
}

#[test]
fn navigator_tree_is_walked_in_pre_order() {
    let loaded = load(&navigator(), &vec![]);
    assert_eq!(walk_slide_nodes(&loaded, Some(100)), vec![201, 203, 202]);
    assert!(walk_slide_nodes(&loaded, None).is_empty());
    assert!(walk_slide_nodes(&loaded, Some(999)).is_empty());
}

#[test]
fn navigator_flags_are_collected_by_slide() {
    let loaded = load(&navigator(), &vec![]);
    let mut flags = HashMap::new();
    collect_node_flags(&loaded, Some(100), &mut flags);
    assert_eq!(flags.len(), 3);
    assert_eq!(flags[&201], (Some(false), Some(true)));
    assert_eq!(flags[&202], (Some(true), Some(true)));
    assert_eq!(flags[&203], (None, None));
}

#[test]
fn slide_order_prefers_the_slide_tree_then_the_list_then_the_navigator() {
    let loaded = load(&navigator(), &vec![]);
    // show 1: the slide tree lists node 102 (→ 202) and slide 205
    let mut tree = reference(2, 102);
    tree.extend(reference(2, 205));
    tree.extend(reference(1, 100));
    let show1 = Msg::parse(&len_field(3, &tree)).unwrap();
    // show 2: an empty slide tree, then the slide list 206, 207
    let mut bytes2 = len_field(3, &reference(1, 100));
    bytes2.extend(reference(19, 206));
    bytes2.extend(reference(19, 207));
    let show2 = Msg::parse(&bytes2).unwrap();
    // show 3: only the navigator tree
    let show3 = Msg::parse(&len_field(3, &reference(1, 100))).unwrap();
    assert_eq!(slide_order(&loaded, &show1), vec![202, 205]);
    assert_eq!(slide_order(&loaded, &show2), vec![206, 207]);
    assert_eq!(slide_order(&loaded, &show3), vec![201, 203, 202]);
}

#[test]
fn masters_and_templates_resolve_through_navigator_nodes() {
    let objects = vec![
        // theme 10 lists node 11 (→ master 21) and master 22 directly
        object(10, 3, {
            let mut t = reference(2, 11);
            t.extend(reference(2, 22));
            t
        }),
        object(11, 4, node(Some(21), &[], None)),
        object(21, 5, vec![]),
        object(22, 5, vec![]),
        // slide 30 names node 11 as its template; slide 31 names master 22
        object(30, 5, reference(17, 11)),
        object(31, 5, reference(17, 22)),
        object(32, 5, vec![]),
    ];
    let loaded = load(&objects, &vec![]);
    let show = Msg::parse(&reference(2, 10)).unwrap();
    assert_eq!(master_order(&loaded, &show), vec![21, 22]);
    assert_eq!(resolve_template_id(&loaded, 30), Some(21));
    assert_eq!(resolve_template_id(&loaded, 31), Some(22));
    assert_eq!(resolve_template_id(&loaded, 32), None);
    assert_eq!(resolve_template_id(&loaded, 99), None);
}

#[test]
fn placeholder_roles_follow_the_kind() {
    let table = vec![
        (7u32, "KN.PlaceholderArchive".to_string()),
        (12u32, "TSWP.ShapeInfoArchive".to_string()),
    ];
    let objects = vec![
        object(1, 7, varint_field(2, 2)),
        object(2, 7, varint_field(2, 1)),
        object(3, 7, varint_field(2, 9)),
        object(4, 12, varint_field(2, 2)),
        object(5, 8, varint_field(2, 2)),
    ];
    let loaded = load(&objects, &table);
    assert_eq!(placeholder_role(&loaded, 1).as_deref(), Some("title"));
    assert_eq!(placeholder_role(&loaded, 2).as_deref(), Some("slide-number"));
    assert_eq!(placeholder_role(&loaded, 3).as_deref(), Some("placeholder"));
    assert_eq!(placeholder_role(&loaded, 4).as_deref(), Some("placeholder"));
    assert_eq!(placeholder_role(&loaded, 5), None);
}
