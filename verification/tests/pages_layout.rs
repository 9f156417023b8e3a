use pnk2json::loader::{load, ArchiveInfo, MessageInfo};
use pnk2json::model::{FootnotePlacement, PagesFlavor};
use pnk2json::pages::{
    footnote_placement, layout_at, layout_list, page_group_ids, page_template_name, pages_flavor,
    paint_order, section_list, template_order, z_order_list,
};
use pnk2json::pb::Msg;

fn varint(mut v: u64) -> Vec<u8> {
    let mut out = Vec::new();
    while v >= 128 {
        out.push((v as u8 & 0x7f) | 0x80);
        v >>= 7;
    }
    out.push(v as u8);
    out
}

fn len_field(number: u64, body: &[u8]) -> Vec<u8> {
    let mut out = varint((number << 3) | 2);
    out.extend(varint(body.len() as u64));
    out.extend_from_slice(body);
    out
}

fn varint_field(number: u64, v: u64) -> Vec<u8> {
    let mut out = varint(number << 3);
    out.extend(varint(v));
    out
}

fn reference(number: u64, id: u64) -> Vec<u8> {
    len_field(number, &varint_field(1, id))
}

fn object(identifier: u64, type_id: u32, payload: Vec<u8>) -> ArchiveInfo {
    ArchiveInfo {
        identifier,
        should_merge: false,
        messages: vec![MessageInfo { type_id, length: payload.len() as u32, payload, patch: vec![] }],
    }
}

#[test]
fn settings_decide_flavor_and_footnotes() {
    let loaded = load(
        &[
            object(7, 10001, {
                let mut s = varint_field(1, 0);
                s.extend(varint_field(30, 2));
                s
            }),
            object(8, 10001, varint_field(30, 1)),
        ],
        &vec![],
    );
    let layout = Msg::parse(&reference(7, 7)).unwrap();
    assert_eq!(pages_flavor(&loaded, &layout), PagesFlavor::PageLayout);
    assert_eq!(footnote_placement(&loaded, &layout), Some(FootnotePlacement::SectionEndnotes));
    let words = Msg::parse(&reference(7, 8)).unwrap();
    assert_eq!(pages_flavor(&loaded, &words), PagesFlavor::WordProcessing);
    assert_eq!(footnote_placement(&loaded, &words), Some(FootnotePlacement::DocumentEndnotes));
    let none = Msg::parse(&[]).unwrap();
    assert_eq!(pages_flavor(&loaded, &none), PagesFlavor::WordProcessing);
    assert_eq!(footnote_placement(&loaded, &none), None);
}

#[test]
fn templates_listed_first_then_free_masters_by_id() {
    let loaded = load(
        &[
            object(30, 10143, vec![]),
            object(12, 10143, vec![]),
            object(50, 10143, vec![]),
            object(40, 10011, vec![]),
        ],
        &vec![],
    );
    let mut root = reference(48, 40);
    root.extend(reference(48, 50));
    assert_eq!(template_order(&loaded, &Msg::parse(&root).unwrap()), vec![40, 50, 12, 30]);
}

#[test]
fn page_groups_dedup_and_paint_in_z_order() {
    let mut pg = reference(4, 5);
    pg.extend(reference(4, 6));
    pg.extend(reference(2, 5));
    pg.extend(reference(3, 7));
    pg.extend(reference(3, 8));
    let ids = page_group_ids(&Msg::parse(&pg).unwrap());
    assert_eq!(ids, vec![5, 6, 7, 8]);
    // z-order lists 7, 5, 6 (8 is not ranked)
    let loaded = load(
        &[object(20, 10012, {
            let mut z = reference(1, 7);
            z.extend(reference(1, 5));
            z.extend(reference(1, 6));
            z
        })],
        &vec![],
    );
    let zorder = z_order_list(&loaded, &Msg::parse(&reference(20, 20)).unwrap());
    assert_eq!(zorder, vec![7, 5, 6]);
    let order = paint_order(&zorder, &ids);
    let painted: Vec<u64> = order.iter().map(|&i| ids[i]).collect();
    assert_eq!(painted, vec![7, 5, 6, 8]);
}

/// An attribute-table entry { 1: offset, 2: reference }.
fn entry(off: u64, id: u64) -> Vec<u8> {
    let mut e = varint_field(1, off);
    e.extend(reference(2, id));
    len_field(1, &e)
}

#[test]
fn sections_come_from_the_root_or_the_body_section_table() {
    let mut sections = entry(40, 101);
    sections.extend(entry(0, 100));
    sections.extend(entry(70, 100));
    let mut layouts = entry(30, 201);
    layouts.extend(entry(0, 200));
    let mut body = len_field(17, &sections);
    body.extend(len_field(12, &layouts));
    let loaded = load(&[object(4, 2001, body)], &vec![]);
    let root = Msg::parse(&reference(4, 4)).unwrap();
    assert_eq!(section_list(&loaded, &root), vec![(0, 100), (40, 101)]);
    let lays = layout_list(&loaded, &root);
    assert_eq!(lays, vec![(0, 200), (30, 201)]);
    assert_eq!(layout_at(&lays, 0), Some(200));
    assert_eq!(layout_at(&lays, 40), Some(201));
    assert_eq!(layout_at(&vec![(5, 1)], 4), None);
    let mut named = reference(5, 9);
    named.extend(reference(4, 4));
    assert_eq!(section_list(&loaded, &Msg::parse(&named).unwrap()), vec![(0, 9)]);
}

#[test]
fn pages_pick_first_even_or_odd_templates() {
    let first = Some("First".to_string());
    let even = Some("Even".to_string());
    let odd = Some("Odd".to_string());
    assert_eq!(page_template_name(0, &first, &even, &odd).as_deref(), Some("First"));
    assert_eq!(page_template_name(1, &first, &even, &odd).as_deref(), Some("Even"));
    assert_eq!(page_template_name(2, &first, &even, &odd).as_deref(), Some("Odd"));
    assert_eq!(page_template_name(0, &None, &even, &odd).as_deref(), Some("Odd"));
    assert_eq!(page_template_name(3, &first, &None, &odd).as_deref(), Some("Odd"));
    assert_eq!(page_template_name(2, &first, &even, &None), None);
}
