use pnk2json::attachments::{attachment_plan, AttachmentPlan, SimpleField};
use pnk2json::loader::{load, ArchiveInfo, MessageInfo};
use pnk2json::model::WarningCode;

fn varint(mut v: u64) -> Vec<u8> {
    let mut out = Vec::new();
    while v >= 128 {
        out.push((v as u8 & 0x7f) | 0x80);
        v >>= 7;
    }
    out.push(v as u8);
    out
}

fn len_field(number: u64, body: &[u8]) -> Vec<u8> {
    let mut out = varint((number << 3) | 2);
    out.extend(varint(body.len() as u64));
    out.extend_from_slice(body);
    out
}

fn varint_field(number: u64, v: u64) -> Vec<u8> {
    let mut out = varint(number << 3);
    out.extend(varint(v));
    out
}

fn fixed32_field(number: u64, b: [u8; 4]) -> Vec<u8> {
    let mut out = varint((number << 3) | 5);
    out.extend_from_slice(&b);
    out
}

fn reference(number: u64, id: u64) -> Vec<u8> {
    len_field(number, &varint_field(1, id))
}

fn object(identifier: u64, type_id: u32, payload: Vec<u8>) -> ArchiveInfo {
    ArchiveInfo {
        identifier,
        should_merge: false,
        messages: vec![MessageInfo { type_id, length: payload.len() as u32, payload, patch: vec![] }],
    }
}

#[test]
fn missing_ids_and_records() {
    let loaded = load(&[], &vec![]);
    let mut w = Vec::new();
    assert!(matches!(attachment_plan(&loaded, None, &mut w), AttachmentPlan::Nothing));
    assert!(w.is_empty());
    assert!(matches!(attachment_plan(&loaded, Some(5), &mut w), AttachmentPlan::Nothing));
    assert_eq!(w.len(), 1);
    assert_eq!(w[0].code, WarningCode::UnresolvedReference);
    assert_eq!(w[0].message, "attachment reference 5 points nowhere");
    assert_eq!(w[0].detail.as_deref(), Some("5"));
}

#[test]
fn drawable_attachments_keep_their_offset_bytes() {
    let h = 1.5f32.to_le_bytes();
    let mut att = reference(1, 40);
    att.extend(fixed32_field(3, h));
    let loaded = load(&[object(10, 2003, att), object(11, 2003, varint_field(3, 1))], &vec![]);
    let mut w = Vec::new();
    match attachment_plan(&loaded, Some(10), &mut w) {
        AttachmentPlan::Drawable { drawable_id, h_offset, v_offset } => {
            assert_eq!((drawable_id, h_offset, v_offset), (40, Some(h), None));
        }
        _ => panic!("expected a drawable"),
    }
    // no drawable named: nothing
    assert!(matches!(attachment_plan(&loaded, Some(11), &mut w), AttachmentPlan::Nothing));
    assert!(w.is_empty());
}

#[test]
fn textual_number_and_footnote_attachments() {
    let mut textual = len_field(1, b"7");
    textual.extend(varint_field(2, 1));
    let mut number = len_field(1, &varint_field(2, 2));
    number.extend(len_field(2, b"x"));
    number.extend(len_field(3, b"12"));
    let loaded = load(
        &[object(1, 2004, textual), object(2, 2043, number), object(3, 2008, reference(2, 77)), object(4, 2010, vec![])],
        &vec![],
    );
    let mut w = Vec::new();
    match attachment_plan(&loaded, Some(1), &mut w) {
        AttachmentPlan::Field { value, kind } => assert_eq!((value.as_deref(), kind), (Some("7"), SimpleField::PageCount)),
        _ => panic!("expected a field"),
    }
    match attachment_plan(&loaded, Some(2), &mut w) {
        AttachmentPlan::Field { value, kind } => assert_eq!((value.as_deref(), kind), (Some("12"), SimpleField::FootnoteMark)),
        _ => panic!("expected a field"),
    }
    assert!(matches!(attachment_plan(&loaded, Some(3), &mut w), AttachmentPlan::Footnote { storage_id: Some(77) }));
    match attachment_plan(&loaded, Some(4), &mut w) {
        AttachmentPlan::Field { value, kind } => assert_eq!((value, kind), (None, SimpleField::PageNumber)),
        _ => panic!("expected a field"),
    }
}

#[test]
fn contents_attachments_list_their_entries() {
    let mut sup = reference(1, 90);
    sup.extend(fixed32_field(5, [0, 0, 128, 63]));
    let att = len_field(1, &sup);
    let mut info = reference(3, 91);
    info.extend(reference(3, 92));
    let mut entry = len_field(4, b"Intro");
    entry.extend(varint_field(2, 3));
    entry.extend(varint_field(8, 0));
    entry.extend(varint_field(1, 5));
    let loaded = load(&[object(1, 2241, att), object(90, 2011, info), object(91, 2242, entry)], &vec![]);
    let mut w = Vec::new();
    match attachment_plan(&loaded, Some(1), &mut w) {
        AttachmentPlan::Contents { drawable_id, h_offset, v_offset, entries } => {
            assert_eq!((drawable_id, h_offset, v_offset), (90, None, Some([0, 0, 128, 63])));
            assert_eq!(entries.len(), 1);
            assert_eq!(entries[0].text, "Intro");
            assert_eq!((entries[0].page_number, entries[0].level, entries[0].paragraph_index), (Some(3), Some(0), Some(5)));
        }
        _ => panic!("expected contents"),
    }
}

#[test]
fn other_types_are_unknown_objects() {
    let loaded = load(&[object(1, 2006, vec![])], &vec![]);
    let mut w = Vec::new();
    match attachment_plan(&loaded, Some(1), &mut w) {
        AttachmentPlan::Unknown { type_id, registry_name, reason } => {
            assert_eq!(type_id, "0x7d6");
            assert_eq!(registry_name, None);
            assert_eq!(reason, "attachment of unmodeled type type id 2006; recorded as unknown");
        }
        _ => panic!("expected unknown"),
    }
    let loaded = load(&[object(1, 2006, vec![])], &vec![(2006, "TSWP.UIGraphicalAttachment".to_string())]);
    match attachment_plan(&loaded, Some(1), &mut w) {
        AttachmentPlan::Unknown { registry_name, reason, .. } => {
            assert_eq!(registry_name.as_deref(), Some("TSWP.UIGraphicalAttachment"));
            assert_eq!(reason, "attachment of unmodeled type TSWP.UIGraphicalAttachment; recorded as unknown");
        }
        _ => panic!("expected unknown"),
    }
}
