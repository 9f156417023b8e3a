use pnk2json::loader::{load, ArchiveInfo, MessageInfo};
use pnk2json::model::WarningCode;
use pnk2json::numbers::{root_entries, sheet_style_fills, sheet_style_props, unmodeled_sheet_warning, RootEntry};
use pnk2json::pb::Msg;

fn varint(mut v: u64) -> Vec<u8> {
    let mut out = Vec::new();
    while v >= 128 {
        out.push((v as u8 & 0x7f) | 0x80);
        v >>= 7;
    }
    out.push(v as u8);
    out
}

fn len_field(number: u64, body: &[u8]) -> Vec<u8> {
    let mut out = varint((number << 3) | 2);
    out.extend(varint(body.len() as u64));
    out.extend_from_slice(body);
    out
}

fn varint_field(number: u64, v: u64) -> Vec<u8> {
    let mut out = varint(number << 3);
    out.extend(varint(v));
    out
}

fn object(identifier: u64, type_id: u32, payload: Vec<u8>) -> ArchiveInfo {
    ArchiveInfo {
        identifier,
        should_merge: false,
        messages: vec![MessageInfo { type_id, length: payload.len() as u32, payload, patch: vec![] }],
    }
}

#[test]
fn root_objects_are_sheets_forms_or_unmodeled() {
    // form 11: inline sheet named "Form sheet", bound table words 1..4
    let mut cfuuid = varint_field(2, 1);
    cfuuid.extend(varint_field(3, 2));
    cfuuid.extend(varint_field(4, 3));
    cfuuid.extend(varint_field(5, 4));
    let mut form = len_field(1, &len_field(1, b"Form sheet"));
    form.extend(len_field(2, &cfuuid));
    // form 12: its sheet by reference to 10
    let form2 = len_field(1, &varint_field(1, 10));
    let loaded = load(
        &[
            object(10, 2, len_field(1, b"Sheet 1")),
            object(11, 3, form),
            object(12, 3, form2),
            object(13, 7, vec![]),
        ],
        &vec![],
    );
    let mut root = Vec::new();
    for id in [10u64, 11, 12, 13, 99] {
        root.extend(len_field(1, &varint_field(1, id)));
    }
    let entries = root_entries(&loaded, &Msg::parse(&root).unwrap());
    assert_eq!(entries.len(), 5);
    assert!(matches!(entries[0], RootEntry::Sheet(10)));
    match &entries[1] {
        RootEntry::Form(f) => {
            assert_eq!(f.sheet_name.as_deref(), Some("Form sheet"));
            assert_eq!(f.bound_table_name.as_deref(), Some("00000001-0000-0002-0000-000300000004"));
        }
        _ => panic!("expected a form"),
    }
    match &entries[2] {
        RootEntry::Form(f) => {
            assert_eq!(f.sheet_name.as_deref(), Some("Sheet 1"));
            assert_eq!(f.bound_table_name, None);
        }
        _ => panic!("expected a form"),
    }
    assert!(matches!(entries[3], RootEntry::Unmodeled(7)));
    assert!(matches!(entries[4], RootEntry::Unmodeled(0)));
}

#[test]
fn unmodeled_objects_are_warned_of_in_decimal_and_hex() {
    let w = unmodeled_sheet_warning(7001);
    assert_eq!(w.code, WarningCode::UnsupportedFeature);
    assert_eq!(w.message, "unmodeled sheet-like object (type id 7001) on document root");
    assert_eq!(w.detail.as_deref(), Some("0x1b59"));
    assert_eq!(w.path, None);
}

/// A sheet style { 1: super { 3: parent }, 3: properties }.
fn sheet_style(parent: Option<u64>, props: Option<Vec<u8>>) -> Vec<u8> {
    let mut b = Vec::new();
    if let Some(p) = parent {
        b.extend(len_field(1, &len_field(3, &varint_field(1, p))));
    }
    if let Some(p) = props {
        b.extend(len_field(3, &p));
    }
    b
}

#[test]
fn sheet_styles_inherit_fills_along_the_parent_chain() {
    let tab = len_field(2, &varint_field(9, 1)); // tab color only
    let fill = len_field(1, &varint_field(9, 2)); // canvas fill only
    let loaded = load(
        &[
            object(20, 4000, sheet_style(Some(21), Some(tab))),
            object(21, 4000, sheet_style(Some(22), None)),
            object(22, 4000, sheet_style(Some(20), Some(fill))), // loops back to 20
        ],
        &vec![],
    );
    assert_eq!(sheet_style_props(&loaded, 20).len(), 2);
    let (f, t) = sheet_style_fills(&loaded, 20);
    assert_eq!(f.unwrap().varint(9), Some(2));
    assert_eq!(t.unwrap().varint(9), Some(1));
    let (f, t) = sheet_style_fills(&loaded, 22);
    assert_eq!(f.unwrap().varint(9), Some(2));
    assert_eq!(t.unwrap().varint(9), Some(1));
    assert!(sheet_style_props(&loaded, 99).is_empty());
}
