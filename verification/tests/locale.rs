use pnk2json::ctx::resolve_locale;
use pnk2json::loader::{load, ArchiveInfo, MessageInfo};
use pnk2json::pb::Msg;

fn len_field(number: u8, body: &[u8]) -> Vec<u8> {
    let mut out = vec![(number << 3) | 2, body.len() as u8];
    out.extend_from_slice(body);
    out
}

fn archive(identifier: u64, payload: Vec<u8>) -> ArchiveInfo {
    ArchiveInfo {
        identifier,
        should_merge: false,
        messages: vec![MessageInfo { type_id: 5, length: payload.len() as u32, payload, patch: vec![] }],
    }
}

#[test]
fn locale_from_inline_document_archive() {
    // root { 8: { 1: { 4: "en_US" } } }
    let tsk = len_field(4, b"en_US");
    let tsa = len_field(1, &tsk);
    let root = Msg::parse(&len_field(8, &tsa)).unwrap();
    let loaded = load(&[], &vec![]);
    assert_eq!(resolve_locale(&loaded, &root), Some("en_US".to_string()));
}

#[test]
fn pages_root_is_tried_first() {
    let a = len_field(1, &len_field(4, b"nl"));
    let b = len_field(1, &len_field(4, b"fr"));
    let mut bytes = len_field(8, &b);
    bytes.extend(len_field(15, &a));
    let root = Msg::parse(&bytes).unwrap();
    let loaded = load(&[], &vec![]);
    assert_eq!(resolve_locale(&loaded, &root), Some("nl".to_string()));
}

#[test]
fn locale_through_references() {
    // object 40 = TSK { 4: "de_DE" }; object 30 = TSA { 1: id 40 };
    // root { 8: id 30 }
    let tsk = len_field(4, b"de_DE");
    let tsa = vec![0x08, 40];
    let loaded = load(&[archive(30, tsa), archive(40, tsk)], &vec![]);
    let root = Msg::parse(&[0x40, 30]).unwrap();
    assert_eq!(resolve_locale(&loaded, &root), Some("de_DE".to_string()));
    // A missing object reads as nothing.
    let dangling = Msg::parse(&[0x40, 31]).unwrap();
    assert_eq!(resolve_locale(&loaded, &dangling), None);
}

#[test]
fn document_language_is_the_fallback() {
    // root { 3: { 3: "sv" } }: no inner archive, a language token.
    let root = Msg::parse(&len_field(3, &len_field(3, b"sv"))).unwrap();
    let loaded = load(&[], &vec![]);
    assert_eq!(resolve_locale(&loaded, &root), Some("sv".to_string()));
    // Not a locale token: spaces, or too long.
    let spaced = Msg::parse(&len_field(3, &len_field(3, b"en US"))).unwrap();
    assert_eq!(resolve_locale(&loaded, &spaced), None);
    let long = Msg::parse(&len_field(3, &len_field(3, b"abcdefghi"))).unwrap();
    assert_eq!(resolve_locale(&loaded, &long), None);
    let empty = Msg::parse(&[]).unwrap();
    assert_eq!(resolve_locale(&loaded, &empty), None);
}
