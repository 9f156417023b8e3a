use pnk2json::loader::load;
use pnk2json::model::WarningCode;
use pnk2json::pb::Msg;
use pnk2json::text_runs::extract_text;

fn varint(mut v: u64) -> Vec<u8> {
    let mut out = Vec::new();
    while v >= 128 {
        out.push((v as u8 & 0x7f) | 0x80);
        v >>= 7;
    }
    out.push(v as u8);
    out
}

fn len_field(number: u64, body: &[u8]) -> Vec<u8> {
    let mut out = varint((number << 3) | 2);
    out.extend(varint(body.len() as u64));
    out.extend_from_slice(body);
    out
}

fn varint_field(number: u64, v: u64) -> Vec<u8> {
    let mut out = varint(number << 3);
    out.extend(varint(v));
    out
}

/// An attribute table of (offset, object) entries.
fn table(number: u64, entries: &[(u64, Option<u64>)]) -> Vec<u8> {
    let mut t = Vec::new();
    for (off, obj) in entries {
        let mut e = varint_field(1, *off);
        if let Some(o) = obj {
            e.extend(len_field(2, &varint_field(1, *o)));
        }
        t.extend(len_field(1, &e));
    }
    len_field(number, &t)
}

#[test]
fn paragraphs_split_into_styled_runs() {
    let mut s = len_field(3, "Hello world\u{5}Next\u{FFFC}".as_bytes());
    // paragraph style 70 from the start; char style 80 from offset 6
    s.extend(table(5, &[(0, Some(70))]));
    s.extend(table(8, &[(0, None), (6, Some(80))]));
    // an attachment anchored at the U+FFFC (offset 16)
    s.extend(table(9, &[(16, Some(90))]));
    // a drop cap on the second paragraph only
    s.extend(table(28, &[(12, Some(60))]));
    let storage = Msg::parse(&s).unwrap();
    let loaded = load(&[], &vec![]);
    let mut w = Vec::new();
    let x = extract_text(&loaded, &storage, 0, &mut w).unwrap();
    assert!(w.is_empty());
    assert_eq!(x.paragraphs.len(), 2);
    let p0 = &x.paragraphs[0];
    assert_eq!(p0.style, Some(70));
    assert!(!p0.page_break_before);
    assert_eq!(p0.drop_cap, None);
    let texts: Vec<&str> = p0.runs.iter().map(|r| r.text.as_str()).collect();
    assert_eq!(texts, vec!["Hello ", "world"]);
    assert_eq!((p0.runs[0].char_style, p0.runs[1].char_style), (None, Some(80)));
    let p1 = &x.paragraphs[1];
    // the style carries forward; a page break comes before it
    assert_eq!(p1.style, Some(70));
    assert!(p1.page_break_before);
    assert_eq!(p1.drop_cap, Some(60));
    let texts: Vec<&str> = p1.runs.iter().map(|r| r.text.as_str()).collect();
    assert_eq!(texts, vec!["Next", "\u{FFFC}"]);
    assert_eq!(p1.runs[1].attachment, Some(Some(90)));
    assert_eq!(p1.runs[0].attachment, None);
}

#[test]
fn storages_nested_too_deep_give_nothing() {
    let storage = Msg::parse(&len_field(3, b"x")).unwrap();
    let loaded = load(&[], &vec![]);
    let mut w = Vec::new();
    assert!(extract_text(&loaded, &storage, 8, &mut w).is_none());
    assert_eq!(w[0].code, WarningCode::UnsupportedFeature);
}
