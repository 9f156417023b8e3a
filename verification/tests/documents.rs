use pnk2json::convert::{convert_loaded, ConvertError};
use pnk2json::documents::{convert_document, Document};
use pnk2json::dumptext::{to_markdown, to_text};
use pnk2json::loader::{load, ArchiveInfo, MessageInfo};
use pnk2json::model::{AppKind, BuildAcceleration, BuildDelivery, PagesFlavor, WarningCode};
use pnk2json::pb::Msg;

fn varint(mut v: u64) -> Vec<u8> {
    let mut out = Vec::new();
    while v >= 128 {
        out.push((v as u8 & 0x7f) | 0x80);
        v >>= 7;
    }
    out.push(v as u8);
    out
}

fn len_field(number: u64, body: &[u8]) -> Vec<u8> {
    let mut out = varint((number << 3) | 2);
    out.extend(varint(body.len() as u64));
    out.extend_from_slice(body);
    out
}

fn varint_field(number: u64, v: u64) -> Vec<u8> {
    let mut out = varint(number << 3);
    out.extend(varint(v));
    out
}

fn reference(number: u64, id: u64) -> Vec<u8> {
    len_field(number, &varint_field(1, id))
}

fn object(identifier: u64, type_id: u32, payload: Vec<u8>) -> ArchiveInfo {
    ArchiveInfo {
        identifier,
        should_merge: false,
        messages: vec![MessageInfo { type_id, length: payload.len() as u32, payload, patch: vec![] }],
    }
}

#[test]
fn numbers_sheets_hold_their_tables() {
    // root → sheet 2 (type 2) → drawables 3 (a table info naming model 4) and 5 (a shape)
    let mut sheet = len_field(1, b"Sheet 1");
    sheet.extend(reference(2, 3));
    sheet.extend(reference(2, 5));
    let model = [varint_field(6, 2), varint_field(7, 2)].concat();
    let loaded = load(
        &[object(2, 2, sheet), object(3, 6000, reference(2, 4)), object(4, 6001, model), object(5, 3004, vec![])],
        &vec![],
    );
    let root = Msg::parse(&reference(1, 2)).unwrap();
    let mut w = Vec::new();
    match convert_document(&loaded, AppKind::Numbers, &root, &mut w) {
        Document::Numbers(d) => {
            assert_eq!(d.sheets.len(), 1);
            let s = &d.sheets[0];
            assert_eq!(s.name, "Sheet 1");
            assert_eq!(s.drawable_ids, vec![3, 5]);
            assert_eq!(s.tables.len(), 1);
            assert_eq!(s.tables[0].drawable_id, 3);
            let t = s.tables[0].table.as_ref().unwrap();
            assert_eq!((t.row_count, t.column_count, t.grid.len()), (2, 2, 4));
        }
        _ => panic!("expected a Numbers document"),
    }
}

#[test]
fn keynote_without_a_show_is_empty_with_a_warning() {
    let loaded = load(&[], &vec![]);
    let root = Msg::parse(&reference(2, 9)).unwrap();
    let mut w = Vec::new();
    match convert_document(&loaded, AppKind::Keynote, &root, &mut w) {
        Document::Keynote(d) => {
            assert!(d.slides.is_empty() && d.masters.is_empty());
            assert_eq!(w[0].code, WarningCode::UnresolvedReference);
            assert_eq!(w[0].message, "KN.ShowArchive not resolvable from the document root; emitting an empty show");
        }
        _ => panic!("expected a Keynote document"),
    }
}

#[test]
fn keynote_slides_follow_the_slide_tree() {
    // show 2: slide tree (field 3) listing slides 10 and 11
    let tree = [reference(2, 10), reference(2, 11)].concat();
    let show = len_field(3, &tree);
    let loaded = load(&[object(2, 2, show), object(10, 5, vec![]), object(11, 5, vec![])], &vec![]);
    let root = Msg::parse(&reference(2, 2)).unwrap();
    let mut w = Vec::new();
    match convert_document(&loaded, AppKind::Keynote, &root, &mut w) {
        Document::Keynote(d) => {
            let ids: Vec<u64> = d.slides.iter().map(|s| s.id).collect();
            assert_eq!(ids, vec![10, 11]);
            assert!(w.is_empty());
        }
        _ => panic!("expected a Keynote document"),
    }
}

#[test]
fn pages_reads_its_body_text() {
    let body = len_field(3, b"One\nTwo");
    let loaded = load(&[object(7, 2001, body)], &vec![]);
    let root = Msg::parse(&[reference(4, 7), varint_field(42, 1)].concat()).unwrap();
    let mut w = Vec::new();
    match convert_document(&loaded, AppKind::Pages, &root, &mut w) {
        Document::Pages(d) => {
            assert_eq!(d.flavor, PagesFlavor::WordProcessing);
            let body = d.body.unwrap();
            assert_eq!(body.paragraphs.len(), 2);
            assert_eq!(body.paragraphs[1].runs[0].text, "Two");
        }
        _ => panic!("expected a Pages document"),
    }
}

#[test]
fn numbers_root_entries_that_are_not_sheets_are_warned_of() {
    // root → sheet 2 and object 8 of a type that is neither sheet nor form
    let loaded = load(&[object(2, 2, len_field(1, b"S")), object(8, 4000, vec![])], &vec![]);
    let root = Msg::parse(&[reference(1, 2), reference(1, 8)].concat()).unwrap();
    let mut w = Vec::new();
    match convert_document(&loaded, AppKind::Numbers, &root, &mut w) {
        Document::Numbers(d) => {
            assert_eq!(d.sheets.len(), 1);
            assert_eq!(w.len(), 1);
            assert_eq!(w[0].code, WarningCode::UnsupportedFeature);
            assert_eq!(w[0].message, "unmodeled sheet-like object (type id 4000) on document root");
        }
        _ => panic!("expected a Numbers document"),
    }
}

fn names(types: &[u32]) -> Vec<(u32, String)> {
    types.iter().map(|t| (*t, format!("T{t}"))).collect()
}

fn keynote_show_with_notes() -> pnk2json::loader::Loaded {
    // root 1 → show 2; the show's slide tree (field 3) lists slide 10;
    // slide 10 is named, paints 20 and 21, has placeholders 20 and 30, and
    // notes 40 whose storage 41 says "Say hi".
    let show = len_field(3, &reference(2, 10));
    let mut slide = len_field(10, b"Intro");
    slide.extend(reference(7, 20));
    slide.extend(reference(7, 21));
    slide.extend(reference(5, 20));
    slide.extend(reference(6, 30));
    slide.extend(reference(27, 40));
    load(
        &[
            object(1, 1, reference(2, 2)),
            object(2, 2, show),
            object(10, 5, slide),
            object(40, 7, reference(1, 41)),
            object(41, 2001, len_field(3, b"Say hi")),
        ],
        &names(&[1, 2, 5, 7, 2001]),
    )
}

#[test]
fn keynote_slides_keep_name_drawables_and_notes() {
    let loaded = keynote_show_with_notes();
    let e = convert_loaded(&loaded, AppKind::Keynote, &names(&[1, 2, 5, 7, 2001])).ok().unwrap();
    match &e.document {
        Document::Keynote(d) => {
            let s = &d.slides[0];
            assert_eq!(s.id, 10);
            assert_eq!(s.name.as_deref(), Some("Intro"));
            assert_eq!(s.drawable_ids, vec![20, 21, 30]);
            let notes = s.notes.as_ref().unwrap();
            assert_eq!(notes.paragraphs[0].runs[0].text, "Say hi");
        }
        _ => panic!("expected a Keynote document"),
    }
    assert!(e.warnings.is_empty());
    assert_eq!(to_text(&e), "Keynote show — 1 slides\n\n--- Slide 1 ---\nNotes: Say hi\n");
    assert_eq!(to_markdown(&e), "# Keynote Show\n\n## Slide 1\n\n> Notes: Say hi\n\n");
}

#[test]
fn an_archive_without_a_root_is_no_document() {
    let loaded = load(&[object(2, 2, vec![])], &vec![]);
    match convert_loaded(&loaded, AppKind::Pages, &vec![]) {
        Err(e) => {
            assert_eq!(e, ConvertError::NoDocumentRoot);
            assert_eq!(e.message(), "no decodable document root (object 1) — not a usable iWork document");
        }
        Ok(_) => panic!("expected no document"),
    }
}

#[test]
fn pages_sections_and_dumps() {
    // root 1: body storage 7, section 50 (named "Main", odd pages on template 60)
    let body = len_field(3, b"One\nTwo");
    let mut section = len_field(26, b"Main");
    section.extend(reference(25, 60));
    section.extend(varint_field(18, 0));
    section.extend(reference(23, 61));
    let root = [reference(4, 7), reference(5, 50)].concat();
    let table = names(&[1, 2001, 3001]);
    let loaded = load(&[object(1, 1, root), object(7, 2001, body), object(50, 3001, section)], &table);
    let e = convert_loaded(&loaded, AppKind::Pages, &table).ok().unwrap();
    match &e.document {
        Document::Pages(d) => {
            assert_eq!(d.sections.len(), 1);
            let s = &d.sections[0];
            assert_eq!((s.id, s.start_offset), (50, 0));
            assert_eq!(s.name.as_deref(), Some("Main"));
            assert_eq!(s.odd_page_template, Some(60));
            // the first page is not set apart, so its template is dropped
            assert_eq!(s.first_page_template, None);
            assert_eq!(s.even_page_template, None);
            assert_eq!(s.body_paragraph_start, None);
        }
        _ => panic!("expected a Pages document"),
    }
    assert_eq!(to_text(&e), "Pages document (WordProcessing)\nOne\nTwo\n");
    assert_eq!(to_markdown(&e), "# Pages Document (word-processing)\n\nOne\n\nTwo\n\n");
}

#[test]
fn a_missing_section_is_warned_of() {
    let root = reference(5, 50);
    let table = names(&[1]);
    let loaded = load(&[object(1, 1, root)], &table);
    let e = convert_loaded(&loaded, AppKind::Pages, &table).ok().unwrap();
    assert_eq!(e.warnings.len(), 1);
    assert_eq!(e.warnings[0].message, "section reference 50 points nowhere");
    assert_eq!(to_text(&e), "Pages document (WordProcessing)\n\nWarnings: 1 recorded.\n");
}

#[test]
fn a_looping_navigator_tree_is_cut_with_a_warning() {
    // show 2's slide tree (field 3) has no slide list; its navigator root
    // (field 1) is node 100, which stands for slide 200 and lists itself
    let show = len_field(3, &reference(1, 100));
    let node = [reference(2, 200), reference(1, 100)].concat();
    let table = names(&[1, 2, 4]);
    let loaded = load(&[object(1, 1, reference(2, 2)), object(2, 2, show), object(100, 4, node)], &table);
    let e = convert_loaded(&loaded, AppKind::Keynote, &table).ok().unwrap();
    assert!(e
        .warnings
        .iter()
        .any(|w| w.message == "slide navigator tree loops back on itself; read one level per object"));
    match &e.document {
        // three objects: the tree is read three levels deep
        Document::Keynote(d) => assert_eq!(d.slides.len(), 3),
        _ => panic!("expected a Keynote document"),
    }
}

#[test]
fn numbers_dump_names_sheets_and_tables() {
    let mut sheet = len_field(1, b"Sheet 1");
    sheet.extend(reference(2, 3));
    let model = [varint_field(6, 2), varint_field(7, 3), len_field(8, b"T")].concat();
    let root = reference(1, 2);
    let table = names(&[1, 2, 6000, 6001]);
    let loaded = load(&[object(1, 1, root), object(2, 2, sheet), object(3, 6000, reference(2, 4)), object(4, 6001, model)], &table);
    let e = convert_loaded(&loaded, AppKind::Numbers, &table).ok().unwrap();
    assert_eq!(
        to_text(&e),
        "Numbers document — 1 sheet(s)\n\n=== Sheet: Sheet 1 ===\n\nTable (2 rows × 3 cols)\nTable (2 rows × 3 columns)\n\n\n"
    );
    assert_eq!(to_markdown(&e), "# Numbers Document\n\n## Sheet 1\n\n**Table** (2 rows × 3 columns)\n\n\n");
}

#[test]
fn slide_builds_attach_to_painted_drawables_and_the_last_wins() {
    // slide 10 paints 20 and 21; builds 50 (20, in), 51 (99, not painted),
    // 52 (21, out) and 53 (20, action, replacing 50)
    let show = len_field(3, &reference(2, 10));
    let mut slide = Vec::new();
    slide.extend(reference(7, 20));
    slide.extend(reference(7, 21));
    for b in [50u64, 51, 52, 53] {
        slide.extend(reference(2, b));
    }
    let build = |d: u64, how: &[u8]| [reference(1, d), len_field(2, how)].concat();
    let anim = len_field(4, &[varint_field(13, 2), len_field(18, &len_field(2, b"dissolve"))].concat());
    let mut b53 = build(20, b"action");
    b53.extend(anim);
    let table = names(&[1, 2, 5, 9]);
    let loaded = load(
        &[
            object(1, 1, reference(2, 2)),
            object(2, 2, show),
            object(10, 5, slide),
            object(50, 9, build(20, b"build-in")),
            object(51, 9, build(99, b"in")),
            object(52, 9, build(21, b"out")),
            object(53, 9, b53),
        ],
        &table,
    );
    let e = convert_loaded(&loaded, AppKind::Keynote, &table).ok().unwrap();
    match &e.document {
        Document::Keynote(d) => {
            let bs = &d.slides[0].builds;
            assert_eq!(bs.len(), 2);
            assert_eq!((bs[0].drawable_id, bs[0].order, bs[0].delivery), (21, 2, BuildDelivery::Out));
            assert_eq!((bs[1].drawable_id, bs[1].order, bs[1].delivery), (20, 3, BuildDelivery::Action));
            assert_eq!(bs[1].effect.as_deref(), Some("dissolve"));
            assert_eq!(bs[1].acceleration, Some(BuildAcceleration::EaseOut));
        }
        _ => panic!("expected a Keynote document"),
    }
}

#[test]
fn pages_footnotes_follow_their_marks() {
    // body "One\u{e}\nTwo": a footnote mark at offset 3 names footnote 80,
    // whose storage 81 reads "Note text"
    let mut body = len_field(3, "One\u{e}\nTwo".as_bytes());
    let entry = [varint_field(1, 3), reference(2, 80)].concat();
    body.extend(len_field(16, &len_field(1, &entry)));
    let table = names(&[1, 2001, 2008]);
    let loaded = load(
        &[
            object(1, 1, reference(4, 7)),
            object(7, 2001, body),
            object(80, 2008, reference(2, 81)),
            object(81, 2001, len_field(3, b"Note text")),
        ],
        &table,
    );
    let e = convert_loaded(&loaded, AppKind::Pages, &table).ok().unwrap();
    match &e.document {
        Document::Pages(d) => {
            assert_eq!(d.footnotes.len(), 1);
            assert_eq!(d.footnotes[0].anchor_paragraph_index, 0);
            assert_eq!(d.footnotes[0].text.paragraphs[0].runs[0].text, "Note text");
        }
        _ => panic!("expected a Pages document"),
    }
    assert!(to_markdown(&e).ends_with("---\n\n^1: Note text\n\n"));
}

#[test]
fn navigator_flags_mark_skipped_slides() {
    // the slide tree lists slide 10 and its navigator node 100 marks it skipped
    let show = len_field(3, &[reference(2, 10), reference(1, 100)].concat());
    let node = [reference(2, 10), varint_field(4, 1)].concat();
    let table = names(&[1, 2, 4, 5]);
    let loaded = load(
        &[object(1, 1, reference(2, 2)), object(2, 2, show), object(10, 5, vec![]), object(100, 4, node)],
        &table,
    );
    let e = convert_loaded(&loaded, AppKind::Keynote, &table).ok().unwrap();
    match &e.document {
        Document::Keynote(d) => {
            assert_eq!(d.slides[0].skipped, Some(true));
            assert_eq!(d.slides[0].slide_number_visible, None);
        }
        _ => panic!("expected a Keynote document"),
    }
    assert_eq!(to_text(&e), "Keynote show — 1 slides\n\n--- Slide 1 ---\n[skipped]\n");
}
