//! A document's root read into its model, per app: a Numbers document's
//! sheets and their tables, a Keynote show's slides and masters, a Pages
//! document's flavor, page setup, sections and body text.
use vstd::prelude::*;
use crate::model::{AppKind, NumbersForm, PagesFlavor, PageLayoutOrientation, FootnotePlacement, Warning, WarningCode};
use crate::numbers::{root_entries, root_entry_view, root_entries_of, RootEntry, RootEntryView, unmodeled_sheet_warning, unmodeled_warning, opt_text};
use crate::table_grid::{convert_table, table_ok, TableModel};
use crate::table_shape::{model_msg, unresolved_table};
use crate::keynote::{slide_order, master_order, resolve_template_id, template_of, targets, listed_slides, listed_masters,
    walks_navigator, tree_within, walk_depth, ref_of, bool_of, NodeFlags, insert_flags, flag_pairs, visited,
    collect_node_flags};
use crate::pages::{pages_flavor, flavor_of, settings_varint, page_orientation, orientation_spec, note_vertical_layout,
    vertical_layout_warning, footnote_placement, placement_of, section_list, section_entries, template_order, template_ids,
    para_from, para_index_at, body_storage};
use crate::text_runs::{extract_text, extracted_ok, change_note, ExtractedText, Paragraph, TextRun};
use crate::builds::{SlideBuild, slide_builds, builds_ok};
use crate::pb::{Msg, vvarint, vmsg, vall, refs_of, lemma_vall};
use crate::wire::{WireSpec, fields_view};
use crate::loader::{Loaded, loaded_view, RecordView, ids_consistent};
use crate::ctx::{loaded_msg, vstring};
use crate::text_util::{owned, push_str, push_decimal, dec};
use crate::{WarningView, view_warning, view_warnings};

verus! {

/// A table drawable of a sheet: the drawable's id and the table its model
/// reference names (none when it names no model, or the model is not
/// loaded).
pub struct SheetTable {
    pub drawable_id: u64,
    pub table: Option<TableModel>,
}

/// A sheet: its id, name (field 1), hidden flag (25), drawables (2, in
/// paint order) and the tables among them.
pub struct SheetModel {
    pub id: u64,
    pub name: String,
    pub hidden: Option<bool>,
    pub drawable_ids: Vec<u64>,
    pub tables: Vec<SheetTable>,
}

pub struct NumbersDocument {
    pub sheets: Vec<SheetModel>,
    pub forms: Vec<NumbersForm>,
}

/// A slide: its id, the master it is built on, its name, its drawables
/// (by id, in paint order, then its placeholders that are not painted),
/// the builds of its painted drawables, its presenter notes, and the
/// skipped and slide-number flags its navigator node gives it.
pub struct SlideModel {
    pub id: u64,
    pub master: Option<u64>,
    pub name: Option<String>,
    pub drawable_ids: Vec<u64>,
    pub builds: Vec<SlideBuild>,
    pub notes: Option<ExtractedText>,
    pub skipped: Option<bool>,
    pub slide_number_visible: Option<bool>,
}

pub struct KeynoteDocument {
    pub masters: Vec<u64>,
    pub slides: Vec<SlideModel>,
}

/// A section of a Pages document: its name, the page templates its first,
/// even and odd pages use (by id), its header and footer flags, whether it
/// restarts page numbering, and the body paragraph it starts at.
pub struct PagesSection {
    pub id: u64,
    pub start_offset: u64,
    pub name: Option<String>,
    pub first_page_template: Option<u64>,
    pub even_page_template: Option<u64>,
    pub odd_page_template: Option<u64>,
    pub inherit_previous_header_footer: Option<bool>,
    pub first_page_hides_header_footer: Option<bool>,
    pub restart_page_numbering: Option<bool>,
    pub body_paragraph_start: Option<u32>,
}

/// A footnote of a Pages body: the paragraph its mark sits in and its text.
pub struct Footnote {
    pub anchor_paragraph_index: u32,
    pub text: ExtractedText,
}

pub struct PagesDocument {
    pub flavor: PagesFlavor,
    pub orientation: Option<PageLayoutOrientation>,
    pub footnote_placement: Option<FootnotePlacement>,
    pub body: Option<ExtractedText>,
    pub hidden_body: Option<ExtractedText>,
    pub footnotes: Vec<Footnote>,
    pub templates: Vec<u64>,
    pub sections: Vec<PagesSection>,
}

pub enum Document {
    Pages(PagesDocument),
    Numbers(NumbersDocument),
    Keynote(KeynoteDocument),
}

/// Whether a record's type is a table info's (6000, 6007).
pub open spec fn is_table_info(records: Map<u64, RecordView>, id: u64) -> bool {
    records.contains_key(id) && (records[id].type_id == 6000 || records[id].type_id == 6007)
}

/// The table model a table info names (field 2).
pub open spec fn table_model_of(records: Map<u64, RecordView>, id: u64) -> Option<u64> {
    match loaded_msg(records, id) {
        Some(m) => ref_of(m, 2),
        None => None,
    }
}

/// The table drawables among `ids`, in order.
pub open spec fn table_drawables(records: Map<u64, RecordView>, ids: Seq<u64>) -> Seq<u64>
    decreases ids.len(),
{
    if ids.len() == 0 {
        Seq::empty()
    } else if is_table_info(records, ids.last()) {
        table_drawables(records, ids.drop_last()).push(ids.last())
    } else {
        table_drawables(records, ids.drop_last())
    }
}

/// `s` is sheet `id` read: its name, hidden flag and drawables, and one
/// table per table drawable, read as `convert_table` reads it.
pub open spec fn sheet_ok(loaded: Loaded, id: u64, s: SheetModel) -> bool {
    let records = loaded_view(loaded).records;
    &&& s.id == id
    &&& match loaded_msg(records, id) {
        Some(m) => {
            &&& s.name@ == match vstring(m, 1) {
                Some(n) => n,
                None => Seq::empty(),
            }
            &&& s.hidden == bool_of(m, 25)
            &&& s.drawable_ids@ == refs_of(vall(m, 2))
            &&& s.tables@.len() == table_drawables(records, refs_of(vall(m, 2))).len()
            &&& forall|k: int|
                0 <= k < s.tables@.len() ==> {
                    let d = table_drawables(records, refs_of(vall(m, 2)))[k];
                    &&& (#[trigger] s.tables@[k]).drawable_id == d
                    &&& match table_model_of(records, d) {
                        Some(mid) => match model_msg(loaded, mid) {
                            Some(mm) => s.tables@[k].table matches Some(t) && table_ok(loaded, mm, t),
                            None => s.tables@[k].table is None,
                        },
                        None => s.tables@[k].table is None,
                    }
                }
        },
        None => s.name@.len() == 0 && s.hidden is None && s.drawable_ids@.len() == 0 && s.tables@.len() == 0,
    }
}

/// `new` is `old` with warnings added after it: none of `old` is lost.
pub open spec fn appended(old: Seq<WarningView>, new: Seq<WarningView>) -> bool {
    old.len() <= new.len() && new.take(old.len() as int) == old
}

proof fn lemma_appended_trans(a: Seq<WarningView>, b: Seq<WarningView>, c: Seq<WarningView>)
    requires
        appended(a, b),
        appended(b, c),
    ensures
        appended(a, c),
{
    assert(c.take(a.len() as int) =~= b.take(a.len() as int));
}

/// The warning for a sheet reference that names no loaded message.
pub open spec fn missing_sheet_warning(id: u64) -> WarningView {
    WarningView {
        code: WarningCode::UnresolvedReference,
        message: "sheet reference "@ + dec(id as nat) + " points nowhere"@,
        path: None,
        detail: Some(dec(id as nat)),
        count: None,
        paths: None,
    }
}

fn sheet_tables(loaded: &Loaded, ids: &Vec<u64>, warnings: &mut Vec<Warning>) -> (r: Vec<SheetTable>)
    ensures
        appended(view_warnings(old(warnings)@), view_warnings(final(warnings)@)),
        r@.len() == table_drawables(loaded_view(*loaded).records, ids@).len(),
        forall|k: int|
            0 <= k < r@.len() ==> {
                let d = table_drawables(loaded_view(*loaded).records, ids@)[k];
                &&& (#[trigger] r@[k]).drawable_id == d
                &&& match table_model_of(loaded_view(*loaded).records, d) {
                    Some(mid) => match model_msg(*loaded, mid) {
                        Some(mm) => r@[k].table matches Some(t) && table_ok(*loaded, mm, t),
                        None => r@[k].table is None,
                    },
                    None => r@[k].table is None,
                }
            },
{
    let ghost records = loaded_view(*loaded).records;
    let ghost w0 = view_warnings(warnings@);
    let mut out: Vec<SheetTable> = Vec::new();
    let mut i: usize = 0;
    assert(w0.take(w0.len() as int) =~= w0);
    while i < ids.len()
        invariant
            i <= ids@.len(),
            appended(w0, view_warnings(warnings@)),
            records == loaded_view(*loaded).records,
            out@.len() == table_drawables(records, ids@.take(i as int)).len(),
            forall|k: int|
                0 <= k < out@.len() ==> {
                    let d = table_drawables(records, ids@.take(i as int))[k];
                    &&& (#[trigger] out@[k]).drawable_id == d
                    &&& match table_model_of(records, d) {
                        Some(mid) => match model_msg(*loaded, mid) {
                            Some(mm) => out@[k].table matches Some(t) && table_ok(*loaded, mm, t),
                            None => out@[k].table is None,
                        },
                        None => out@[k].table is None,
                    }
                },
        decreases ids@.len() - i,
    {
        let ghost prev = table_drawables(records, ids@.take(i as int));
        assert(ids@.take(i + 1).drop_last() =~= ids@.take(i as int));
        assert(ids@.take(i + 1).last() == ids@[i as int]);
        let d = ids[i];
        let is_table = match loaded.record(d) {
            Some(rec) => rec.type_id == 6000 || rec.type_id == 6007,
            None => false,
        };
        if is_table {
            let mid = match loaded.msg(d) {
                Some(m) => m.reference(2),
                None => None,
            };
            let table = match mid {
                Some(mid) => {
                    let ghost before = view_warnings(warnings@);
                    let t = convert_table(loaded, mid, warnings);
                    proof {
                        let after = view_warnings(warnings@);
                        assert(after.take(before.len() as int) =~= before);
                        lemma_appended_trans(w0, before, after);
                    }
                    t
                },
                None => {
                    let ghost before = view_warnings(warnings@);
                    warnings.push(
                        Warning {
                            code: WarningCode::UnresolvedReference,
                            message: owned("table drawable without a tableModel reference"),
                            path: None,
                            detail: None,
                            count: None,
                            paths: None,
                        },
                    );
                    proof {
                        let after = view_warnings(warnings@);
                        assert(after.take(before.len() as int) =~= before);
                        lemma_appended_trans(w0, before, after);
                    }
                    None
                },
            };
            out.push(SheetTable { drawable_id: d, table });
            assert(table_drawables(records, ids@.take(i + 1)) == prev.push(d));
        } else {
            assert(table_drawables(records, ids@.take(i + 1)) == prev);
        }
        i = i + 1;
    }
    assert(ids@.take(i as int) =~= ids@);
    out
}

/// Sheet `id` (see `sheet_ok`); a sheet id that names no loaded message
/// gives an empty sheet and an unresolved-reference warning.
pub fn convert_sheet(loaded: &Loaded, id: u64, warnings: &mut Vec<Warning>) -> (s: SheetModel)
    ensures
        sheet_ok(*loaded, id, s),
        appended(view_warnings(old(warnings)@), view_warnings(final(warnings)@)),
        loaded_msg(loaded_view(*loaded).records, id) is None ==> view_warnings(final(warnings)@) == view_warnings(
            old(warnings)@,
        ).push(missing_sheet_warning(id)),
{
    match loaded.msg(id) {
        Some(m) => {
            proof {
                lemma_vall(m.fields@, 25);
            }
            let name = match crate::cell_formats::string_of(m, 1) {
                Some(n) => n,
                None => String::new(),
            };
            let ids = m.references(2);
            let tables = sheet_tables(loaded, &ids, warnings);
            SheetModel { id, name, hidden: m.boolean(25), drawable_ids: ids, tables }
        },
        None => {
            let mut msg = owned("sheet reference ");
            push_decimal(&mut msg, id);
            push_str(&mut msg, " points nowhere");
            let mut d = String::new();
            push_decimal(&mut d, id);
            let w = Warning { code: WarningCode::UnresolvedReference, message: msg, path: None, detail: Some(d), count: None, paths: None };
            assert(view_warning(w) == missing_sheet_warning(id));
            let ghost before = view_warnings(warnings@);
            warnings.push(w);
            proof {
                assert(view_warnings(warnings@) =~= before.push(view_warning(w)));
                assert(view_warnings(warnings@).take(before.len() as int) =~= before);
            }
            SheetModel { id, name: String::new(), hidden: None, drawable_ids: Vec::new(), tables: Vec::new() }
        },
    }
}

/// The sheets the root's entries (field 1) name, in order.
pub open spec fn sheet_ids(es: Seq<RootEntryView>) -> Seq<u64>
    decreases es.len(),
{
    if es.len() == 0 {
        Seq::empty()
    } else {
        match es.last() {
            RootEntryView::Sheet(id) => sheet_ids(es.drop_last()).push(id),
            _ => sheet_ids(es.drop_last()),
        }
    }
}

/// The forms the root's entries record, in order.
pub open spec fn form_views(es: Seq<RootEntryView>) -> Seq<(Option<Seq<char>>, Option<Seq<char>>)>
    decreases es.len(),
{
    if es.len() == 0 {
        Seq::empty()
    } else {
        match es.last() {
            RootEntryView::Form(a, b) => form_views(es.drop_last()).push((a, b)),
            _ => form_views(es.drop_last()),
        }
    }
}

/// `d` is the Numbers document of root `root` (see `convert_numbers`).
pub open spec fn numbers_ok(loaded: Loaded, root: Seq<(u32, WireSpec)>, d: NumbersDocument) -> bool {
    let es = root_entries_of(loaded_view(loaded).records, refs_of(vall(root, 1)));
    &&& d.sheets@.len() == sheet_ids(es).len()
    &&& forall|k: int| 0 <= k < d.sheets@.len() ==> sheet_ok(loaded, sheet_ids(es)[k], #[trigger] d.sheets@[k])
    &&& d.forms@.map_values(|f: NumbersForm| (opt_text(f.sheet_name), opt_text(f.bound_table_name))) == form_views(es)
}

/// The warnings that root entry `e` adds: for a sheet, those of
/// `convert_sheet` (exactly one when the sheet is not loaded), none for a
/// form, and one for an entry of a type that is not modeled.
pub open spec fn entry_warnings_ok(loaded: Loaded, e: RootEntryView, ws: Seq<WarningView>) -> bool {
    match e {
        RootEntryView::Sheet(id) => match loaded_msg(loaded_view(loaded).records, id) {
            None => ws == seq![missing_sheet_warning(id)],
            Some(_) => true,
        },
        RootEntryView::Form(_, _) => ws.len() == 0,
        RootEntryView::Unmodeled(t) => ws == seq![unmodeled_warning(t)],
    }
}

/// The groups of `c` one after another.
pub open spec fn flatten_warnings(c: Seq<Seq<WarningView>>) -> Seq<WarningView>
    decreases c.len(),
{
    if c.len() == 0 {
        Seq::empty()
    } else {
        flatten_warnings(c.drop_last()) + c.last()
    }
}

/// `new` is `old` followed by the warnings of each root entry in turn
/// (see `entry_warnings_ok`).
pub open spec fn numbers_warnings_ok(loaded: Loaded, root: Seq<(u32, WireSpec)>, old: Seq<WarningView>, new: Seq<WarningView>) -> bool {
    let es = root_entries_of(loaded_view(loaded).records, refs_of(vall(root, 1)));
    exists|chunks: Seq<Seq<WarningView>>|
        chunks.len() == es.len() && new == old + flatten_warnings(chunks) && forall|k: int|
            0 <= k < es.len() ==> entry_warnings_ok(loaded, es[k], #[trigger] chunks[k])
}

fn copy_opt(o: &Option<String>) -> (r: Option<String>)
    ensures
        opt_text(r) == opt_text(*o),
{
    match o {
        Some(x) => Some(owned(x.as_str())),
        None => None,
    }
}

/// A Numbers document: one sheet per sheet entry of the root, read as
/// `convert_sheet` reads it, and the forms it records; other entries are
/// warned of.
pub fn convert_numbers(loaded: &Loaded, root: &Msg, warnings: &mut Vec<Warning>) -> (d: NumbersDocument)
    ensures
        numbers_ok(*loaded, fields_view(root.fields@), d),
        numbers_warnings_ok(*loaded, fields_view(root.fields@), view_warnings(old(warnings)@), view_warnings(final(warnings)@)),
{
    let entries = root_entries(loaded, root);
    let ghost es = entries@.map_values(|e: RootEntry| root_entry_view(e));
    let ghost w0 = view_warnings(warnings@);
    let ghost mut chunks: Seq<Seq<WarningView>> = Seq::empty();
    let mut sheets: Vec<SheetModel> = Vec::new();
    let mut forms: Vec<NumbersForm> = Vec::new();
    let mut i: usize = 0;
    assert(w0 + flatten_warnings(chunks) =~= w0);
    while i < entries.len()
        invariant
            i <= entries@.len(),
            chunks.len() == i,
            view_warnings(warnings@) == w0 + flatten_warnings(chunks),
            forall|k: int| 0 <= k < i ==> entry_warnings_ok(*loaded, es[k], #[trigger] chunks[k]),
            es == entries@.map_values(|e: RootEntry| root_entry_view(e)),
            sheets@.len() == sheet_ids(es.take(i as int)).len(),
            forall|k: int| 0 <= k < sheets@.len() ==> sheet_ok(*loaded, sheet_ids(es.take(i as int))[k], #[trigger] sheets@[k]),
            forms@.map_values(|f: NumbersForm| (opt_text(f.sheet_name), opt_text(f.bound_table_name))) == form_views(es.take(i as int)),
        decreases entries@.len() - i,
    {
        assert(es.take(i + 1).drop_last() =~= es.take(i as int));
        assert(es.take(i + 1).last() == es[i as int]);
        let ghost fv0 = forms@;
        let ghost before = view_warnings(warnings@);
        match &entries[i] {
            RootEntry::Sheet(id) => {
                let s = convert_sheet(loaded, *id, warnings);
                sheets.push(s);
                proof {
                    let after = view_warnings(warnings@);
                    if loaded_msg(loaded_view(*loaded).records, *id) is None {
                        assert(after.skip(before.len() as int) =~= seq![missing_sheet_warning(*id)]);
                    }
                }
            },
            RootEntry::Form(f) => {
                let g = NumbersForm { sheet_name: copy_opt(&f.sheet_name), bound_table_name: copy_opt(&f.bound_table_name) };
                forms.push(g);
                assert(forms@.map_values(|f: NumbersForm| (opt_text(f.sheet_name), opt_text(f.bound_table_name))) =~= fv0.map_values(
                    |f: NumbersForm| (opt_text(f.sheet_name), opt_text(f.bound_table_name)),
                ).push((opt_text(g.sheet_name), opt_text(g.bound_table_name))));
            },
            RootEntry::Unmodeled(t) => {
                let w = unmodeled_sheet_warning(*t);
                warnings.push(w);
                proof {
                    let after = view_warnings(warnings@);
                    assert(after =~= before.push(view_warning(w)));
                    assert(after.take(before.len() as int) =~= before);
                    assert(after.skip(before.len() as int) =~= seq![unmodeled_warning(*t)]);
                }
            },
        }
        proof {
            let after = view_warnings(warnings@);
            if entries@[i as int] is Form {
                assert(after.take(before.len() as int) =~= before);
            }
            let chunk = after.skip(before.len() as int);
            assert(after =~= before + chunk);
            let next = chunks.push(chunk);
            assert(next.drop_last() =~= chunks);
            assert(w0 + flatten_warnings(next) =~= w0 + flatten_warnings(chunks) + chunk);
            chunks = next;
        }
        i = i + 1;
    }
    assert(es.take(i as int) =~= es);
    assert(view_warnings(warnings@) == view_warnings(old(warnings)@) + flatten_warnings(chunks));
    NumbersDocument { sheets, forms }
}

/// A control character other than tab and newline.
pub open spec fn junk_char(c: char) -> bool {
    ((c as u32) <= 0x1f || (0x7f <= (c as u32) && (c as u32) <= 0x9f)) && c != '\t' && c != '\n'
}

/// A slide's name (field 10): absent when empty or when it holds a control
/// character other than tab and newline (binary read as text).
pub open spec fn slide_name(m: Seq<(u32, WireSpec)>) -> Option<Seq<char>> {
    match vstring(m, 10) {
        Some(n) => if n.len() > 0 && forall|i: int| 0 <= i < n.len() ==> !junk_char(#[trigger] n[i]) {
            Some(n)
        } else {
            None
        },
        None => None,
    }
}

/// A slide's painted drawables: its z-order list (field 42), else its
/// drawables (field 7).
pub open spec fn painted_ids(m: Seq<(u32, WireSpec)>) -> Seq<u64> {
    if refs_of(vall(m, 42)).len() > 0 {
        refs_of(vall(m, 42))
    } else {
        refs_of(vall(m, 7))
    }
}

/// A slide's title, body, slide-number and object placeholders (fields 5,
/// 6, 20, 30), in that order.
pub open spec fn placeholder_ids(m: Seq<(u32, WireSpec)>) -> Seq<u64> {
    refs_of(vall(m, 5)) + refs_of(vall(m, 6)) + refs_of(vall(m, 20)) + refs_of(vall(m, 30))
}

/// The ids of `extra` that are not among `painted`, in order.
pub open spec fn unpainted(painted: Seq<u64>, extra: Seq<u64>) -> Seq<u64>
    decreases extra.len(),
{
    if extra.len() == 0 {
        Seq::empty()
    } else if painted.contains(extra.last()) {
        unpainted(painted, extra.drop_last())
    } else {
        unpainted(painted, extra.drop_last()).push(extra.last())
    }
}

/// The storage of a slide's notes: its note (field 27) names the storage
/// it contains (field 1).
pub open spec fn notes_storage(records: Map<u64, RecordView>, m: Seq<(u32, WireSpec)>) -> Option<Seq<(u32, WireSpec)>> {
    match ref_of(m, 27) {
        Some(nid) => match loaded_msg(records, nid) {
            Some(n) => match ref_of(n, 1) {
                Some(st) => loaded_msg(records, st),
                None => None,
            },
            None => None,
        },
        None => None,
    }
}

/// `s` is slide `id` read: see `convert_slide`.
pub open spec fn slide_ok(loaded: Loaded, id: u64, s: SlideModel) -> bool {
    let records = loaded_view(loaded).records;
    &&& s.id == id
    &&& s.master == template_of(records, id)
    &&& match loaded_msg(records, id) {
        None => s.name is None && s.drawable_ids@.len() == 0 && s.builds@.len() == 0 && s.notes is None,
        Some(m) => {
            &&& opt_text(s.name) == slide_name(m)
            &&& s.drawable_ids@ == painted_ids(m) + unpainted(painted_ids(m), placeholder_ids(m))
            &&& builds_ok(records, refs_of(vall(m, 2)), painted_ids(m), s.builds@)
            &&& match notes_storage(records, m) {
                Some(st) => s.notes matches Some(x) && extracted_ok(loaded, st, x),
                None => s.notes is None,
            }
        },
    }
}

/// The warning for a slide id that names no loaded message.
pub open spec fn missing_slide_warning(id: u64) -> WarningView {
    WarningView {
        code: WarningCode::UnresolvedReference,
        message: "slide reference "@ + dec(id as nat) + " points nowhere"@,
        path: None,
        detail: Some(dec(id as nat)),
        count: None,
        paths: None,
    }
}

/// The warnings reading slide `id` adds: one when it is not loaded, else
/// the note on its notes' tracked changes, if any (see `change_note`).
pub open spec fn slide_warnings(loaded: Loaded, id: u64, ws: Seq<WarningView>) -> bool {
    let records = loaded_view(loaded).records;
    match loaded_msg(records, id) {
        None => ws == seq![missing_slide_warning(id)],
        Some(m) => match notes_storage(records, m) {
            Some(_) => exists|n: nat, deleted: nat| #[trigger] change_note(Seq::empty(), ws, n, deleted),
            None => ws.len() == 0,
        },
    }
}

proof fn lemma_note_skip(old: Seq<WarningView>, new: Seq<WarningView>, n: nat, deleted: nat)
    requires
        change_note(old, new, n, deleted),
    ensures
        appended(old, new),
        change_note(Seq::empty(), new.skip(old.len() as int), n, deleted),
{
    assert(new.take(old.len() as int) =~= old);
    if n == 0 && deleted == 0 {
        assert(new.skip(old.len() as int) =~= Seq::<WarningView>::empty());
    } else {
        assert(new.skip(old.len() as int) =~= Seq::<WarningView>::empty().push(new.last()));
    }
}

fn slide_name_exec(m: &Msg) -> (r: Option<String>)
    ensures
        opt_text(r) == slide_name(fields_view(m.fields@)),
{
    let n = match crate::cell_formats::string_of(m, 10) {
        Some(n) => n,
        None => {
            return None;
        },
    };
    assert(vstring(fields_view(m.fields@), 10) == Some(n@));
    let cs = crate::text_util::chars_of(n.as_str());
    if cs.len() == 0 {
        return None;
    }
    let mut i: usize = 0;
    while i < cs.len()
        invariant
            i <= cs@.len(),
            cs@ == n@,
            vstring(fields_view(m.fields@), 10) == Some(n@),
            forall|j: int| 0 <= j < i ==> !junk_char(#[trigger] cs@[j]),
        decreases cs@.len() - i,
    {
        let c = cs[i];
        let u = c as u32;
        if (u <= 0x1f || (0x7f <= u && u <= 0x9f)) && c != '\t' && c != '\n' {
            assert(junk_char(cs@[i as int]));
            assert(junk_char(n@[i as int]));
            assert(!(forall|j: int| 0 <= j < n@.len() ==> !junk_char(#[trigger] n@[j])));
            return None;
        }
        i = i + 1;
    }
    Some(n)
}

fn unpainted_exec(painted: &Vec<u64>, extra: &Vec<u64>, out: &mut Vec<u64>)
    ensures
        final(out)@ == old(out)@ + unpainted(painted@, extra@),
{
    let ghost start = out@;
    let mut i: usize = 0;
    assert(start + unpainted(painted@, extra@.take(0)) =~= start) by {
        assert(extra@.take(0) =~= Seq::<u64>::empty());
    }
    while i < extra.len()
        invariant
            i <= extra@.len(),
            out@ == start + unpainted(painted@, extra@.take(i as int)),
        decreases extra@.len() - i,
    {
        assert(extra@.take(i + 1).drop_last() =~= extra@.take(i as int));
        assert(extra@.take(i + 1).last() == extra@[i as int]);
        let p = extra[i];
        let mut seen = false;
        let mut j: usize = 0;
        while j < painted.len()
            invariant
                j <= painted@.len(),
                seen == painted@.take(j as int).contains(p),
            decreases painted@.len() - j,
        {
            assert(painted@.take(j + 1) =~= painted@.take(j as int).push(painted@[j as int]));
            if painted[j] == p {
                seen = true;
                assert(painted@.take(j + 1)[j as int] == p);
            }
            j = j + 1;
        }
        assert(painted@.take(j as int) =~= painted@);
        if !seen {
            out.push(p);
        }
        i = i + 1;
    }
    assert(extra@.take(i as int) =~= extra@);
}

/// Slide `id` (see `slide_ok`): its name, its painted drawables and the
/// placeholders they leave out, its builds (see `slide_builds`), and its
/// presenter notes read as
/// `extract_text` reads them. A slide id that names no loaded message
/// gives an empty slide and a warning.
pub fn convert_slide(loaded: &Loaded, id: u64, warnings: &mut Vec<Warning>) -> (s: SlideModel)
    ensures
        slide_ok(*loaded, id, s),
        s.skipped is None && s.slide_number_visible is None,
        appended(view_warnings(old(warnings)@), view_warnings(final(warnings)@)),
        slide_warnings(*loaded, id, view_warnings(final(warnings)@).skip(view_warnings(old(warnings)@).len() as int)),
{
    let ghost records = loaded_view(*loaded).records;
    let ghost w0 = view_warnings(warnings@);
    let master = resolve_template_id(loaded, id);
    let m = match loaded.msg(id) {
        Some(m) => m,
        None => {
            let mut msg = owned("slide reference ");
            push_decimal(&mut msg, id);
            push_str(&mut msg, " points nowhere");
            let mut d = String::new();
            push_decimal(&mut d, id);
            let w = Warning { code: WarningCode::UnresolvedReference, message: msg, path: None, detail: Some(d), count: None, paths: None };
            assert(view_warning(w) == missing_slide_warning(id));
            warnings.push(w);
            proof {
                assert(view_warnings(warnings@) =~= w0.push(view_warning(w)));
                assert(view_warnings(warnings@).take(w0.len() as int) =~= w0);
                assert(view_warnings(warnings@).skip(w0.len() as int) =~= seq![missing_slide_warning(id)]);
            }
            return SlideModel {
                id,
                master,
                name: None,
                drawable_ids: Vec::new(),
                builds: Vec::new(),
                notes: None,
                skipped: None,
                slide_number_visible: None,
            };
        },
    };
    let ghost mv = fields_view(m.fields@);
    assert(loaded_msg(records, id) == Some(mv));
    let name = slide_name_exec(m);
    let z = m.references(42);
    let mut drawable_ids = if z.len() > 0 {
        z
    } else {
        m.references(7)
    };
    let painted = drawable_ids.clone();
    assert(painted@ == painted_ids(mv));
    let mut extra = m.references(5);
    let mut e6 = m.references(6);
    let mut e20 = m.references(20);
    let mut e30 = m.references(30);
    extra.append(&mut e6);
    extra.append(&mut e20);
    extra.append(&mut e30);
    assert(extra@ =~= placeholder_ids(mv));
    unpainted_exec(&painted, &extra, &mut drawable_ids);
    let builds = slide_builds(loaded, m, &painted);
    let storage = match m.reference(27) {
        Some(nid) => match loaded.msg(nid) {
            Some(n) => match n.reference(1) {
                Some(st) => loaded.msg(st),
                None => None,
            },
            None => None,
        },
        None => None,
    };
    let notes = match storage {
        Some(st) => {
            let x = extract_text(loaded, st, 0, warnings);
            proof {
                let after = view_warnings(warnings@);
                assert(exists|n: nat, del: nat| #[trigger] change_note(w0, after, n, del));
                let (n, del) = choose|n: nat, del: nat| #[trigger] change_note(w0, after, n, del);
                lemma_note_skip(w0, after, n, del);
            }
            x
        },
        None => {
            assert(view_warnings(warnings@).take(w0.len() as int) =~= w0);
            assert(view_warnings(warnings@).skip(w0.len() as int) =~= Seq::<WarningView>::empty());
            None
        },
    };
    SlideModel { id, master, name, drawable_ids, builds, notes, skipped: None, slide_number_visible: None }
}

/// The show a Keynote root names (field 2; 2 when absent).
pub open spec fn show_id(root: Seq<(u32, WireSpec)>) -> u64 {
    match ref_of(root, 2) {
        Some(s) => s,
        None => 2,
    }
}

/// The warning for a navigator tree that loops back on itself.
pub open spec fn navigator_cut_warning() -> WarningView {
    WarningView {
        code: WarningCode::UnresolvedReference,
        message: "slide navigator tree loops back on itself; read one level per object"@,
        path: None,
        detail: None,
        count: None,
        paths: None,
    }
}

/// The note on a show whose slide order falls back to a navigator tree
/// that does not end within `walk_depth` levels, if it does.
pub open spec fn cut_notes(loaded: Loaded, show: Seq<(u32, WireSpec)>) -> Seq<WarningView> {
    if walks_navigator(show) && !tree_within(loaded_view(loaded).records, ref_of(vmsg(show, 3)->0, 1), walk_depth(loaded)) {
        seq![navigator_cut_warning()]
    } else {
        Seq::empty()
    }
}

/// The slides of a show, in order (see `slide_order`).
pub open spec fn show_slides(loaded: Loaded, show: Seq<(u32, WireSpec)>) -> Seq<u64> {
    let records = loaded_view(loaded).records;
    targets(records, listed_slides(records, show, walk_depth(loaded)))
}

/// The warning for a Keynote root whose show is not loaded.
pub open spec fn no_show_warning() -> WarningView {
    WarningView {
        code: WarningCode::UnresolvedReference,
        message: "KN.ShowArchive not resolvable from the document root; emitting an empty show"@,
        path: None,
        detail: None,
        count: None,
        paths: None,
    }
}

/// The navigator flags of the show's slides, by slide: those of its
/// navigator tree (the slide tree's field 1) as `collect_node_flags`
/// gathers them.
pub open spec fn show_flags(loaded: Loaded, show: Seq<(u32, WireSpec)>) -> Map<u64, NodeFlags> {
    match vmsg(show, 3) {
        Some(t) => insert_flags(
            Map::empty(),
            flag_pairs(visited(loaded_view(loaded).records, ref_of(t, 1), walk_depth(loaded))),
        ),
        None => Map::empty(),
    }
}

/// Slide `s` carries the flags `flags` give its id, none when they give it
/// none.
pub open spec fn flags_ok(flags: Map<u64, NodeFlags>, s: SlideModel) -> bool {
    if flags.contains_key(s.id) {
        s.skipped == flags[s.id].0 && s.slide_number_visible == flags[s.id].1
    } else {
        s.skipped is None && s.slide_number_visible is None
    }
}

/// `d` is the Keynote document of root `root`: see `convert_keynote`.
pub open spec fn keynote_ok(loaded: Loaded, root: Seq<(u32, WireSpec)>, d: KeynoteDocument) -> bool {
    let records = loaded_view(loaded).records;
    match loaded_msg(records, show_id(root)) {
        None => d.masters@.len() == 0 && d.slides@.len() == 0,
        Some(show) => {
            let ids = show_slides(loaded, show);
            &&& d.masters@ == targets(records, listed_masters(records, show))
            &&& d.slides@.len() == ids.len()
            &&& forall|k: int| 0 <= k < d.slides@.len() ==> slide_ok(loaded, ids[k], #[trigger] d.slides@[k])
            &&& forall|k: int| 0 <= k < d.slides@.len() ==> flags_ok(show_flags(loaded, show), #[trigger] d.slides@[k])
        },
    }
}

/// The text of a Pages body storage (field 3), empty when absent.
pub open spec fn body_text(records: Map<u64, RecordView>, root: Seq<(u32, WireSpec)>) -> Seq<char> {
    match body_storage(records, root) {
        Some(bs) => match vstring(bs, 3) {
            Some(t) => t,
            None => Seq::empty(),
        },
        None => Seq::empty(),
    }
}

/// The body paragraph a section starting at UTF-16 offset `off` starts at,
/// in a word-processing document: none for the first paragraph, and none
/// for a body text too long to count in 32 bits.
pub open spec fn section_start(records: Map<u64, RecordView>, root: Seq<(u32, WireSpec)>, flavor: PagesFlavor, off: u64) -> Option<u32> {
    let t = body_text(records, root);
    if flavor == PagesFlavor::WordProcessing && t.len() <= u32::MAX && para_from(t, 0, off as int) > 0 {
        Some(para_from(t, 0, off as int) as u32)
    } else {
        None
    }
}

/// `s` is section `id`, starting at offset `off`, read (see `convert_section`).
pub open spec fn section_ok(records: Map<u64, RecordView>, root: Seq<(u32, WireSpec)>, flavor: PagesFlavor, id: u64, off: u64, s: PagesSection) -> bool {
    &&& s.id == id
    &&& s.start_offset == off
    &&& s.body_paragraph_start == section_start(records, root, flavor, off)
    &&& match loaded_msg(records, id) {
        None => s.name is None && s.first_page_template is None && s.even_page_template is None && s.odd_page_template is None
            && s.inherit_previous_header_footer is None && s.first_page_hides_header_footer is None && s.restart_page_numbering is None,
        Some(m) => {
            &&& opt_text(s.name) == vstring(m, 26)
            &&& s.first_page_template == (if bool_of(m, 18) == Some(false) {
                None
            } else {
                ref_of(m, 23)
            })
            &&& s.even_page_template == (if bool_of(m, 19) == Some(false) {
                ref_of(m, 25)
            } else {
                ref_of(m, 24)
            })
            &&& s.odd_page_template == ref_of(m, 25)
            &&& s.inherit_previous_header_footer == bool_of(m, 17)
            &&& s.first_page_hides_header_footer == bool_of(m, 28)
            &&& s.restart_page_numbering == bool_of(m, 20)
        },
    }
}

/// The warning for a section id that names no loaded message.
pub open spec fn missing_section_warning(id: u64) -> WarningView {
    WarningView {
        code: WarningCode::UnresolvedReference,
        message: "section reference "@ + dec(id as nat) + " points nowhere"@,
        path: None,
        detail: Some(dec(id as nat)),
        count: None,
        paths: None,
    }
}

/// One warning per section of `ss` that is not loaded, in order.
pub open spec fn missing_section_notes(records: Map<u64, RecordView>, ss: Seq<PagesSection>) -> Seq<WarningView>
    decreases ss.len(),
{
    if ss.len() == 0 {
        Seq::empty()
    } else {
        missing_section_notes(records, ss.drop_last()) + if loaded_msg(records, ss.last().id) is None {
            seq![missing_section_warning(ss.last().id)]
        } else {
            Seq::empty()
        }
    }
}

/// Whether a text holds any characters.
pub open spec fn shows_text(x: ExtractedText) -> bool {
    exists|k: int, j: int|
        0 <= k < x.paragraphs@.len() && 0 <= j < x.paragraphs@[k].runs@.len() && (#[trigger] x.paragraphs@[k].runs@[j]).text@.len() > 0
}

fn shows_text_exec(x: &ExtractedText) -> (b: bool)
    ensures
        b == shows_text(*x),
{
    let mut k: usize = 0;
    while k < x.paragraphs.len()
        invariant
            k <= x.paragraphs@.len(),
            forall|a: int, j: int|
                0 <= a < k && 0 <= j < x.paragraphs@[a].runs@.len() ==> (#[trigger] x.paragraphs@[a].runs@[j]).text@.len() == 0,
        decreases x.paragraphs@.len() - k,
    {
        let mut j: usize = 0;
        while j < x.paragraphs[k].runs.len()
            invariant
                k < x.paragraphs@.len(),
                j <= x.paragraphs@[k as int].runs@.len(),
                forall|q: int| 0 <= q < j ==> (#[trigger] x.paragraphs@[k as int].runs@[q]).text@.len() == 0,
            decreases x.paragraphs@[k as int].runs@.len() - j,
        {
            if !x.paragraphs[k].runs[j].text.as_str().is_empty() {
                assert(x.paragraphs@[k as int].runs@[j as int].text@.len() > 0);
                return true;
            }
            j = j + 1;
        }
        k = k + 1;
    }
    false
}

/// The text storage of footnote object `obj`: a footnote reference
/// attachment (type 2008) names the storage it contains (field 2).
pub open spec fn footnote_storage(records: Map<u64, RecordView>, obj: Option<u64>) -> Option<Seq<(u32, WireSpec)>> {
    match obj {
        Some(o) => if records.contains_key(o) && records[o].type_id == 2008 {
            match loaded_msg(records, o) {
                Some(a) => match ref_of(a, 2) {
                    Some(st) => loaded_msg(records, st),
                    None => None,
                },
                None => None,
            }
        } else {
            None
        },
        None => None,
    }
}

/// The footnote bodies the runs' marks name, in order, each with the
/// paragraph `k` they sit in.
pub open spec fn run_footnotes(records: Map<u64, RecordView>, runs: Seq<TextRun>, k: int) -> Seq<(int, Seq<(u32, WireSpec)>)>
    decreases runs.len(),
{
    if runs.len() == 0 {
        Seq::empty()
    } else {
        run_footnotes(records, runs.drop_last(), k) + match runs.last().footnote {
            Some(obj) => match footnote_storage(records, obj) {
                Some(st) => seq![(k, st)],
                None => Seq::empty(),
            },
            None => Seq::empty(),
        }
    }
}

/// The footnote bodies of the paragraphs, paragraph after paragraph.
pub open spec fn para_footnotes(records: Map<u64, RecordView>, ps: Seq<Paragraph>) -> Seq<(int, Seq<(u32, WireSpec)>)>
    decreases ps.len(),
{
    if ps.len() == 0 {
        Seq::empty()
    } else {
        para_footnotes(records, ps.drop_last()) + run_footnotes(records, ps.last().runs@, ps.len() - 1)
    }
}

/// The footnote bodies of a Pages document: those of a word-processing
/// body.
pub open spec fn doc_footnotes(records: Map<u64, RecordView>, d: PagesDocument) -> Seq<(int, Seq<(u32, WireSpec)>)> {
    match d.body {
        Some(x) => para_footnotes(records, x.paragraphs@),
        None => Seq::empty(),
    }
}

/// Whether `ws` is a text's tracked-changes note, or nothing (see
/// `change_note`).
pub open spec fn is_note(ws: Seq<WarningView>) -> bool {
    exists|n: nat, deleted: nat| #[trigger] change_note(Seq::empty(), ws, n, deleted)
}

fn footnote_storage_exec(loaded: &Loaded, obj: Option<u64>) -> (r: Option<&Msg>)
    ensures
        match footnote_storage(loaded_view(*loaded).records, obj) {
            Some(st) => r matches Some(m) && fields_view(m.fields@) == st,
            None => r is None,
        },
{
    let o = match obj {
        Some(o) => o,
        None => {
            return None;
        },
    };
    let is_note = match loaded.record(o) {
        Some(rec) => rec.type_id == 2008,
        None => false,
    };
    if !is_note {
        return None;
    }
    match loaded.msg(o) {
        Some(a) => match a.reference(2) {
            Some(st) => loaded.msg(st),
            None => None,
        },
        None => None,
    }
}

/// The footnotes whose marks sit in the paragraphs (see `para_footnotes`),
/// each body read as `extract_text` reads a storage one level down.
fn collect_footnotes(loaded: &Loaded, ps: &Vec<Paragraph>, warnings: &mut Vec<Warning>) -> (r: Vec<Footnote>)
    ensures
        r@.len() == para_footnotes(loaded_view(*loaded).records, ps@).len(),
        forall|i: int|
            0 <= i < r@.len() ==> (#[trigger] r@[i]).anchor_paragraph_index == para_footnotes(
                loaded_view(*loaded).records,
                ps@,
            )[i].0 as u32 && extracted_ok(*loaded, para_footnotes(loaded_view(*loaded).records, ps@)[i].1, r@[i].text),
        exists|notes: Seq<Seq<WarningView>>|
            notes.len() == r@.len() && (forall|i: int|
                0 <= i < notes.len() ==> #[trigger] is_note(notes[i]))
                && view_warnings(final(warnings)@) == view_warnings(old(warnings)@) + flatten_warnings(notes),
{
    let ghost records = loaded_view(*loaded).records;
    let ghost w0 = view_warnings(warnings@);
    let ghost mut notes: Seq<Seq<WarningView>> = Seq::empty();
    let mut out: Vec<Footnote> = Vec::new();
    let mut k: usize = 0;
    assert(w0 + flatten_warnings(notes) =~= w0);
    assert(para_footnotes(records, ps@.take(0)) =~= Seq::<(int, Seq<(u32, WireSpec)>)>::empty()) by {
        assert(ps@.take(0) =~= Seq::<Paragraph>::empty());
    }
    while k < ps.len()
        invariant
            k <= ps@.len(),
            records == loaded_view(*loaded).records,
            out@.len() == para_footnotes(records, ps@.take(k as int)).len(),
            forall|i: int|
                0 <= i < out@.len() ==> (#[trigger] out@[i]).anchor_paragraph_index == para_footnotes(records, ps@.take(k as int))[i].0 as u32
                    && extracted_ok(*loaded, para_footnotes(records, ps@.take(k as int))[i].1, out@[i].text),
            notes.len() == out@.len(),
            forall|i: int|
                0 <= i < notes.len() ==> #[trigger] is_note(notes[i]),
            view_warnings(warnings@) == w0 + flatten_warnings(notes),
        decreases ps@.len() - k,
    {
        let ghost base = para_footnotes(records, ps@.take(k as int));
        let runs = &ps[k].runs;
        let mut j: usize = 0;
        assert(run_footnotes(records, runs@.take(0), k as int) =~= Seq::<(int, Seq<(u32, WireSpec)>)>::empty()) by {
            assert(runs@.take(0) =~= Seq::<TextRun>::empty());
        }
        assert(base + run_footnotes(records, runs@.take(0), k as int) =~= base);
        while j < runs.len()
            invariant
                j <= runs@.len(),
                k < ps@.len(),
                runs@ == ps@[k as int].runs@,
                records == loaded_view(*loaded).records,
                base == para_footnotes(records, ps@.take(k as int)),
                out@.len() == (base + run_footnotes(records, runs@.take(j as int), k as int)).len(),
                forall|i: int|
                    0 <= i < out@.len() ==> (#[trigger] out@[i]).anchor_paragraph_index == (base + run_footnotes(
                        records,
                        runs@.take(j as int),
                        k as int,
                    ))[i].0 as u32 && extracted_ok(
                        *loaded,
                        (base + run_footnotes(records, runs@.take(j as int), k as int))[i].1,
                        out@[i].text,
                    ),
                notes.len() == out@.len(),
                forall|i: int|
                    0 <= i < notes.len() ==> #[trigger] is_note(notes[i]),
                view_warnings(warnings@) == w0 + flatten_warnings(notes),
            decreases runs@.len() - j,
        {
            let ghost acc = base + run_footnotes(records, runs@.take(j as int), k as int);
            assert(runs@.take(j + 1).drop_last() =~= runs@.take(j as int));
            assert(runs@.take(j + 1).last() == runs@[j as int]);
            match runs[j].footnote {
                Some(obj) => match footnote_storage_exec(loaded, obj) {
                    Some(st) => {
                        let ghost before = view_warnings(warnings@);
                        let t = extract_text(loaded, st, 1, warnings);
                        match t {
                            Some(x) => {
                                proof {
                                    let after = view_warnings(warnings@);
                                    assert(exists|n: nat, del: nat| #[trigger] change_note(before, after, n, del));
                                    let (n, del) = choose|n: nat, del: nat| #[trigger] change_note(before, after, n, del);
                                    lemma_note_skip(before, after, n, del);
                                    let chunk = after.skip(before.len() as int);
                                    assert(after =~= before + chunk);
                                    let next = notes.push(chunk);
                                    assert(next.drop_last() =~= notes);
                                    assert(w0 + flatten_warnings(next) =~= w0 + flatten_warnings(notes) + chunk);
                                    assert(next[next.len() - 1] == chunk);
                                    notes = next;
                                }
                                out.push(Footnote { anchor_paragraph_index: k as u32, text: x });
                                assert(base + run_footnotes(records, runs@.take(j + 1), k as int) =~= acc.push(
                                    (k as int, fields_view(st.fields@)),
                                ));
                            },
                            None => {},
                        }
                    },
                    None => {
                        assert(base + run_footnotes(records, runs@.take(j + 1), k as int) =~= acc);
                    },
                },
                None => {
                    assert(base + run_footnotes(records, runs@.take(j + 1), k as int) =~= acc);
                },
            }
            j = j + 1;
        }
        proof {
            assert(runs@.take(j as int) =~= runs@);
            assert(ps@.take(k + 1).drop_last() =~= ps@.take(k as int));
            assert(ps@.take(k + 1).last() == ps@[k as int]);
        }
        k = k + 1;
    }
    assert(ps@.take(k as int) =~= ps@);
    out
}

/// `d` is the Pages document of root `root`: see `convert_pages`.
pub open spec fn pages_ok(loaded: Loaded, root: Seq<(u32, WireSpec)>, d: PagesDocument) -> bool {
    let records = loaded_view(loaded).records;
    &&& d.flavor == flavor_of(settings_varint(records, root, 1))
    &&& d.orientation == orientation_spec(vvarint(root, 42))
    &&& d.footnote_placement == placement_of(settings_varint(records, root, 30))
    &&& template_ids(records, root, d.templates@)
    &&& d.footnotes@.len() == doc_footnotes(records, d).len()
    &&& forall|i: int|
        0 <= i < d.footnotes@.len() ==> (#[trigger] d.footnotes@[i]).anchor_paragraph_index == doc_footnotes(records, d)[i].0 as u32
            && extracted_ok(loaded, doc_footnotes(records, d)[i].1, d.footnotes@[i].text)
    &&& section_entries(records, root, d.sections@.map_values(|s: PagesSection| (s.start_offset, s.id)))
    &&& forall|k: int|
        0 <= k < d.sections@.len() ==> section_ok(
            records,
            root,
            d.flavor,
            (#[trigger] d.sections@[k]).id,
            d.sections@[k].start_offset,
            d.sections@[k],
        )
    &&& match ref_of(root, 4) {
        Some(bs) => match loaded_msg(loaded_view(loaded).records, bs) {
            Some(m) => if d.flavor == PagesFlavor::WordProcessing {
                d.body matches Some(x) && extracted_ok(loaded, m, x) && d.hidden_body is None
            } else {
                &&& d.body is None
                &&& match d.hidden_body {
                    Some(x) => extracted_ok(loaded, m, x) && shows_text(x),
                    None => exists|x: ExtractedText| #[trigger] extracted_ok(loaded, m, x) && !shows_text(x),
                }
            },
            None => d.body is None && d.hidden_body is None,
        },
        None => d.body is None && d.hidden_body is None,
    }
}

/// The note on a vertical body layout (field 39 is 1), if any.
pub open spec fn vertical_notes(root: Seq<(u32, WireSpec)>) -> Seq<WarningView> {
    if vvarint(root, 39) == Some(1u64) {
        seq![vertical_layout_warning()]
    } else {
        Seq::empty()
    }
}

/// `new` is `mid` and, when the body storage is loaded, the note on its
/// tracked changes (see `change_note`).
pub open spec fn body_notes(loaded: Loaded, root: Seq<(u32, WireSpec)>, mid: Seq<WarningView>, new: Seq<WarningView>) -> bool {
    match ref_of(root, 4) {
        Some(bs) => match loaded_msg(loaded_view(loaded).records, bs) {
            Some(m) => exists|n: nat, deleted: nat| #[trigger] change_note(mid, new, n, deleted),
            None => new == mid,
        },
        None => new == mid,
    }
}

/// `new` is `old`, then the vertical-layout note, then the body's note
/// (see `body_notes`), then the note of each footnote body in turn (see
/// `change_note`), then one warning per section of `d` that is not loaded.
pub open spec fn pages_warnings_ok(
    loaded: Loaded,
    root: Seq<(u32, WireSpec)>,
    d: PagesDocument,
    old: Seq<WarningView>,
    new: Seq<WarningView>,
) -> bool {
    exists|w: Seq<WarningView>, notes: Seq<Seq<WarningView>>|
        #![trigger body_notes(loaded, root, old + vertical_notes(root), w), flatten_warnings(notes)]
        body_notes(loaded, root, old + vertical_notes(root), w) && notes.len() == doc_footnotes(
            loaded_view(loaded).records,
            d,
        ).len() && (forall|i: int|
            0 <= i < notes.len() ==> #[trigger] is_note(notes[i]))
            && new == w + flatten_warnings(notes) + missing_section_notes(loaded_view(loaded).records, d.sections@)
}

/// `new` is `old` with the no-show warning when the root's show is not
/// loaded; else `old`, the note on a cut navigator tree, and the warnings
/// of each slide in turn (see `slide_warnings`).
pub open spec fn keynote_warnings_ok(loaded: Loaded, root: Seq<(u32, WireSpec)>, old: Seq<WarningView>, new: Seq<WarningView>) -> bool {
    match loaded_msg(loaded_view(loaded).records, show_id(root)) {
        None => new == old.push(no_show_warning()),
        Some(show) => {
            let ids = show_slides(loaded, show);
            exists|chunks: Seq<Seq<WarningView>>|
                chunks.len() == ids.len() && new == old + cut_notes(loaded, show) + flatten_warnings(chunks) && forall|k: int|
                    0 <= k < ids.len() ==> slide_warnings(loaded, ids[k], #[trigger] chunks[k])
        },
    }
}

/// A Keynote document: its masters (see `master_order`) and slides (see
/// `slide_order`), each read as `convert_slide` reads it; an empty show,
/// with a warning, when the root's show is not loaded. A navigator tree
/// that loops back on itself is noted.
pub fn convert_keynote(loaded: &Loaded, root: &Msg, warnings: &mut Vec<Warning>) -> (d: KeynoteDocument)
    ensures
        keynote_ok(*loaded, fields_view(root.fields@), d),
        keynote_warnings_ok(*loaded, fields_view(root.fields@), view_warnings(old(warnings)@), view_warnings(final(warnings)@)),
{
    let ghost records = loaded_view(*loaded).records;
    let ghost w0 = view_warnings(warnings@);
    let sid = match root.reference(2) {
        Some(s) => s,
        None => 2,
    };
    let show = match loaded.msg(sid) {
        Some(s) => s,
        None => {
            let w = Warning {
                code: WarningCode::UnresolvedReference,
                message: owned("KN.ShowArchive not resolvable from the document root; emitting an empty show"),
                path: None,
                detail: None,
                count: None,
                paths: None,
            };
            warnings.push(w);
            assert(view_warnings(final(warnings)@) =~= view_warnings(old(warnings)@).push(no_show_warning()));
            return KeynoteDocument { masters: Vec::new(), slides: Vec::new() };
        },
    };
    let ghost sv = fields_view(show.fields@);
    assert(loaded_msg(records, show_id(fields_view(root.fields@))) == Some(sv));
    let navigates = match show.msg(3) {
        Some(t) => t.references(2).len() == 0 && show.references(19).len() == 0,
        None => false,
    };
    assert(navigates == walks_navigator(sv));
    if navigates {
        match show.msg(3) {
            Some(t) => {
                let depth = crate::keynote::walk_depth_exec(loaded);
                if !crate::keynote::tree_fits(loaded, t.reference(1), depth) {
                    let w = Warning {
                        code: WarningCode::UnresolvedReference,
                        message: owned("slide navigator tree loops back on itself; read one level per object"),
                        path: None,
                        detail: None,
                        count: None,
                        paths: None,
                    };
                    warnings.push(w);
                }
            },
            None => {},
        }
    }
    let ghost w1 = view_warnings(warnings@);
    assert(w1 =~= w0 + cut_notes(*loaded, sv));
    let masters = master_order(loaded, show);
    let ids = slide_order(loaded, show);
    let ghost iv = ids@;
    assert(iv == show_slides(*loaded, sv));
    let mut flags: std::collections::HashMap<u64, NodeFlags> = std::collections::HashMap::new();
    match show.msg(3) {
        Some(t) => collect_node_flags(loaded, t.reference(1), &mut flags),
        None => {},
    }
    assert(flags@ =~= show_flags(*loaded, sv));
    let ghost mut chunks: Seq<Seq<WarningView>> = Seq::empty();
    let mut slides: Vec<SlideModel> = Vec::new();
    let mut i: usize = 0;
    assert(w1 + flatten_warnings(chunks) =~= w1);
    while i < ids.len()
        invariant
            i <= ids@.len(),
            iv == ids@,
            slides@.len() == i,
            chunks.len() == i,
            view_warnings(warnings@) == w1 + flatten_warnings(chunks),
            forall|k: int| 0 <= k < i ==> slide_ok(*loaded, iv[k], #[trigger] slides@[k]),
            forall|k: int| 0 <= k < i ==> flags_ok(show_flags(*loaded, sv), #[trigger] slides@[k]),
            forall|k: int| 0 <= k < i ==> slide_warnings(*loaded, iv[k], #[trigger] chunks[k]),
            flags@ == show_flags(*loaded, sv),
        decreases ids@.len() - i,
    {
        let ghost before = view_warnings(warnings@);
        let mut s = convert_slide(loaded, ids[i], warnings);
        assert(s.id == iv[i as int]);
        match flags.get(&ids[i]) {
            Some(f) => {
                s.skipped = f.0;
                s.slide_number_visible = f.1;
            },
            None => {},
        }
        assert(flags_ok(show_flags(*loaded, sv), s));
        slides.push(s);
        proof {
            let after = view_warnings(warnings@);
            let chunk = after.skip(before.len() as int);
            assert(after =~= before + chunk);
            let next = chunks.push(chunk);
            assert(next.drop_last() =~= chunks);
            assert(w1 + flatten_warnings(next) =~= w1 + flatten_warnings(chunks) + chunk);
            assert(next[i as int] == chunk);
            chunks = next;
        }
        i = i + 1;
    }
    assert(view_warnings(warnings@) == w0 + cut_notes(*loaded, sv) + flatten_warnings(chunks));
    KeynoteDocument { masters, slides }
}

/// Section `id` of a Pages document, starting at body offset `off` (see
/// `section_ok`): its name (field 26); its first-page template (field 23,
/// none when the first page is not set apart, field 18), even-page template
/// (field 24, the odd one when even pages are not set apart, field 19) and
/// odd-page template (field 25); whether it keeps the previous section's
/// headers and footers (17), hides them on its first page (28) and
/// restarts page numbering (20). A section id that names no loaded message
/// gives an empty section and a warning.
pub fn convert_section(loaded: &Loaded, root: &Msg, flavor: PagesFlavor, id: u64, off: u64, warnings: &mut Vec<Warning>) -> (s: PagesSection)
    ensures
        section_ok(loaded_view(*loaded).records, fields_view(root.fields@), flavor, id, off, s),
        view_warnings(final(warnings)@) == view_warnings(old(warnings)@) + (if loaded_msg(loaded_view(*loaded).records, id) is None {
            seq![missing_section_warning(id)]
        } else {
            Seq::<WarningView>::empty()
        }),
{
    let ghost records = loaded_view(*loaded).records;
    let ghost rv = fields_view(root.fields@);
    let ghost w0 = view_warnings(warnings@);
    let start = section_start_exec(loaded, root, flavor, off);
    let m = match loaded.msg(id) {
        Some(m) => m,
        None => {
            let mut msg = owned("section reference ");
            push_decimal(&mut msg, id);
            push_str(&mut msg, " points nowhere");
            let mut d = String::new();
            push_decimal(&mut d, id);
            let w = Warning { code: WarningCode::UnresolvedReference, message: msg, path: None, detail: Some(d), count: None, paths: None };
            assert(view_warning(w) == missing_section_warning(id));
            warnings.push(w);
            assert(view_warnings(warnings@) =~= w0 + seq![missing_section_warning(id)]);
            return PagesSection {
                id,
                start_offset: off,
                name: None,
                first_page_template: None,
                even_page_template: None,
                odd_page_template: None,
                inherit_previous_header_footer: None,
                first_page_hides_header_footer: None,
                restart_page_numbering: None,
                body_paragraph_start: start,
            };
        },
    };
    assert(loaded_msg(records, id) == Some(fields_view(m.fields@)));
    proof {
        lemma_vall(m.fields@, 17);
        lemma_vall(m.fields@, 18);
        lemma_vall(m.fields@, 19);
        lemma_vall(m.fields@, 20);
        lemma_vall(m.fields@, 28);
    }
    let odd = m.reference(25);
    let first = if m.boolean(18) == Some(false) {
        None
    } else {
        m.reference(23)
    };
    let even = if m.boolean(19) == Some(false) {
        odd
    } else {
        m.reference(24)
    };
    assert(view_warnings(warnings@) =~= w0 + Seq::<WarningView>::empty());
    PagesSection {
        id,
        start_offset: off,
        name: crate::cell_formats::string_of(m, 26),
        first_page_template: first,
        even_page_template: even,
        odd_page_template: odd,
        inherit_previous_header_footer: m.boolean(17),
        first_page_hides_header_footer: m.boolean(28),
        restart_page_numbering: m.boolean(20),
        body_paragraph_start: start,
    }
}

fn section_start_exec(loaded: &Loaded, root: &Msg, flavor: PagesFlavor, off: u64) -> (r: Option<u32>)
    ensures
        r == section_start(loaded_view(*loaded).records, fields_view(root.fields@), flavor, off),
{
    if flavor != PagesFlavor::WordProcessing {
        return None;
    }
    let text = match root.reference(4) {
        Some(b) => match loaded.msg(b) {
            Some(bs) => match crate::cell_formats::string_of(bs, 3) {
                Some(t) => t,
                None => String::new(),
            },
            None => String::new(),
        },
        None => String::new(),
    };
    proof {
        reveal_strlit("");
    }
    assert(text@ == body_text(loaded_view(*loaded).records, fields_view(root.fields@)));
    let n = crate::text_util::chars_of(text.as_str()).len();
    if n > 4294967295 {
        return None;
    }
    proof {
        crate::pages::lemma_para_from_bound(text@, 0, off as int);
    }
    let p = para_index_at(text.as_str(), off);
    if p > 0 {
        Some(p)
    } else {
        None
    }
}

/// A Pages document: its flavor (see `pages_flavor`), page orientation
/// (field 42), footnote placement (see `footnote_placement`), page
/// templates (see `template_order`), body text (that of its body storage,
/// field 4, read as `extract_text` reads it, when loaded: the body of a
/// word-processing document; a page-layout document keeps it, never laid
/// out, as its hidden body when it holds any text) and sections (see
/// `section_list`, each read as `convert_section` reads it). A vertical
/// body layout is noted.
pub fn convert_pages(loaded: &Loaded, root: &Msg, warnings: &mut Vec<Warning>) -> (d: PagesDocument)
    requires
        ids_consistent(*loaded),
    ensures
        pages_ok(*loaded, fields_view(root.fields@), d),
        pages_warnings_ok(*loaded, fields_view(root.fields@), d, view_warnings(old(warnings)@), view_warnings(final(warnings)@)),
{
    let ghost records = loaded_view(*loaded).records;
    let ghost rv = fields_view(root.fields@);
    let flavor = pages_flavor(loaded, root);
    let ghost w0 = view_warnings(warnings@);
    note_vertical_layout(root, warnings);
    let ghost w1 = view_warnings(warnings@);
    assert(w1 =~= w0 + vertical_notes(rv));
    let orientation = page_orientation(root);
    let placement = footnote_placement(loaded, root);
    let templates = template_order(loaded, root);
    let text = match root.reference(4) {
        Some(bs) => match loaded.msg(bs) {
            Some(m) => extract_text(loaded, m, 0, warnings),
            None => None,
        },
        None => None,
    };
    let (body, hidden_body) = match text {
        Some(x) => if flavor == PagesFlavor::WordProcessing {
            (Some(x), None)
        } else if shows_text_exec(&x) {
            (None, Some(x))
        } else {
            (None, None)
        },
        None => (None, None),
    };
    let ghost w2 = view_warnings(warnings@);
    assert(body_notes(*loaded, rv, w1, w2));
    let footnotes = match &body {
        Some(x) => collect_footnotes(loaded, &x.paragraphs, warnings),
        None => Vec::new(),
    };
    let ghost notes = choose|notes: Seq<Seq<WarningView>>|
        notes.len() == footnotes@.len() && (forall|i: int|
            0 <= i < notes.len() ==> #[trigger] is_note(notes[i]))
            && view_warnings(warnings@) == w2 + flatten_warnings(notes);
    proof {
        if body is None {
            assert(view_warnings(warnings@) =~= w2 + flatten_warnings(Seq::<Seq<WarningView>>::empty()));
        }
    }
    let ghost w3 = view_warnings(warnings@);
    assert(w3 == w2 + flatten_warnings(notes));
    let entries = section_list(loaded, root);
    let mut sections: Vec<PagesSection> = Vec::new();
    let mut i: usize = 0;
    assert(w3 + missing_section_notes(records, sections@) =~= w3);
    while i < entries.len()
        invariant
            i <= entries@.len(),
            sections@.len() == i,
            records == loaded_view(*loaded).records,
            rv == fields_view(root.fields@),
            sections@.map_values(|s: PagesSection| (s.start_offset, s.id)) == entries@.take(i as int),
            forall|k: int|
                0 <= k < i ==> section_ok(
                    records,
                    rv,
                    flavor,
                    (#[trigger] sections@[k]).id,
                    sections@[k].start_offset,
                    sections@[k],
                ),
            view_warnings(warnings@) == w3 + missing_section_notes(records, sections@),
        decreases entries@.len() - i,
    {
        let (off, sid) = entries[i];
        let ghost before = sections@;
        let s = convert_section(loaded, root, flavor, sid, off, warnings);
        sections.push(s);
        proof {
            assert(sections@.drop_last() =~= before);
            assert(sections@.map_values(|s: PagesSection| (s.start_offset, s.id)) =~= entries@.take(i + 1));
            assert(w3 + missing_section_notes(records, sections@) =~= w3 + missing_section_notes(records, before) + (
            if loaded_msg(records, sid) is None {
                seq![missing_section_warning(sid)]
            } else {
                Seq::<WarningView>::empty()
            }));
        }
        i = i + 1;
    }
    assert(entries@.take(i as int) =~= entries@);
    let d = PagesDocument { flavor, orientation, footnote_placement: placement, body, hidden_body, footnotes, templates, sections };
    assert(view_warnings(warnings@) == w2 + flatten_warnings(notes) + missing_section_notes(records, d.sections@));
    assert(body_notes(*loaded, rv, w0 + vertical_notes(rv), w2));
    d
}

/// A document of app `app` from its root (see `convert_pages`,
/// `convert_numbers`, `convert_keynote`).
pub fn convert_document(loaded: &Loaded, app: AppKind, root: &Msg, warnings: &mut Vec<Warning>) -> (d: Document)
    requires
        ids_consistent(*loaded),
    ensures
        match d {
            Document::Pages(p) => app == AppKind::Pages && pages_ok(*loaded, fields_view(root.fields@), p)
                && pages_warnings_ok(*loaded, fields_view(root.fields@), p, view_warnings(old(warnings)@), view_warnings(final(warnings)@)),
            Document::Numbers(n) => app == AppKind::Numbers && numbers_ok(*loaded, fields_view(root.fields@), n)
                && numbers_warnings_ok(*loaded, fields_view(root.fields@), view_warnings(old(warnings)@), view_warnings(final(warnings)@)),
            Document::Keynote(k) => app == AppKind::Keynote && keynote_ok(*loaded, fields_view(root.fields@), k)
                && keynote_warnings_ok(*loaded, fields_view(root.fields@), view_warnings(old(warnings)@), view_warnings(final(warnings)@)),
        },
{
    match app {
        AppKind::Pages => Document::Pages(convert_pages(loaded, root, warnings)),
        AppKind::Numbers => Document::Numbers(convert_numbers(loaded, root, warnings)),
        AppKind::Keynote => Document::Keynote(convert_keynote(loaded, root, warnings)),
    }
}

} // verus!
