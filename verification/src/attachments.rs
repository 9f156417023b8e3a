//! What a text attachment (the object behind a U+FFFC or footnote anchor)
//! stands for, read from its record's type: a drawable to place, a field,
//! a table of contents, a footnote, or an object of an unmodeled type.
use vstd::prelude::*;
use crate::model::{TocEntry, Warning, WarningCode};
use crate::pb::{Msg, vget, vvarint, vmsg, vall, refs_of, lemma_vall};
use crate::wire::{WireSpec, fields_view};
use crate::loader::{Loaded, Record, loaded_view, RecordView};
use crate::ctx::{loaded_msg, vstring};
use crate::keynote::ref_of;
use crate::cell_formats::string_of;
use crate::numbers::opt_text;
use crate::text_util::{owned, push_str, push_decimal, push_hex, dec, hex};
use crate::{WarningView, view_warning, view_warnings};

verus! {

/// The fields a textual attachment can stand for.
#[derive(Debug, Clone, Copy, PartialEq, Eq, Structural)]
pub enum SimpleField {
    PageNumber,
    PageCount,
    FootnoteMark,
}

/// What an attachment stands for. Offsets are the raw bytes of the
/// attachment's four-byte float fields (3 and 5).
pub enum AttachmentPlan {
    /// Nothing is placed.
    Nothing,
    /// The drawable `drawable_id`, at the given offsets from its anchor.
    Drawable { drawable_id: u64, h_offset: Option<[u8; 4]>, v_offset: Option<[u8; 4]> },
    /// A table of contents: its drawable, offsets, and the entries its
    /// info lists.
    Contents { drawable_id: u64, h_offset: Option<[u8; 4]>, v_offset: Option<[u8; 4]>, entries: Vec<TocEntry> },
    /// A field with its stored text.
    Field { value: Option<String>, kind: SimpleField },
    /// A footnote mark whose body is the text storage `storage_id`.
    Footnote { storage_id: Option<u64> },
    /// An object of a type not modeled here: its type id as `0x…` hex, the
    /// registry's name for it, and why it is recorded as unknown.
    Unknown { type_id: String, registry_name: Option<String>, reason: String },
}

/// A TOC entry as values.
pub struct TocView {
    pub text: Seq<char>,
    pub page_number: Option<u32>,
    pub level: Option<u32>,
    pub paragraph_index: Option<u32>,
}

/// An attachment plan as values.
pub enum PlanView {
    Nothing,
    Drawable(u64, Option<Seq<u8>>, Option<Seq<u8>>),
    Contents(u64, Option<Seq<u8>>, Option<Seq<u8>>, Seq<TocView>),
    Field(Option<Seq<char>>, SimpleField),
    Footnote(Option<u64>),
    Unknown(Seq<char>, Option<Seq<char>>, Seq<char>),
}

pub open spec fn opt_bytes(o: Option<[u8; 4]>) -> Option<Seq<u8>> {
    match o {
        Some(a) => Some(a@),
        None => None,
    }
}

pub open spec fn toc_view(e: TocEntry) -> TocView {
    TocView { text: e.text@, page_number: e.page_number, level: e.level, paragraph_index: e.paragraph_index }
}

pub open spec fn plan_view(p: AttachmentPlan) -> PlanView {
    match p {
        AttachmentPlan::Nothing => PlanView::Nothing,
        AttachmentPlan::Drawable { drawable_id, h_offset, v_offset } => PlanView::Drawable(
            drawable_id,
            opt_bytes(h_offset),
            opt_bytes(v_offset),
        ),
        AttachmentPlan::Contents { drawable_id, h_offset, v_offset, entries } => PlanView::Contents(
            drawable_id,
            opt_bytes(h_offset),
            opt_bytes(v_offset),
            entries@.map_values(|e: TocEntry| toc_view(e)),
        ),
        AttachmentPlan::Field { value, kind } => PlanView::Field(opt_text(value), kind),
        AttachmentPlan::Footnote { storage_id } => PlanView::Footnote(storage_id),
        AttachmentPlan::Unknown { type_id, registry_name, reason } => PlanView::Unknown(
            type_id@,
            opt_text(registry_name),
            reason@,
        ),
    }
}

/// The four-byte field `f` of a message, as its bytes.
pub open spec fn fixed_of(m: Seq<(u32, WireSpec)>, f: u32) -> Option<Seq<u8>> {
    match vget(m, f) {
        Some(WireSpec::Fixed32(b)) => Some(b),
        _ => None,
    }
}

/// A varint field cut to 32 bits.
pub open spec fn u32_of(m: Seq<(u32, WireSpec)>, f: u32) -> Option<u32> {
    match vvarint(m, f) {
        Some(v) => Some(v as u32),
        None => None,
    }
}

/// The entries of a TOC info's entry references (field 3) that name
/// loaded messages: heading text (field 4, else empty), page number (2),
/// level (8) and paragraph index (1).
pub open spec fn toc_entries(records: Map<u64, RecordView>, ids: Seq<u64>) -> Seq<TocView>
    decreases ids.len(),
{
    if ids.len() == 0 {
        Seq::empty()
    } else {
        let rest = toc_entries(records, ids.drop_last());
        match loaded_msg(records, ids.last()) {
            Some(e) => rest.push(
                TocView {
                    text: match vstring(e, 4) {
                        Some(t) => t,
                        None => Seq::empty(),
                    },
                    page_number: u32_of(e, 2),
                    level: u32_of(e, 8),
                    paragraph_index: u32_of(e, 1),
                },
            ),
            None => rest,
        }
    }
}

/// The field kind a textual attachment's kind number gives.
pub open spec fn kind_of(k: u64, textual: bool) -> SimpleField {
    if textual {
        if k == 0 {
            SimpleField::PageNumber
        } else if k == 1 {
            SimpleField::PageCount
        } else {
            SimpleField::FootnoteMark
        }
    } else {
        if k == 1 {
            SimpleField::PageCount
        } else if k == 2 {
            SimpleField::FootnoteMark
        } else {
            SimpleField::PageNumber
        }
    }
}

/// The kind number in a message's super (field 1), field 2 (0 when absent).
pub open spec fn super_kind(m: Option<Seq<(u32, WireSpec)>>) -> u64 {
    match m {
        Some(x) => match vmsg(x, 1) {
            Some(sup) => match vvarint(sup, 2) {
                Some(k) => k,
                None => 0,
            },
            None => 0,
        },
        None => 0,
    }
}

/// Why an attachment of an unmodeled type is recorded as unknown.
pub open spec fn unknown_reason(type_id: u32, name: Option<Seq<char>>) -> Seq<char> {
    "attachment of unmodeled type "@ + match name {
        Some(n) => n,
        None => "type id "@ + dec(type_id as nat),
    } + "; recorded as unknown"@
}

/// What the record `r` of an attachment stands for, by its type: a
/// drawable attachment (2003) its drawable (field 1) and offsets; a
/// textual attachment (2004, 2007, 2009) a field of its kind (field 2:
/// 0 page number, 1 page count, else footnote mark) with its text (field
/// 1); a TOC attachment (2241) its super's drawable and offsets, with the
/// entries of that drawable's info; a TOC page number (2010) a field whose
/// text is field 2 and kind its super's kind (1 page count, 2 footnote
/// mark, else page number); a number attachment (2043) likewise with text
/// from field 3, else 2; a footnote reference (2008) a footnote mark with
/// its storage (field 2); any other type an unknown object. An attachment
/// whose payload did not walk, or names no drawable, stands for nothing.
pub open spec fn plan_of(records: Map<u64, RecordView>, r: RecordView) -> PlanView {
    let t = r.type_id;
    if t == 2003 {
        match r.msg {
            Some(att) => match ref_of(att, 1) {
                Some(did) => PlanView::Drawable(did, fixed_of(att, 3), fixed_of(att, 5)),
                None => PlanView::Nothing,
            },
            None => PlanView::Nothing,
        }
    } else if t == 2004 || t == 2007 || t == 2009 {
        match r.msg {
            Some(att) => PlanView::Field(
                vstring(att, 1),
                kind_of(
                    match vvarint(att, 2) {
                        Some(k) => k,
                        None => 0,
                    },
                    true,
                ),
            ),
            None => PlanView::Nothing,
        }
    } else if t == 2241 {
        match (match r.msg {
            Some(a) => vmsg(a, 1),
            None => None,
        }) {
            Some(att) => match ref_of(att, 1) {
                Some(did) => PlanView::Contents(
                    did,
                    fixed_of(att, 3),
                    fixed_of(att, 5),
                    match loaded_msg(records, did) {
                        Some(info) => toc_entries(records, refs_of(vall(info, 3))),
                        None => Seq::empty(),
                    },
                ),
                None => PlanView::Nothing,
            },
            None => PlanView::Nothing,
        }
    } else if t == 2010 {
        PlanView::Field(
            match r.msg {
                Some(a) => vstring(a, 2),
                None => None,
            },
            kind_of(super_kind(r.msg), false),
        )
    } else if t == 2043 {
        PlanView::Field(
            match r.msg {
                Some(a) => match vstring(a, 3) {
                    Some(s) => Some(s),
                    None => vstring(a, 2),
                },
                None => None,
            },
            kind_of(super_kind(r.msg), false),
        )
    } else if t == 2008 {
        PlanView::Footnote(
            match r.msg {
                Some(a) => ref_of(a, 2),
                None => None,
            },
        )
    } else {
        PlanView::Unknown("0x"@ + hex(t as nat), r.name, unknown_reason(t, r.name))
    }
}

/// The warning for an attachment id that names no record.
pub open spec fn unresolved_attachment(oid: u64) -> WarningView {
    WarningView {
        code: WarningCode::UnresolvedReference,
        message: "attachment reference "@ + dec(oid as nat) + " points nowhere"@,
        path: None,
        detail: Some(dec(oid as nat)),
        count: None,
        paths: None,
    }
}

fn fixed_exec(m: &Msg, f: u32) -> (r: Option<[u8; 4]>)
    ensures
        opt_bytes(r) == fixed_of(fields_view(m.fields@), f),
{
    proof {
        lemma_vall(m.fields@, f);
    }
    m.fixed32(f)
}

fn u32_exec(m: &Msg, f: u32) -> (r: Option<u32>)
    ensures
        r == u32_of(fields_view(m.fields@), f),
{
    proof {
        lemma_vall(m.fields@, f);
    }
    match m.varint(f) {
        Some(v) => Some(v as u32),
        None => None,
    }
}

fn toc_entries_exec(loaded: &Loaded, ids: &Vec<u64>) -> (r: Vec<TocEntry>)
    ensures
        r@.map_values(|e: TocEntry| toc_view(e)) == toc_entries(loaded_view(*loaded).records, ids@),
{
    let ghost recs = loaded_view(*loaded).records;
    let mut out: Vec<TocEntry> = Vec::new();
    let mut i: usize = 0;
    while i < ids.len()
        invariant
            i <= ids@.len(),
            recs == loaded_view(*loaded).records,
            out@.map_values(|e: TocEntry| toc_view(e)) == toc_entries(recs, ids@.take(i as int)),
        decreases ids@.len() - i,
    {
        assert(ids@.take(i + 1).drop_last() =~= ids@.take(i as int));
        assert(ids@.take(i + 1).last() == ids@[i as int]);
        match loaded.msg(ids[i]) {
            Some(e) => {
                let text = match string_of(e, 4) {
                    Some(t) => t,
                    None => String::new(),
                };
                let entry = TocEntry {
                    text,
                    page_number: u32_exec(e, 2),
                    level: u32_exec(e, 8),
                    paragraph_index: u32_exec(e, 1),
                };
                out.push(entry);
                assert(out@.map_values(|e: TocEntry| toc_view(e)) =~= toc_entries(recs, ids@.take(i + 1)));
            },
            None => {},
        }
        i = i + 1;
    }
    assert(ids@.take(i as int) =~= ids@);
    out
}

fn super_kind_exec(m: &Option<Msg>) -> (r: u64)
    ensures
        r == super_kind(
            match m {
                Some(x) => Some(fields_view(x.fields@)),
                None => None,
            },
        ),
{
    match m {
        Some(x) => match x.msg(1) {
            Some(sup) => {
                proof {
                    lemma_vall(sup.fields@, 2);
                }
                match sup.varint(2) {
                    Some(k) => k,
                    None => 0,
                }
            },
            None => 0,
        },
        None => 0,
    }
}

fn kind_exec(k: u64, textual: bool) -> (r: SimpleField)
    ensures
        r == kind_of(k, textual),
{
    if textual {
        if k == 0 {
            SimpleField::PageNumber
        } else if k == 1 {
            SimpleField::PageCount
        } else {
            SimpleField::FootnoteMark
        }
    } else {
        if k == 1 {
            SimpleField::PageCount
        } else if k == 2 {
            SimpleField::FootnoteMark
        } else {
            SimpleField::PageNumber
        }
    }
}

fn copy_name(n: &Option<String>) -> (r: Option<String>)
    ensures
        opt_text(r) == opt_text(*n),
{
    match n {
        Some(s) => Some(owned(s.as_str())),
        None => None,
    }
}

fn plan_of_record(loaded: &Loaded, rec: &Record) -> (r: AttachmentPlan)
    ensures
        plan_view(r) == plan_of(loaded_view(*loaded).records, crate::loader::record_view(*rec)),
{
    let t = rec.type_id;
    if t == 2003 {
        match &rec.msg {
            Some(att) => match att.reference(1) {
                Some(did) => AttachmentPlan::Drawable {
                    drawable_id: did,
                    h_offset: fixed_exec(att, 3),
                    v_offset: fixed_exec(att, 5),
                },
                None => AttachmentPlan::Nothing,
            },
            None => AttachmentPlan::Nothing,
        }
    } else if t == 2004 || t == 2007 || t == 2009 {
        match &rec.msg {
            Some(att) => {
                proof {
                    lemma_vall(att.fields@, 2);
                }
                let k = match att.varint(2) {
                    Some(k) => k,
                    None => 0,
                };
                AttachmentPlan::Field { value: string_of(att, 1), kind: kind_exec(k, true) }
            },
            None => AttachmentPlan::Nothing,
        }
    } else if t == 2241 {
        let att = match &rec.msg {
            Some(a) => a.msg(1),
            None => None,
        };
        match att {
            Some(att) => match att.reference(1) {
                Some(did) => {
                    let entries = match loaded.msg(did) {
                        Some(info) => {
                            let ids = info.references(3);
                            toc_entries_exec(loaded, &ids)
                        },
                        None => Vec::new(),
                    };
                    let ghost ev = entries@.map_values(|e: TocEntry| toc_view(e));
                    assert(ev == match loaded_msg(loaded_view(*loaded).records, did) {
                        Some(info) => toc_entries(loaded_view(*loaded).records, refs_of(vall(info, 3))),
                        None => Seq::<TocView>::empty(),
                    });
                    AttachmentPlan::Contents {
                        drawable_id: did,
                        h_offset: fixed_exec(&att, 3),
                        v_offset: fixed_exec(&att, 5),
                        entries,
                    }
                },
                None => AttachmentPlan::Nothing,
            },
            None => AttachmentPlan::Nothing,
        }
    } else if t == 2010 {
        let value = match &rec.msg {
            Some(a) => string_of(a, 2),
            None => None,
        };
        AttachmentPlan::Field { value, kind: kind_exec(super_kind_exec(&rec.msg), false) }
    } else if t == 2043 {
        let value = match &rec.msg {
            Some(a) => match string_of(a, 3) {
                Some(s) => Some(s),
                None => string_of(a, 2),
            },
            None => None,
        };
        AttachmentPlan::Field { value, kind: kind_exec(super_kind_exec(&rec.msg), false) }
    } else if t == 2008 {
        let storage_id = match &rec.msg {
            Some(a) => a.reference(2),
            None => None,
        };
        AttachmentPlan::Footnote { storage_id }
    } else {
        let mut type_id = owned("0x");
        push_hex(&mut type_id, t as u64);
        let mut reason = owned("attachment of unmodeled type ");
        match &rec.name {
            Some(n) => {
                push_str(&mut reason, n.as_str());
            },
            None => {
                push_str(&mut reason, "type id ");
                push_decimal(&mut reason, t as u64);
            },
        }
        push_str(&mut reason, "; recorded as unknown");
        assert(reason@ =~= unknown_reason(t, opt_text(rec.name)));
        assert(type_id@ =~= "0x"@ + hex(t as nat));
        AttachmentPlan::Unknown { type_id, registry_name: copy_name(&rec.name), reason }
    }
}

/// What the attachment `object_id` stands for (see `plan_of`): nothing
/// when there is no id; nothing, with an unresolved-reference warning,
/// when the id names no record.
pub fn attachment_plan(loaded: &Loaded, object_id: Option<u64>, warnings: &mut Vec<Warning>) -> (r: AttachmentPlan)
    ensures
        match object_id {
            None => plan_view(r) == PlanView::Nothing && final(warnings)@ == old(warnings)@,
            Some(oid) => if loaded_view(*loaded).records.contains_key(oid) {
                plan_view(r) == plan_of(loaded_view(*loaded).records, loaded_view(*loaded).records[oid])
                    && final(warnings)@ == old(warnings)@
            } else {
                plan_view(r) == PlanView::Nothing && view_warnings(final(warnings)@) == view_warnings(
                    old(warnings)@,
                ).push(unresolved_attachment(oid))
            },
        },
{
    let oid = match object_id {
        Some(o) => o,
        None => {
            return AttachmentPlan::Nothing;
        },
    };
    match loaded.record(oid) {
        Some(rec) => plan_of_record(loaded, rec),
        None => {
            let mut m = owned("attachment reference ");
            push_decimal(&mut m, oid);
            push_str(&mut m, " points nowhere");
            let mut d = String::new();
            push_decimal(&mut d, oid);
            assert(d@ =~= dec(oid as nat));
            warnings.push(
                Warning { code: WarningCode::UnresolvedReference, message: m, path: None, detail: Some(d), count: None, paths: None },
            );
            assert(view_warnings(final(warnings)@) =~= view_warnings(old(warnings)@).push(unresolved_attachment(oid)));
            AttachmentPlan::Nothing
        },
    }
}

} // verus!
