//! Numbers document identifiers.
use vstd::prelude::*;
use crate::text_util::{push_char, push_str, push_decimal, push_hex, owned, dec, hex};
use crate::pb::{Msg, vget, vvarint, vmsg, vall, refs_of, lemma_vall};
use crate::wire::{WireSpec, fields_view};
use crate::loader::{Loaded, RecordView, loaded_view};
use crate::ctx::{loaded_msg, vstring};
use crate::keynote::ref_of;
use crate::model::{NumbersForm, Warning, WarningCode};
use crate::{WarningView, view_warning};
use std::collections::HashSet;
use vstd::set_lib::lemma_len_subset;

verus! {

/// Upper-case hexadecimal digit of `d`.
pub open spec fn hex_upper(d: int) -> char {
    if d < 10 {
        (48 + d) as char
    } else {
        (55 + d) as char
    }
}

/// A byte as two upper-case hexadecimal digits.
pub open spec fn hex_byte(b: u8) -> Seq<char> {
    seq![hex_upper((b / 16) as int), hex_upper((b % 16) as int)]
}

/// Bytes `from..to` as hexadecimal digits.
pub open spec fn hex_run(b: Seq<u8>, from: int, to: int) -> Seq<char>
    decreases to - from,
{
    if to <= from {
        Seq::empty()
    } else {
        hex_run(b, from, to - 1) + hex_byte(b[to - 1])
    }
}

/// The 16 bytes a CFUUID is written from: its `bytes` when there are
/// exactly 16 of them, else its four words, each as a big-endian 32-bit
/// value, when all four are present.
pub open spec fn cfuuid_bytes(bytes: Option<Seq<u8>>, words: Seq<Option<u64>>) -> Option<Seq<u8>> {
    match bytes {
        Some(b) if b.len() == 16 => Some(b),
        _ => if words[0] is Some && words[1] is Some && words[2] is Some && words[3] is Some {
            Some(
                Seq::new(
                    16,
                    |i: int|
                        {
                            let w = (words[i / 4]->0) as u32 as int;
                            let shift = 24 - 8 * (i % 4);
                            ((w / pow2_u32(shift)) % 256) as u8
                        },
                ),
            )
        } else {
            None
        },
    }
}

/// 2 to the power `k`, for the byte positions of a word.
pub open spec fn pow2_u32(k: int) -> int {
    if k == 24 {
        0x1000000
    } else if k == 16 {
        0x10000
    } else if k == 8 {
        0x100
    } else {
        1
    }
}

/// A CFUUID in its usual text form: 32 upper-case hexadecimal digits in
/// groups of 8-4-4-4-12.
pub open spec fn cfuuid_text(b: Seq<u8>) -> Seq<char> {
    hex_run(b, 0, 4) + seq!['-'] + hex_run(b, 4, 6) + seq!['-'] + hex_run(b, 6, 8) + seq!['-']
        + hex_run(b, 8, 10) + seq!['-'] + hex_run(b, 10, 16)
}

fn push_hex_byte(s: &mut String, b: u8)
    ensures
        final(s)@ == old(s)@ + hex_byte(b),
{
    let hi = b / 16;
    let lo = b % 16;
    let c1 = if hi < 10 {
        (48 + hi) as char
    } else {
        (55 + hi) as char
    };
    let c2 = if lo < 10 {
        (48 + lo) as char
    } else {
        (55 + lo) as char
    };
    push_char(s, c1);
    push_char(s, c2);
    assert(final(s)@ =~= old(s)@ + hex_byte(b));
}

fn push_hex_run(s: &mut String, b: &Vec<u8>, from: usize, to: usize)
    requires
        from <= to <= b@.len(),
    ensures
        final(s)@ == old(s)@ + hex_run(b@, from as int, to as int),
{
    let mut i = from;
    assert(hex_run(b@, from as int, from as int) =~= Seq::<char>::empty());
    while i < to
        invariant
            from <= i <= to <= b@.len(),
            s@ == old(s)@ + hex_run(b@, from as int, i as int),
        decreases to - i,
    {
        push_hex_byte(s, b[i]);
        assert(s@ =~= old(s)@ + hex_run(b@, from as int, i + 1));
        i = i + 1;
    }
}

/// A CFUUID's text form, from its 16 bytes or from its four 32-bit words;
/// `None` when it has neither.
pub fn cfuuid_from_parts(bytes: Option<&[u8]>, words: [Option<u64>; 4]) -> (r: Option<String>)
    ensures
        match cfuuid_bytes(
            match bytes {
                Some(b) => Some(b@),
                None => None,
            },
            words@,
        ) {
            Some(b) => r matches Some(t) && t@ == cfuuid_text(b),
            None => r is None,
        },
{
    let mut raw: Vec<u8> = Vec::new();
    let from_bytes = match bytes {
        Some(b) => b.len() == 16,
        None => false,
    };
    if from_bytes {
        let b = bytes.unwrap();
        let mut i: usize = 0;
        while i < 16
            invariant
                b@.len() == 16,
                i <= 16,
                raw@ == b@.take(i as int),
            decreases 16 - i,
        {
            raw.push(b[i]);
            assert(raw@ =~= b@.take(i + 1));
            i = i + 1;
        }
        assert(raw@ =~= b@);
    } else {
        if words[0].is_none() || words[1].is_none() || words[2].is_none() || words[3].is_none() {
            return None;
        }
        let ghost target = cfuuid_bytes(
            match bytes {
                Some(b) => Some(b@),
                None => None,
            },
            words@,
        )->0;
        let mut i: usize = 0;
        while i < 16
            invariant
                i <= 16,
                words@[0] is Some && words@[1] is Some && words@[2] is Some && words@[3] is Some,
                target == Seq::new(
                    16,
                    |k: int|
                        {
                            let w = (words@[k / 4]->0) as u32 as int;
                            let shift = 24 - 8 * (k % 4);
                            ((w / pow2_u32(shift)) % 256) as u8
                        },
                ),
                raw@ == target.take(i as int),
            decreases 16 - i,
        {
            let w = match words[i / 4] {
                Some(v) => v as u32,
                None => 0,
            };
            let shift = 24 - 8 * (i % 4);
            let div: u32 = if shift == 24 {
                0x1000000
            } else if shift == 16 {
                0x10000
            } else if shift == 8 {
                0x100
            } else {
                1
            };
            raw.push(((w / div) % 256) as u8);
            assert(raw@ =~= target.take(i + 1));
            i = i + 1;
        }
        assert(raw@ =~= target);
    }
    let mut out = String::new();
    push_hex_run(&mut out, &raw, 0, 4);
    push_char(&mut out, '-');
    push_hex_run(&mut out, &raw, 4, 6);
    push_char(&mut out, '-');
    push_hex_run(&mut out, &raw, 6, 8);
    push_char(&mut out, '-');
    push_hex_run(&mut out, &raw, 8, 10);
    push_char(&mut out, '-');
    push_hex_run(&mut out, &raw, 10, 16);
    assert(out@ =~= cfuuid_text(raw@));
    Some(out)
}

} // verus!

verus! {

/// The 16 bytes a CFUUID message holds in field 1, when it does.
pub open spec fn cfuuid_field_bytes(m: Seq<(u32, WireSpec)>) -> Option<Seq<u8>> {
    match vget(m, 1) {
        Some(WireSpec::Bytes(b)) => Some(b),
        _ => None,
    }
}

/// `TSP.CFUUIDArchive` → its text form (`XXXXXXXX-XXXX-XXXX-XXXX-XXXXXXXXXXXX`),
/// from its 16 bytes (field 1) or from its four 32-bit words (fields 2 to 5);
/// `None` when it has neither.
pub fn cfuuid_string(u: Msg) -> (r: Option<String>)
    ensures
        match cfuuid_bytes(
            cfuuid_field_bytes(fields_view(u.fields@)),
            seq![
                vvarint(fields_view(u.fields@), 2),
                vvarint(fields_view(u.fields@), 3),
                vvarint(fields_view(u.fields@), 4),
                vvarint(fields_view(u.fields@), 5),
            ],
        ) {
            Some(b) => r matches Some(t) && t@ == cfuuid_text(b),
            None => r is None,
        },
{
    proof {
        lemma_vall(u.fields@, 1);
        lemma_vall(u.fields@, 2);
        lemma_vall(u.fields@, 3);
        lemma_vall(u.fields@, 4);
        lemma_vall(u.fields@, 5);
    }
    let words = [u.varint(2), u.varint(3), u.varint(4), u.varint(5)];
    assert(words@ =~= seq![
        vvarint(fields_view(u.fields@), 2),
        vvarint(fields_view(u.fields@), 3),
        vvarint(fields_view(u.fields@), 4),
        vvarint(fields_view(u.fields@), 5),
    ]);
    cfuuid_from_parts(u.bytes(1), words)
}

} // verus!

verus! {

/// What one object the document root lists (field 1) is.
pub enum RootEntry {
    /// A sheet (`TN.SheetArchive`), by id.
    Sheet(u64),
    /// A form-based sheet, recorded with the sheet it sits on and the table
    /// it is bound to.
    Form(NumbersForm),
    /// Any other object, by its type id (0 when it is not loaded).
    Unmodeled(u32),
}

/// The mathematical value of a root entry.
pub enum RootEntryView {
    Sheet(u64),
    Form(Option<Seq<char>>, Option<Seq<char>>),
    Unmodeled(u32),
}

pub open spec fn opt_text(o: Option<String>) -> Option<Seq<char>> {
    match o {
        Some(s) => Some(s@),
        None => None,
    }
}

pub open spec fn root_entry_view(e: RootEntry) -> RootEntryView {
    match e {
        RootEntry::Sheet(id) => RootEntryView::Sheet(id),
        RootEntry::Form(f) => RootEntryView::Form(opt_text(f.sheet_name), opt_text(f.bound_table_name)),
        RootEntry::Unmodeled(t) => RootEntryView::Unmodeled(t),
    }
}

/// The name of the sheet a form sits on: the name (field 1) of its inline
/// sheet (field 1), or else of the sheet that field references.
pub open spec fn form_sheet_name(records: Map<u64, RecordView>, m: Seq<(u32, WireSpec)>) -> Option<Seq<char>> {
    match (match vmsg(m, 1) {
        Some(s) => vstring(s, 1),
        None => None,
    }) {
        Some(x) => Some(x),
        None => match ref_of(m, 1) {
            Some(id) => match loaded_msg(records, id) {
                Some(s) => vstring(s, 1),
                None => None,
            },
            None => None,
        },
    }
}

/// The table a form is bound to: the text of its CFUUID (field 2).
pub open spec fn form_table(m: Seq<(u32, WireSpec)>) -> Option<Seq<char>> {
    match vmsg(m, 2) {
        Some(u) => match cfuuid_bytes(
            cfuuid_field_bytes(u),
            seq![vvarint(u, 2), vvarint(u, 3), vvarint(u, 4), vvarint(u, 5)],
        ) {
            Some(b) => Some(cfuuid_text(b)),
            None => None,
        },
        None => None,
    }
}

/// What the object `sid` is: a sheet (type 2), a form (type 3, when
/// loaded; an unloaded form is passed over), anything else unmodeled.
pub open spec fn root_entry(records: Map<u64, RecordView>, sid: u64) -> Option<RootEntryView> {
    let t: u32 = if records.contains_key(sid) {
        records[sid].type_id
    } else {
        0
    };
    if t == 3 {
        match loaded_msg(records, sid) {
            Some(m) => Some(RootEntryView::Form(form_sheet_name(records, m), form_table(m))),
            None => None,
        }
    } else if t == 2 {
        Some(RootEntryView::Sheet(sid))
    } else {
        Some(RootEntryView::Unmodeled(t))
    }
}

/// The entries of the listed objects, in order.
pub open spec fn root_entries_of(records: Map<u64, RecordView>, ids: Seq<u64>) -> Seq<RootEntryView>
    decreases ids.len(),
{
    if ids.len() == 0 {
        Seq::empty()
    } else {
        match root_entry(records, ids.last()) {
            Some(e) => root_entries_of(records, ids.drop_last()).push(e),
            None => root_entries_of(records, ids.drop_last()),
        }
    }
}

fn string_field(m: &Msg, n: u32) -> (r: Option<String>)
    ensures
        opt_text(r) == vstring(fields_view(m.fields@), n),
{
    proof {
        lemma_vall(m.fields@, n);
    }
    m.string(n)
}

fn form_of(loaded: &Loaded, m: &Msg) -> (r: NumbersForm)
    ensures
        opt_text(r.sheet_name) == form_sheet_name(loaded_view(*loaded).records, fields_view(m.fields@)),
        opt_text(r.bound_table_name) == form_table(fields_view(m.fields@)),
{
    let inline = match m.msg(1) {
        Some(s) => string_field(&s, 1),
        None => None,
    };
    let sheet_name = match inline {
        Some(x) => Some(x),
        None => match m.reference(1) {
            Some(id) => match loaded.msg(id) {
                Some(s) => string_field(s, 1),
                None => None,
            },
            None => None,
        },
    };
    let bound_table_name = match m.msg(2) {
        Some(u) => cfuuid_string(u),
        None => None,
    };
    NumbersForm { sheet_name, bound_table_name }
}

/// What each object the document root lists (field 1) is, in order: the
/// sheets to convert, the forms to record, the unmodeled objects to warn of.
pub fn root_entries(loaded: &Loaded, root: &Msg) -> (r: Vec<RootEntry>)
    ensures
        r@.map_values(|e: RootEntry| root_entry_view(e)) == root_entries_of(
            loaded_view(*loaded).records,
            refs_of(vall(fields_view(root.fields@), 1)),
        ),
{
    let ghost records = loaded_view(*loaded).records;
    let ids = root.references(1);
    let ghost iv = ids@;
    let mut out: Vec<RootEntry> = Vec::new();
    let mut i: usize = 0;
    assert(out@.map_values(|e: RootEntry| root_entry_view(e)) =~= root_entries_of(records, iv.take(0))) by {
        assert(iv.take(0) =~= Seq::<u64>::empty());
    }
    while i < ids.len()
        invariant
            i <= ids@.len(),
            iv == ids@,
            records == loaded_view(*loaded).records,
            out@.map_values(|e: RootEntry| root_entry_view(e)) == root_entries_of(records, iv.take(i as int)),
        decreases ids@.len() - i,
    {
        let sid = ids[i];
        let ghost before = out@;
        proof {
            assert(iv.take(i + 1).drop_last() =~= iv.take(i as int));
            assert(iv.take(i + 1).last() == sid);
        }
        let t: u32 = match loaded.record(sid) {
            Some(rec) => rec.type_id,
            None => 0,
        };
        if t == 3 {
            match loaded.msg(sid) {
                Some(m) => {
                    let f = form_of(loaded, m);
                    out.push(RootEntry::Form(f));
                    assert(out@.map_values(|e: RootEntry| root_entry_view(e)) =~= before.map_values(
                        |e: RootEntry| root_entry_view(e),
                    ).push(root_entry_view(RootEntry::Form(f))));
                },
                None => {},
            }
        } else if t == 2 {
            out.push(RootEntry::Sheet(sid));
            assert(out@.map_values(|e: RootEntry| root_entry_view(e)) =~= before.map_values(
                |e: RootEntry| root_entry_view(e),
            ).push(RootEntryView::Sheet(sid)));
        } else {
            out.push(RootEntry::Unmodeled(t));
            assert(out@.map_values(|e: RootEntry| root_entry_view(e)) =~= before.map_values(
                |e: RootEntry| root_entry_view(e),
            ).push(RootEntryView::Unmodeled(t)));
        }
        i = i + 1;
    }
    assert(iv.take(i as int) =~= iv);
    out
}

/// The warning for an object on the document root that is neither a sheet
/// nor a form.
pub open spec fn unmodeled_warning(t: u32) -> WarningView {
    WarningView {
        code: WarningCode::UnsupportedFeature,
        message: "unmodeled sheet-like object (type id "@ + dec(t as nat) + ") on document root"@,
        path: None,
        detail: Some("0x"@ + hex(t as nat)),
        count: None,
        paths: None,
    }
}

/// The warning for an unmodeled object of type `t` on the document root.
pub fn unmodeled_sheet_warning(t: u32) -> (w: Warning)
    ensures
        view_warning(w) == unmodeled_warning(t),
{
    let mut m = owned("unmodeled sheet-like object (type id ");
    push_decimal(&mut m, t as u64);
    push_str(&mut m, ") on document root");
    let mut d = owned("0x");
    push_hex(&mut d, t as u64);
    assert(m@ =~= unmodeled_warning(t).message);
    assert(d@ =~= "0x"@ + hex(t as nat));
    Warning { code: WarningCode::UnsupportedFeature, message: m, path: None, detail: Some(d), count: None, paths: None }
}

} // verus!

verus! {

broadcast use vstd::std_specs::hash::group_hash_axioms;

/// The parent of a sheet style: field 3 of its inline super style (field
/// 1), or else its own field 3.
pub open spec fn sheet_style_parent(sm: Seq<(u32, WireSpec)>) -> Option<u64> {
    match (match vmsg(sm, 1) {
        Some(b) => ref_of(b, 3),
        None => None,
    }) {
        Some(p) => Some(p),
        None => ref_of(sm, 3),
    }
}

/// The sheet properties (field 3) along the parent chain from style `id`,
/// nearest first, the styles in `seen` already passed: the chain stops at a
/// style met before or not loaded, or one without a parent.
pub open spec fn props_chain(records: Map<u64, RecordView>, id: u64, seen: Set<u64>) -> Seq<
    Seq<(u32, WireSpec)>,
>
    decreases records.dom().len() - seen.len(),
    when seen.subset_of(records.dom()) && records.dom().finite()
{
    if seen.contains(id) {
        Seq::empty()
    } else {
        match loaded_msg(records, id) {
            None => Seq::empty(),
            Some(sm) => {
                let head = match vmsg(sm, 3) {
                    Some(p) => seq![p],
                    None => Seq::empty(),
                };
                match sheet_style_parent(sm) {
                    Some(p) => {
                        proof {
                            lemma_len_subset(seen, records.dom());
                            lemma_len_subset(seen.insert(id), records.dom());
                        }
                        head + props_chain(records, p, seen.insert(id))
                    },
                    None => head,
                }
            },
        }
    }
}

/// The sheet properties a sheet style has, its own first, then those it
/// inherits along its parent chain.
pub fn sheet_style_props(loaded: &Loaded, stid: u64) -> (r: Vec<Msg>)
    ensures
        r@.len() == props_chain(loaded_view(*loaded).records, stid, Set::empty()).len(),
        forall|i: int|
            0 <= i < r@.len() ==> fields_view(#[trigger] r@[i].fields@) == props_chain(
                loaded_view(*loaded).records,
                stid,
                Set::empty(),
            )[i],
{
    let ghost records = loaded_view(*loaded).records;
    let ghost whole = props_chain(records, stid, Set::empty());
    proof {
        assert(records.dom() =~= loaded.records@.dom());
        assert(loaded.records@.dom().finite());
    }
    let mut props: Vec<Msg> = Vec::new();
    let mut seen: HashSet<u64> = HashSet::new();
    let mut cur = stid;
    loop
        invariant
            records == loaded_view(*loaded).records,
            records.dom().finite(),
            seen@.subset_of(records.dom()),
            whole == props_chain(records, stid, Set::empty()),
            props@.len() + props_chain(records, cur, seen@).len() == whole.len(),
            forall|i: int| 0 <= i < props@.len() ==> fields_view(#[trigger] props@[i].fields@) == whole[i],
            forall|i: int|
                0 <= i < props_chain(records, cur, seen@).len() ==> #[trigger] props_chain(records, cur, seen@)[i]
                    == whole[props@.len() + i],
        decreases records.dom().len() - seen@.len(),
    {
        let ghost before = seen@;
        let ghost rest = props_chain(records, cur, before);
        proof {
            lemma_len_subset(before, records.dom());
        }
        if !seen.insert(cur) {
            assert(rest.len() == 0);
            return props;
        }
        let sm = match loaded.msg(cur) {
            Some(sm) => sm,
            None => {
                assert(rest.len() == 0);
                return props;
            },
        };
        proof {
            lemma_vall(sm.fields@, 1);
            lemma_vall(sm.fields@, 3);
            lemma_len_subset(seen@, records.dom());
        }
        let ghost smv = fields_view(sm.fields@);
        let ghost start = props@;
        match sm.msg(3) {
            Some(p) => {
                props.push(p);
                assert forall|i: int| 0 <= i < props@.len() implies fields_view(#[trigger] props@[i].fields@) == whole[i] by {
                    if i < start.len() {
                        assert(props@[i] == start[i]);
                    } else {
                        assert(rest[0] == whole[start.len() as int]);
                    }
                }
            },
            None => {},
        }
        let parent = match sm.msg(1) {
            Some(b) => b.reference(3),
            None => None,
        };
        let parent = match parent {
            Some(p) => Some(p),
            None => sm.reference(3),
        };
        assert(parent == sheet_style_parent(smv));
        match parent {
            Some(p) => {
                proof {
                    let head = match vmsg(smv, 3) {
                        Some(x) => seq![x],
                        None => Seq::<Seq<(u32, WireSpec)>>::empty(),
                    };
                    assert(rest == head + props_chain(records, p, seen@));
                    assert forall|i: int| 0 <= i < props_chain(records, p, seen@).len() implies #[trigger] props_chain(records, p, seen@)[i]
                        == whole[props@.len() + i] by {
                        assert(rest[head.len() + i] == props_chain(records, p, seen@)[i]);
                    }
                }
                cur = p;
            },
            None => {
                return props;
            },
        }
    }
}

/// The first message under field `f` among the properties.
pub open spec fn first_prop(props: Seq<Seq<(u32, WireSpec)>>, f: u32) -> Option<Seq<(u32, WireSpec)>>
    decreases props.len(),
{
    if props.len() == 0 {
        None
    } else {
        match vmsg(props[0], f) {
            Some(x) => Some(x),
            None => first_prop(props.drop_first(), f),
        }
    }
}

/// The canvas fill (field 1) and tab color (field 2) a sheet style gives,
/// each the nearest along its parent chain.
pub fn sheet_style_fills(loaded: &Loaded, stid: u64) -> (r: (Option<Msg>, Option<Msg>))
    ensures
        match first_prop(props_chain(loaded_view(*loaded).records, stid, Set::empty()), 1) {
            Some(x) => r.0 matches Some(m) && fields_view(m.fields@) == x,
            None => r.0 is None,
        },
        match first_prop(props_chain(loaded_view(*loaded).records, stid, Set::empty()), 2) {
            Some(x) => r.1 matches Some(m) && fields_view(m.fields@) == x,
            None => r.1 is None,
        },
{
    let props = sheet_style_props(loaded, stid);
    assert(props@.map_values(|m: Msg| fields_view(m.fields@)) =~= props_chain(
        loaded_view(*loaded).records,
        stid,
        Set::empty(),
    ));
    (first_prop_exec(&props, 1), first_prop_exec(&props, 2))
}

fn first_prop_exec(props: &Vec<Msg>, f: u32) -> (r: Option<Msg>)
    ensures
        match first_prop(props@.map_values(|m: Msg| fields_view(m.fields@)), f) {
            Some(x) => r matches Some(m) && fields_view(m.fields@) == x,
            None => r is None,
        },
{
    let ghost pv = props@.map_values(|m: Msg| fields_view(m.fields@));
    let mut i: usize = 0;
    assert(pv.subrange(0, pv.len() as int) =~= pv);
    while i < props.len()
        invariant
            i <= props@.len(),
            pv == props@.map_values(|m: Msg| fields_view(m.fields@)),
            first_prop(pv, f) == first_prop(pv.subrange(i as int, pv.len() as int), f),
        decreases props@.len() - i,
    {
        proof {
            let rest = pv.subrange(i as int, pv.len() as int);
            assert(rest[0] == fields_view(props@[i as int].fields@));
            assert(rest.drop_first() =~= pv.subrange(i + 1, pv.len() as int));
        }
        match props[i].msg(f) {
            Some(x) => {
                return Some(x);
            },
            None => {},
        }
        i = i + 1;
    }
    None
}

} // verus!
