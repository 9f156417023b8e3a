//! Pages body text positions.
use vstd::prelude::*;
use crate::text::utf16_len;
use crate::text_util::chars_of;
use std::collections::{BTreeSet, HashMap, HashSet};
use crate::pb::{Msg, vvarint, vmsg, vall, nested_all, refs_of, lemma_vall};
use crate::wire::{WireSpec, fields_view};
use crate::loader::{Loaded, RecordView, loaded_view, ids_consistent, record_view};
use crate::ctx::loaded_msg;
use crate::keynote::ref_of;
use crate::tables::or_default;
use crate::counts::{sorted_ids, sorted_elements_of};
use crate::model::{PagesFlavor, FootnotePlacement};
use vstd::std_specs::iter::IteratorSpec;

verus! {

/// A paragraph break in the body text: newline, section break (U+0004) or
/// page break (U+0005).
pub open spec fn is_break(c: char) -> bool {
    c == '\n' || c == '\u{4}' || c == '\u{5}'
}

/// The paragraph index, within text `t` whose first character sits at
/// UTF-16 offset `acc`, of the position `off`: the breaks before the first
/// character at or after `off`, plus one when that character is a section
/// or page break (its object belongs to the next paragraph).
pub open spec fn para_from(t: Seq<char>, acc: int, off: int) -> int
    decreases t.len(),
{
    if t.len() == 0 {
        0
    } else if acc >= off {
        if t[0] == '\u{4}' || t[0] == '\u{5}' {
            1
        } else {
            0
        }
    } else {
        (if is_break(t[0]) {
            1int
        } else {
            0int
        }) + para_from(t.drop_first(), acc + utf16_len(t[0]), off)
    }
}

pub(crate) proof fn lemma_para_from_bound(t: Seq<char>, acc: int, off: int)
    ensures
        0 <= para_from(t, acc, off) <= t.len(),
    decreases t.len(),
{
    if t.len() > 0 && acc < off {
        lemma_para_from_bound(t.drop_first(), acc + utf16_len(t[0]), off);
    }
}

/// The paragraph index at a UTF-16 offset of the body text.
pub fn para_index_at(text: &str, utf16_off: u64) -> (r: u32)
    requires
        para_from(text@, 0, utf16_off as int) <= u32::MAX,
    ensures
        r == para_from(text@, 0, utf16_off as int),
{
    let v = chars_of(text);
    let mut acc: u128 = 0;
    let mut para: u32 = 0;
    let mut i: usize = 0;
    proof {
        lemma_para_from_bound(text@, 0, utf16_off as int);
        assert(text@.skip(0) =~= text@);
    }
    while i < v.len()
        invariant
            i <= v@.len(),
            v@ == text@,
            para_from(text@, 0, utf16_off as int) <= u32::MAX,
            acc <= 2 * i,
            para + para_from(text@.skip(i as int), acc as int, utf16_off as int) == para_from(
                text@,
                0,
                utf16_off as int,
            ),
        decreases v@.len() - i,
    {
        let ch = v[i];
        assert(text@.skip(i as int)[0] == ch);
        assert(text@.skip(i as int).drop_first() =~= text@.skip(i + 1));
        proof {
            lemma_para_from_bound(text@.skip(i + 1), acc + utf16_len(ch), utf16_off as int);
        }
        if acc >= utf16_off as u128 {
            if ch == '\u{4}' || ch == '\u{5}' {
                para = para + 1;
            }
            return para;
        }
        let w: u128 = if (ch as u32) >= 0x10000 {
            2
        } else {
            1
        };
        acc = acc + w;
        if ch == '\n' || ch == '\u{4}' || ch == '\u{5}' {
            para = para + 1;
        }
        i = i + 1;
    }
    assert(text@.skip(i as int).len() == 0);
    para
}

} // verus!

verus! {

broadcast use {
    vstd::std_specs::hash::group_hash_axioms,
    vstd::std_specs::btree::group_btree_axioms,
    vstd::laws_cmp::group_laws_cmp,
};

/// A varint of the document's settings (the root's field 7).
pub open spec fn settings_varint(records: Map<u64, RecordView>, root: Seq<(u32, WireSpec)>, f: u32) -> Option<u64> {
    match ref_of(root, 7) {
        Some(sid) => match loaded_msg(records, sid) {
            Some(s) => vvarint(s, f),
            None => None,
        },
        None => None,
    }
}

fn settings_varint_exec(loaded: &Loaded, root: &Msg, f: u32) -> (r: Option<u64>)
    ensures
        r == settings_varint(loaded_view(*loaded).records, fields_view(root.fields@), f),
{
    match root.reference(7) {
        Some(sid) => match loaded.msg(sid) {
            Some(s) => {
                proof {
                    lemma_vall(s.fields@, f);
                }
                s.varint(f)
            },
            None => None,
        },
        None => None,
    }
}

/// The flavor a settings body flag (field 1) gives: 0 is page layout;
/// absent or set, word processing.
pub open spec fn flavor_of(v: Option<u64>) -> PagesFlavor {
    if v == Some(0u64) {
        PagesFlavor::PageLayout
    } else {
        PagesFlavor::WordProcessing
    }
}

/// Whether a Pages document is word processing or page layout: its
/// settings' "body" flag (field 1), word processing unless it is 0.
pub fn pages_flavor(loaded: &Loaded, root: &Msg) -> (r: PagesFlavor)
    ensures
        r == flavor_of(settings_varint(loaded_view(*loaded).records, fields_view(root.fields@), 1)),
{
    match settings_varint_exec(loaded, root, 1) {
        Some(0) => PagesFlavor::PageLayout,
        _ => PagesFlavor::WordProcessing,
    }
}

/// The footnote placement a settings footnote kind (field 30) gives: 1
/// document endnotes, 2 section endnotes, anything else page-bottom
/// footnotes (the default, absent).
pub open spec fn placement_of(v: Option<u64>) -> Option<FootnotePlacement> {
    if v == Some(1u64) {
        Some(FootnotePlacement::DocumentEndnotes)
    } else if v == Some(2u64) {
        Some(FootnotePlacement::SectionEndnotes)
    } else {
        None
    }
}

/// Where a Pages document places its footnotes, when not at page bottom.
pub fn footnote_placement(loaded: &Loaded, root: &Msg) -> (r: Option<FootnotePlacement>)
    ensures
        r == placement_of(settings_varint(loaded_view(*loaded).records, fields_view(root.fields@), 30)),
{
    match settings_varint_exec(loaded, root, 30) {
        Some(1) => Some(FootnotePlacement::DocumentEndnotes),
        Some(2) => Some(FootnotePlacement::SectionEndnotes),
        _ => None,
    }
}

fn contains_u64(v: &Vec<u64>, x: u64) -> (r: bool)
    ensures
        r == v@.contains(x),
{
    let mut i: usize = 0;
    while i < v.len()
        invariant
            i <= v@.len(),
            forall|j: int| 0 <= j < i ==> v@[j] != x,
        decreases v@.len() - i,
    {
        if v[i] == x {
            return true;
        }
        i = i + 1;
    }
    false
}

/// The page masters (type 10143) that the listed templates do not name.
pub open spec fn free_masters(records: Map<u64, RecordView>, listed: Seq<u64>) -> Set<u64> {
    Set::new(|id: u64| records.contains_key(id) && records[id].type_id == 10143 && !listed.contains(id))
}

/// `r` lists a Pages document's page templates: those the root lists
/// (field 48), in order, then every other loaded master, ascending.
pub open spec fn template_ids(records: Map<u64, RecordView>, root: Seq<(u32, WireSpec)>, r: Seq<u64>) -> bool {
    &&& r.len() >= refs_of(vall(root, 48)).len()
    &&& r.take(refs_of(vall(root, 48)).len() as int) == refs_of(vall(root, 48))
    &&& sorted_elements_of(r.skip(refs_of(vall(root, 48)).len() as int), free_masters(records, refs_of(vall(root, 48))))
}

/// The page templates of a Pages document, in order: those its root lists
/// (field 48), then every other page master of the document in increasing
/// id order (see `template_ids`).
pub fn template_order(loaded: &Loaded, root: &Msg) -> (r: Vec<u64>)
    requires
        ids_consistent(*loaded),
    ensures
        template_ids(loaded_view(*loaded).records, fields_view(root.fields@), r@),
{
    let ghost records = loaded_view(*loaded).records;
    let mut ids = root.references(48);
    let ghost listed = ids@;
    let ghost m = loaded.records@;
    let ghost kr = vstd::std_specs::hash::spec_keys_iter(&loaded.records).remaining();
    let ghost kv = kr.unref();
    let mut masters: BTreeSet<u64> = BTreeSet::new();
    for k in it: loaded.records.keys()
        invariant
            it.seq() == kr,
            kv == kr.unref(),
            kv.to_set() == m.dom(),
            m == loaded.records@,
            records == loaded_view(*loaded).records,
            ids_consistent(*loaded),
            listed == ids@,
            forall|id: u64|
                #[trigger] masters@.contains(id) <==> (kv.take(it.index() as int).contains(id)
                    && free_masters(records, listed).contains(id)),
    {
        let ghost i = it.index();
        assert(kv[i] == *k);
        assert(kv.to_set().contains(kv[i]));
        assert(kv.take(i + 1) =~= kv.take(i as int).push(*k));
        let ghost set_before = masters@;
        match loaded.record(*k) {
            Some(rec) => {
                assert(rec.id == *k);
                assert(records[*k] == record_view(*rec));
                if rec.type_id == 10143 && !contains_u64(&ids, rec.id) {
                    masters.insert(rec.id);
                }
                proof {
                    let now = kv.take(i + 1);
                    assert(now[i as int] == *k);
                    assert forall|id: u64| #[trigger] masters@.contains(id) <==> (now.contains(id)
                        && free_masters(records, listed).contains(id)) by {
                        if now.contains(id) && id != *k {
                            let j = choose|j: int| 0 <= j < now.len() && now[j] == id;
                            assert(j < i);
                            assert(kv.take(i as int)[j] == id);
                        }
                        if kv.take(i as int).contains(id) {
                            let j = choose|j: int| 0 <= j < i && kv.take(i as int)[j] == id;
                            assert(now[j] == id);
                        }
                    }
                }
            },
            None => {
                assert(false);
            },
        }
    }
    proof {
        assert(kv.take(kv.len() as int) =~= kv);
        assert forall|id: u64| #[trigger] masters@.contains(id) <==> free_masters(records, listed).contains(id) by {
            if free_masters(records, listed).contains(id) {
                assert(m.dom().contains(id));
                assert(kv.to_set().contains(id));
            }
        }
        assert(masters@ =~= free_masters(records, listed));
    }
    let rest = sorted_ids(&masters);
    let mut i: usize = 0;
    while i < rest.len()
        invariant
            i <= rest@.len(),
            ids@ == listed + rest@.take(i as int),
        decreases rest@.len() - i,
    {
        ids.push(rest[i]);
        assert(rest@.take(i + 1) =~= rest@.take(i as int).push(rest@[i as int]));
        i = i + 1;
    }
    assert(rest@.take(i as int) =~= rest@);
    assert(ids@.take(listed.len() as int) =~= listed);
    assert(ids@.skip(listed.len() as int) =~= rest@);
    ids
}

/// The ids in order, each kept at its first occurrence only.
pub open spec fn dedup_first(s: Seq<u64>) -> Seq<u64>
    decreases s.len(),
{
    if s.len() == 0 {
        Seq::empty()
    } else {
        let h = dedup_first(s.drop_last());
        if h.contains(s.last()) {
            h
        } else {
            h.push(s.last())
        }
    }
}

/// The drawables of a floating page group, in conversion order: its
/// drawables (field 4), background (field 2) and foreground (field 3)
/// references, each id once, at its first place.
pub open spec fn group_ids_spec(pg: Seq<(u32, WireSpec)>) -> Seq<u64> {
    dedup_first(refs_of(vall(pg, 4)) + refs_of(vall(pg, 2)) + refs_of(vall(pg, 3)))
}

/// The drawable ids of a floating page group, each once.
pub fn page_group_ids(pg: &Msg) -> (r: Vec<u64>)
    ensures
        r@ == group_ids_spec(fields_view(pg.fields@)),
{
    let a = pg.references(4);
    let b = pg.references(2);
    let c = pg.references(3);
    let ghost whole = a@ + b@ + c@;
    let mut all: Vec<u64> = Vec::new();
    let mut q: usize = 0;
    while q < a.len()
        invariant
            q <= a@.len(),
            all@ == a@.take(q as int),
        decreases a@.len() - q,
    {
        all.push(a[q]);
        assert(a@.take(q + 1) =~= a@.take(q as int).push(a@[q as int]));
        q = q + 1;
    }
    assert(a@.take(q as int) =~= a@);
    q = 0;
    while q < b.len()
        invariant
            q <= b@.len(),
            all@ == a@ + b@.take(q as int),
        decreases b@.len() - q,
    {
        all.push(b[q]);
        assert(b@.take(q + 1) =~= b@.take(q as int).push(b@[q as int]));
        assert(a@ + b@.take(q + 1) =~= (a@ + b@.take(q as int)).push(b@[q as int]));
        q = q + 1;
    }
    assert(b@.take(q as int) =~= b@);
    q = 0;
    while q < c.len()
        invariant
            q <= c@.len(),
            all@ == a@ + b@ + c@.take(q as int),
        decreases c@.len() - q,
    {
        all.push(c[q]);
        assert(c@.take(q + 1) =~= c@.take(q as int).push(c@[q as int]));
        assert(a@ + b@ + c@.take(q + 1) =~= (a@ + b@ + c@.take(q as int)).push(c@[q as int]));
        q = q + 1;
    }
    assert(c@.take(q as int) =~= c@);
    assert(all@ =~= whole);
    let mut seen: HashSet<u64> = HashSet::new();
    let mut out: Vec<u64> = Vec::new();
    let mut i: usize = 0;
    assert(all@.take(0) =~= Seq::<u64>::empty());
    while i < all.len()
        invariant
            i <= all@.len(),
            out@ == dedup_first(all@.take(i as int)),
            forall|x: u64| #[trigger] seen@.contains(x) <==> out@.contains(x),
        decreases all@.len() - i,
    {
        let x = all[i];
        proof {
            assert(all@.take(i + 1).drop_last() =~= all@.take(i as int));
            assert(all@.take(i + 1).last() == x);
        }
        let ghost before = out@;
        let ghost seen_before = seen@;
        if seen.insert(x) {
            out.push(x);
            assert forall|y: u64| #[trigger] seen@.contains(y) <==> out@.contains(y) by {
                if y == x {
                    assert(out@[out@.len() - 1] == x);
                } else {
                    if before.contains(y) {
                        let j = choose|j: int| 0 <= j < before.len() && before[j] == y;
                        assert(out@[j] == y);
                    }
                    if out@.contains(y) {
                        let j = choose|j: int| 0 <= j < out@.len() && out@[j] == y;
                        if j < before.len() {
                            assert(before[j] == y);
                        } else {
                            assert(out@[j] == x);
                        }
                    }
                    assert(seen@.contains(y) == seen_before.contains(y));
                }
            }
        }
        i = i + 1;
    }
    assert(all@.take(i as int) =~= all@);
    out
}

/// The z-order rank of each drawable: its (last) position in the paint
/// order list.
pub open spec fn z_ranks(zorder: Seq<u64>) -> Map<u64, usize>
    decreases zorder.len(),
{
    if zorder.len() == 0 {
        Map::empty()
    } else {
        z_ranks(zorder.drop_last()).insert(zorder.last(), (zorder.len() - 1) as usize)
    }
}

/// The rank of a drawable: its z-order rank, or after every ranked one.
pub open spec fn rank_of(ranks: Map<u64, usize>, id: u64) -> u64 {
    if ranks.contains_key(id) {
        ranks[id] as u64
    } else {
        usize::MAX as u64
    }
}

/// `ord` lists the positions of `keys` ordered by key, equal keys keeping
/// their order (a stable sort).
pub open spec fn stable_by_key(ord: Seq<int>, keys: Seq<u64>) -> bool {
    &&& ord.len() == keys.len()
    &&& forall|t: int| 0 <= t < ord.len() ==> 0 <= #[trigger] ord[t] < keys.len()
    &&& forall|a: int, b: int|
        0 <= a < b < ord.len() ==> keys[#[trigger] ord[a]] < keys[#[trigger] ord[b]] || (keys[ord[a]]
            == keys[ord[b]] && ord[a] < ord[b])
}

/// The positions of `keys` in stable key order.
pub fn stable_positions(keys: &Vec<u64>) -> (r: Vec<usize>)
    ensures
        stable_by_key(r@.map_values(|i: usize| i as int), keys@),
{
    let mut out: Vec<usize> = Vec::new();
    let mut i: usize = 0;
    while i < keys.len()
        invariant
            i <= keys@.len(),
            out@.len() == i,
            forall|t: int| 0 <= t < out@.len() ==> #[trigger] out@[t] < i,
            forall|a: int, b: int|
                0 <= a < b < out@.len() ==> keys@[#[trigger] out@[a] as int] < keys@[#[trigger] out@[b] as int]
                    || (keys@[out@[a] as int] == keys@[out@[b] as int] && out@[a] < out@[b]),
        decreases keys@.len() - i,
    {
        let k = keys[i];
        let mut p: usize = 0;
        while p < out.len() && keys[out[p]] <= k
            invariant
                p <= out@.len(),
                i < keys@.len(),
                k == keys@[i as int],
                forall|t: int| 0 <= t < out@.len() ==> #[trigger] out@[t] < i,
                forall|t: int| 0 <= t < p ==> keys@[#[trigger] out@[t] as int] <= k,
            decreases out@.len() - p,
        {
            p = p + 1;
        }
        let ghost before = out@;
        out.insert(p, i);
        assert forall|t: int| 0 <= t < out@.len() implies #[trigger] out@[t] < i + 1 by {
            if t < p {
                assert(out@[t] == before[t]);
            } else if t > p {
                assert(out@[t] == before[t - 1]);
            }
        }
        assert forall|a: int, b: int| 0 <= a < b < out@.len() implies keys@[#[trigger] out@[a] as int]
            < keys@[#[trigger] out@[b] as int] || (keys@[out@[a] as int] == keys@[out@[b] as int]
            && out@[a] < out@[b]) by {
            if b < p {
                assert(out@[a] == before[a] && out@[b] == before[b]);
            } else if b == p {
                assert(out@[a] == before[a]);
            } else if a == p {
                assert(out@[b] == before[b - 1]);
                if p < before.len() {
                    assert(keys@[before[p as int] as int] > k);
                    if b - 1 > p {
                        assert(before[p as int] == out@[p + 1]);
                    }
                }
            } else if a < p {
                assert(out@[a] == before[a] && out@[b] == before[b - 1]);
            } else {
                assert(out@[a] == before[a - 1] && out@[b] == before[b - 1]);
            }
        }
        i = i + 1;
    }
    out
}

} // verus!

verus! {

/// The paint-order list of a Pages document: the drawables (field 1) of
/// its z-order archive (the root's field 20).
pub open spec fn z_order_spec(records: Map<u64, RecordView>, root: Seq<(u32, WireSpec)>) -> Seq<u64> {
    match ref_of(root, 20) {
        Some(z) => match loaded_msg(records, z) {
            Some(zm) => refs_of(vall(zm, 1)),
            None => Seq::empty(),
        },
        None => Seq::empty(),
    }
}

/// The paint-order list of a Pages document.
pub fn z_order_list(loaded: &Loaded, root: &Msg) -> (r: Vec<u64>)
    ensures
        r@ == z_order_spec(loaded_view(*loaded).records, fields_view(root.fields@)),
{
    match root.reference(20) {
        Some(z) => match loaded.msg(z) {
            Some(zm) => zm.references(1),
            None => Vec::new(),
        },
        None => Vec::new(),
    }
}

/// The ranks of the ids.
pub open spec fn rank_keys(ranks: Map<u64, usize>, ids: Seq<u64>) -> Seq<u64> {
    ids.map_values(|id: u64| rank_of(ranks, id))
}

/// The paint order of a page group's drawables: the positions of `ids`
/// ordered by z-order rank, drawables the list does not rank after all
/// others, equal ranks keeping their order.
pub fn paint_order(zorder: &Vec<u64>, ids: &Vec<u64>) -> (r: Vec<usize>)
    ensures
        stable_by_key(r@.map_values(|i: usize| i as int), rank_keys(z_ranks(zorder@), ids@)),
{
    let mut ranks: HashMap<u64, usize> = HashMap::new();
    let mut i: usize = 0;
    assert(zorder@.take(0) =~= Seq::<u64>::empty());
    while i < zorder.len()
        invariant
            i <= zorder@.len(),
            ranks@ == z_ranks(zorder@.take(i as int)),
        decreases zorder@.len() - i,
    {
        ranks.insert(zorder[i], i);
        proof {
            let t = zorder@.take(i + 1);
            assert(t.drop_last() =~= zorder@.take(i as int));
            assert(t.last() == zorder@[i as int]);
        }
        i = i + 1;
    }
    assert(zorder@.take(i as int) =~= zorder@);
    let mut keys: Vec<u64> = Vec::new();
    let mut j: usize = 0;
    while j < ids.len()
        invariant
            j <= ids@.len(),
            ranks@ == z_ranks(zorder@),
            keys@ == rank_keys(z_ranks(zorder@), ids@.take(j as int)),
        decreases ids@.len() - j,
    {
        let k = match ranks.get(&ids[j]) {
            Some(r) => *r as u64,
            None => usize::MAX as u64,
        };
        keys.push(k);
        assert(rank_keys(z_ranks(zorder@), ids@.take(j + 1)) =~= rank_keys(
            z_ranks(zorder@),
            ids@.take(j as int),
        ).push(k));
        j = j + 1;
    }
    assert(ids@.take(j as int) =~= ids@);
    stable_positions(&keys)
}

/// The (offset, reference) entries of an attribute table (entries in field
/// 1: offset 1, 0 when absent; reference 2), those without a reference
/// left out.
pub open spec fn offset_entries(es: Seq<Seq<(u32, WireSpec)>>) -> Seq<(u64, u64)>
    decreases es.len(),
{
    if es.len() == 0 {
        Seq::empty()
    } else {
        match ref_of(es.last(), 2) {
            Some(id) => offset_entries(es.drop_last()).push((or_default(vvarint(es.last(), 1), 0), id)),
            None => offset_entries(es.drop_last()),
        }
    }
}

/// The offsets of entries.
pub open spec fn offsets(es: Seq<(u64, u64)>) -> Seq<u64> {
    es.map_values(|e: (u64, u64)| e.0)
}

/// `r` is `es` sorted by offset, equal offsets keeping their order.
pub open spec fn sorted_by_offset(r: Seq<(u64, u64)>, es: Seq<(u64, u64)>) -> bool {
    exists|ord: Seq<int>|
        #[trigger] stable_by_key(ord, offsets(es)) && r == ord.map_values(|i: int| es[i])
}

/// An attribute table's entries, by offset.
fn sorted_entries_of(table: &Msg) -> (r: Vec<(u64, u64)>)
    ensures
        sorted_by_offset(r@, offset_entries(nested_all(vall(fields_view(table.fields@), 1)))),
{
    let rows = table.msgs(1);
    let ghost ns = nested_all(vall(fields_view(table.fields@), 1));
    let mut es: Vec<(u64, u64)> = Vec::new();
    let mut i: usize = 0;
    assert(offset_entries(ns.take(0)) =~= Seq::<(u64, u64)>::empty()) by {
        assert(ns.take(0) =~= Seq::<Seq<(u32, WireSpec)>>::empty());
    }
    while i < rows.len()
        invariant
            i <= rows@.len(),
            rows@.len() == ns.len(),
            forall|j: int| 0 <= j < rows@.len() ==> fields_view(#[trigger] rows@[j].fields@) == ns[j],
            es@ == offset_entries(ns.take(i as int)),
        decreases rows@.len() - i,
    {
        proof {
            assert(ns.take(i + 1).drop_last() =~= ns.take(i as int));
            assert(ns.take(i + 1).last() == ns[i as int]);
            lemma_vall(rows@[i as int].fields@, 1);
        }
        let e = &rows[i];
        match e.reference(2) {
            Some(id) => {
                let off = match e.varint(1) {
                    Some(x) => x,
                    None => 0,
                };
                es.push((off, id));
            },
            None => {},
        }
        i = i + 1;
    }
    assert(ns.take(i as int) =~= ns);
    let mut keys: Vec<u64> = Vec::new();
    let mut j: usize = 0;
    while j < es.len()
        invariant
            j <= es@.len(),
            keys@ == offsets(es@.take(j as int)),
        decreases es@.len() - j,
    {
        keys.push(es[j].0);
        assert(offsets(es@.take(j + 1)) =~= offsets(es@.take(j as int)).push(es@[j as int].0));
        j = j + 1;
    }
    assert(es@.take(j as int) =~= es@);
    let ord = stable_positions(&keys);
    let ghost ordv = ord@.map_values(|x: usize| x as int);
    let mut out: Vec<(u64, u64)> = Vec::new();
    let mut t: usize = 0;
    while t < ord.len()
        invariant
            t <= ord@.len(),
            ordv == ord@.map_values(|x: usize| x as int),
            stable_by_key(ordv, offsets(es@)),
            out@ == ordv.take(t as int).map_values(|q: int| es@[q]),
        decreases ord@.len() - t,
    {
        assert(0 <= ordv[t as int] < es@.len());
        out.push(es[ord[t]]);
        assert(ordv.take(t + 1).map_values(|q: int| es@[q]) =~= ordv.take(t as int).map_values(
            |q: int| es@[q],
        ).push(es@[ordv[t as int]]));
        t = t + 1;
    }
    assert(ordv.take(t as int) =~= ordv);
    assert(stable_by_key(ordv, offsets(es@)) && out@ == ordv.map_values(|q: int| es@[q]));
    out
}

/// The entries with a repeated reference left out (the first kept).
pub open spec fn dedup_refs(s: Seq<(u64, u64)>) -> Seq<(u64, u64)>
    decreases s.len(),
{
    if s.len() == 0 {
        Seq::empty()
    } else {
        let h = dedup_refs(s.drop_last());
        if exists|j: int| 0 <= j < h.len() && #[trigger] h[j].1 == s.last().1 {
            h
        } else {
            h.push(s.last())
        }
    }
}

/// The body storage of a Pages document (the root's field 4).
pub open spec fn body_storage(records: Map<u64, RecordView>, root: Seq<(u32, WireSpec)>) -> Option<
    Seq<(u32, WireSpec)>,
> {
    match ref_of(root, 4) {
        Some(b) => loaded_msg(records, b),
        None => None,
    }
}

fn body_storage_exec(loaded: &Loaded, root: &Msg) -> (r: Option<Msg>)
    ensures
        match body_storage(loaded_view(*loaded).records, fields_view(root.fields@)) {
            Some(x) => r matches Some(m) && fields_view(m.fields@) == x,
            None => r is None,
        },
{
    match root.reference(4) {
        Some(b) => match loaded.msg(b) {
            Some(m) => Some(Msg { fields: crate::pb::clone_fields(&m.fields) }),
            None => None,
        },
        None => None,
    }
}

/// `r` lists a Pages document's sections by start offset: the one section
/// the root names (field 5) at offset 0; else the body storage's section
/// table (field 17) sorted by offset (equal offsets in table order), each
/// section once, at its first offset.
pub open spec fn section_entries(records: Map<u64, RecordView>, root: Seq<(u32, WireSpec)>, r: Seq<(u64, u64)>) -> bool {
    match ref_of(root, 5) {
        Some(sid) => r == seq![(0u64, sid)],
        None => match body_storage(records, root) {
            Some(bs) => match vmsg(bs, 17) {
                Some(t) => exists|s: Seq<(u64, u64)>|
                    #[trigger] sorted_by_offset(s, offset_entries(nested_all(vall(t, 1)))) && r == dedup_refs(s),
                None => r.len() == 0,
            },
            None => r.len() == 0,
        },
    }
}

/// The sections of a Pages document, each with the body offset it starts
/// at (see `section_entries`).
pub fn section_list(loaded: &Loaded, root: &Msg) -> (r: Vec<(u64, u64)>)
    ensures
        section_entries(loaded_view(*loaded).records, fields_view(root.fields@), r@),
{
    let mut out: Vec<(u64, u64)> = Vec::new();
    match root.reference(5) {
        Some(sid) => {
            out.push((0, sid));
            return out;
        },
        None => {},
    }
    let bs = match body_storage_exec(loaded, root) {
        Some(bs) => bs,
        None => {
            return out;
        },
    };
    let table = match bs.msg(17) {
        Some(t) => t,
        None => {
            return out;
        },
    };
    let sorted = sorted_entries_of(&table);
    let mut i: usize = 0;
    assert(sorted@.take(0) =~= Seq::<(u64, u64)>::empty());
    while i < sorted.len()
        invariant
            i <= sorted@.len(),
            out@ == dedup_refs(sorted@.take(i as int)),
        decreases sorted@.len() - i,
    {
        let e = sorted[i];
        proof {
            assert(sorted@.take(i + 1).drop_last() =~= sorted@.take(i as int));
            assert(sorted@.take(i + 1).last() == e);
        }
        let mut found = false;
        let mut j: usize = 0;
        while j < out.len()
            invariant
                j <= out@.len(),
                found == exists|q: int| 0 <= q < j && #[trigger] out@[q].1 == e.1,
            decreases out@.len() - j,
        {
            if out[j].1 == e.1 {
                found = true;
            }
            j = j + 1;
        }
        if !found {
            out.push(e);
        }
        i = i + 1;
    }
    assert(sorted@.take(i as int) =~= sorted@);
    out
}

/// The column layouts of a Pages body, by offset: the body storage's
/// layout-style table (field 12).
pub fn layout_list(loaded: &Loaded, root: &Msg) -> (r: Vec<(u64, u64)>)
    ensures
        match body_storage(loaded_view(*loaded).records, fields_view(root.fields@)) {
            Some(bs) => match vmsg(bs, 12) {
                Some(t) => sorted_by_offset(r@, offset_entries(nested_all(vall(t, 1)))),
                None => r@.len() == 0,
            },
            None => r@.len() == 0,
        },
{
    match body_storage_exec(loaded, root) {
        Some(bs) => match bs.msg(12) {
            Some(t) => sorted_entries_of(&t),
            None => Vec::new(),
        },
        None => Vec::new(),
    }
}

/// The reference of the last entry at or before `off`.
pub open spec fn last_at_or_before(es: Seq<(u64, u64)>, off: u64) -> Option<u64>
    decreases es.len(),
{
    if es.len() == 0 {
        None
    } else if es.last().0 <= off {
        Some(es.last().1)
    } else {
        last_at_or_before(es.drop_last(), off)
    }
}

/// The column layout in effect at a body offset: the last layout entry at
/// or before it.
pub fn layout_at(entries: &Vec<(u64, u64)>, off: u64) -> (r: Option<u64>)
    ensures
        r == last_at_or_before(entries@, off),
{
    let mut k: usize = entries.len();
    assert(entries@.take(k as int) =~= entries@);
    while k > 0
        invariant
            k <= entries@.len(),
            last_at_or_before(entries@, off) == last_at_or_before(entries@.take(k as int), off),
        decreases k,
    {
        let e = entries[k - 1];
        proof {
            assert(entries@.take(k as int).last() == e);
            assert(entries@.take(k as int).drop_last() =~= entries@.take(k - 1));
        }
        if e.0 <= off {
            return Some(e.1);
        }
        k = k - 1;
    }
    assert(entries@.take(0) =~= Seq::<(u64, u64)>::empty());
    None
}

/// The template name a page of a section uses: the first page its first
/// page template, even pages (the 2nd, 4th, …) their even page template,
/// each falling back to the odd page template, which other pages use.
pub open spec fn template_name_spec(
    page: int,
    first: Option<Seq<char>>,
    even: Option<Seq<char>>,
    odd: Option<Seq<char>>,
) -> Option<Seq<char>> {
    if page == 0 {
        if first is Some {
            first
        } else {
            odd
        }
    } else if (page + 1) % 2 == 0 {
        if even is Some {
            even
        } else {
            odd
        }
    } else {
        odd
    }
}

fn clone_opt(o: &Option<String>) -> (r: Option<String>)
    ensures
        crate::numbers::opt_text(r) == crate::numbers::opt_text(*o),
{
    match o {
        Some(s) => Some(crate::text_util::owned(s.as_str())),
        None => None,
    }
}

/// The template name page `page` (counted from 0) of a section uses.
pub fn page_template_name(page: usize, first: &Option<String>, even: &Option<String>, odd: &Option<String>) -> (r: Option<String>)
    ensures
        crate::numbers::opt_text(r) == template_name_spec(
            page as int,
            crate::numbers::opt_text(*first),
            crate::numbers::opt_text(*even),
            crate::numbers::opt_text(*odd),
        ),
{
    if page == 0 {
        if first.is_some() {
            clone_opt(first)
        } else {
            clone_opt(odd)
        }
    } else if page % 2 == 1 {
        if even.is_some() {
            clone_opt(even)
        } else {
            clone_opt(odd)
        }
    } else {
        clone_opt(odd)
    }
}

} // verus!

verus! {

/// Deduplication keeps exactly the ids of the list, each once.
pub proof fn lemma_dedup_first(s: Seq<u64>)
    ensures
        dedup_first(s).no_duplicates(),
        forall|x: u64| dedup_first(s).contains(x) <==> s.contains(x),
    decreases s.len(),
{
    if s.len() > 0 {
        let init = s.drop_last();
        lemma_dedup_first(init);
        let h = dedup_first(init);
        assert forall|x: u64| dedup_first(s).contains(x) <==> s.contains(x) by {
            if s.contains(x) && x != s.last() {
                let j = choose|j: int| 0 <= j < s.len() && s[j] == x;
                assert(j < init.len());
                assert(init[j] == x);
            }
            if init.contains(x) {
                let j = choose|j: int| 0 <= j < init.len() && init[j] == x;
                assert(s[j] == x);
            }
            if !h.contains(s.last()) {
                assert(h.push(s.last())[h.len() as int] == s.last());
                if h.push(s.last()).contains(x) && x != s.last() {
                    let j = choose|j: int| 0 <= j < h.push(s.last()).len() && h.push(s.last())[j] == x;
                    assert(h[j] == x);
                }
                if h.contains(x) {
                    let j = choose|j: int| 0 <= j < h.len() && h[j] == x;
                    assert(h.push(s.last())[j] == x);
                }
            }
            assert(s[s.len() - 1] == s.last());
        }
    }
}

/// A stable key order lists every position exactly once.
pub proof fn lemma_stable_order_permutes(ord: Seq<int>, keys: Seq<u64>)
    requires
        stable_by_key(ord, keys),
    ensures
        ord.no_duplicates(),
        forall|p: int| 0 <= p < keys.len() ==> ord.contains(p),
{
    assert forall|a: int, b: int| 0 <= a < ord.len() && 0 <= b < ord.len() && a != b implies ord[a]
        != ord[b] by {
        if a < b {
            assert(keys[ord[a]] < keys[ord[b]] || ord[a] < ord[b]);
        } else {
            assert(keys[ord[b]] < keys[ord[a]] || ord[b] < ord[a]);
        }
    }
    assert forall|p: int| 0 <= p < keys.len() implies ord.contains(p) by {
        lemma_distinct_cover(ord, keys.len() as int, p);
    }
}

/// `n` distinct positions below `n` include every position below `n`.
proof fn lemma_distinct_cover(ord: Seq<int>, n: int, p: int)
    requires
        ord.len() == n,
        ord.no_duplicates(),
        forall|t: int| 0 <= t < ord.len() ==> 0 <= #[trigger] ord[t] < n,
        0 <= p < n,
    ensures
        ord.contains(p),
{
    if !ord.contains(p) {
        let s = ord.to_set();
        let full = Set::new(|x: int| 0 <= x < n && x != p);
        assert(s.subset_of(full));
        vstd::set_lib::lemma_int_range(0, n);
        assert(full =~= vstd::set_lib::set_int_range(0, n).remove(p));
        assert(vstd::set_lib::set_int_range(0, n).contains(p));
        vstd::set_lib::lemma_len_subset(s, full);
        ord.unique_seq_to_set();
        assert(s.len() == n);
        assert(full.len() == n - 1);
    }
}

} // verus!

verus! {

/// A page-orientation field: any non-zero value is landscape.
pub open spec fn orientation_spec(v: Option<u64>) -> Option<crate::model::PageLayoutOrientation> {
    match v {
        Some(x) => Some(
            if x != 0 {
                crate::model::PageLayoutOrientation::Landscape
            } else {
                crate::model::PageLayoutOrientation::Portrait
            },
        ),
        None => None,
    }
}

/// A document's page orientation (root field 42), when stored.
pub fn page_orientation(root: &Msg) -> (r: Option<crate::model::PageLayoutOrientation>)
    ensures
        r == orientation_spec(vvarint(fields_view(root.fields@), 42)),
{
    proof {
        lemma_vall(root.fields@, 42);
    }
    match root.varint(42) {
        Some(x) => Some(
            if x != 0 {
                crate::model::PageLayoutOrientation::Landscape
            } else {
                crate::model::PageLayoutOrientation::Portrait
            },
        ),
        None => None,
    }
}

/// The note for a body laid out vertically (tategaki), which is rendered
/// horizontally.
pub open spec fn vertical_layout_warning() -> crate::WarningView {
    crate::WarningView {
        code: crate::model::WarningCode::UnsupportedFeature,
        message: "document uses vertical text layout (tategaki); rendered horizontally"@,
        path: None,
        detail: None,
        count: None,
        paths: None,
    }
}

/// Note a document whose body lays out vertically (root field 39 is 1).
pub fn note_vertical_layout(root: &Msg, warnings: &mut Vec<crate::model::Warning>)
    ensures
        vvarint(fields_view(root.fields@), 39) == Some(1u64) ==> crate::view_warnings(final(warnings)@)
            == crate::view_warnings(old(warnings)@).push(vertical_layout_warning()),
        vvarint(fields_view(root.fields@), 39) != Some(1u64) ==> final(warnings)@ == old(warnings)@,
{
    proof {
        lemma_vall(root.fields@, 39);
    }
    if root.varint(39) == Some(1u64) {
        let w = crate::model::Warning {
            code: crate::model::WarningCode::UnsupportedFeature,
            message: crate::text_util::owned("document uses vertical text layout (tategaki); rendered horizontally"),
            path: None,
            detail: None,
            count: None,
            paths: None,
        };
        warnings.push(w);
        assert(crate::view_warnings(final(warnings)@) =~= crate::view_warnings(old(warnings)@).push(
            vertical_layout_warning(),
        ));
    }
}

} // verus!
