//! Numbers category grouping ("Organize by" a column), the parts that are
//! ids and indices: which grouping is on, which columns it groups and
//! summarizes, how group nodes find their children and the model rows they
//! cover.
use vstd::prelude::*;
use std::collections::HashMap;
use crate::pb::{Msg, WireValue, vvarint, vmsg, vall, nested_all, refs_of, packed_of, lemma_vall, clone_fields};
use crate::wire::{WireSpec, fields_view, value_view};
use crate::loader::{Loaded, RecordView, loaded_view};
use crate::ctx::loaded_msg;
use crate::formulas::{uuid_u128, uuid_of_msg};
use crate::keynote::{ref_of, bool_of};
use crate::tables::or_default;
use crate::model::GroupAggregate;

verus! {

broadcast use vstd::std_specs::hash::group_hash_axioms;

/// The payloads that are single varints.
pub open spec fn direct_varints(vs: Seq<WireSpec>) -> Seq<u64>
    decreases vs.len(),
{
    if vs.len() == 0 {
        Seq::empty()
    } else {
        match vs.last() {
            WireSpec::Varint(x) => direct_varints(vs.drop_last()).push(x),
            _ => direct_varints(vs.drop_last()),
        }
    }
}

/// A repeated varint field: its single varints, or when it has none, its
/// packed runs.
pub open spec fn varints_of(m: Seq<(u32, WireSpec)>, n: u32) -> Seq<u64> {
    if direct_varints(vall(m, n)).len() > 0 {
        direct_varints(vall(m, n))
    } else {
        packed_of(vall(m, n))
    }
}

/// The values of a repeated varint field, written one by one or packed.
pub fn varints(m: &Msg, n: u32) -> (r: Vec<u64>)
    ensures
        r@ == varints_of(fields_view(m.fields@), n),
{
    let occurrences = m.all(n);
    proof {
        lemma_vall(m.fields@, n);
    }
    let ghost vs = vall(fields_view(m.fields@), n);
    let mut direct: Vec<u64> = Vec::new();
    let mut i: usize = 0;
    while i < occurrences.len()
        invariant
            i <= occurrences@.len(),
            occurrences@.len() == vs.len(),
            forall|j: int| 0 <= j < occurrences@.len() ==> value_view(*#[trigger] occurrences@[j]) == vs[j],
            direct@ == direct_varints(vs.take(i as int)),
        decreases occurrences@.len() - i,
    {
        proof {
            assert(vs.take(i + 1).drop_last() =~= vs.take(i as int));
            assert(vs.take(i + 1).last() == vs[i as int]);
        }
        match occurrences[i] {
            WireValue::Varint(x) => {
                direct.push(*x);
            },
            _ => {},
        }
        i = i + 1;
    }
    assert(vs.take(i as int) =~= vs);
    if direct.len() == 0 {
        m.packed_varints(n)
    } else {
        direct
    }
}

/// The uuids among the messages, those that do not read as one left out.
pub open spec fn uuids_of(ms: Seq<Seq<(u32, WireSpec)>>) -> Seq<u128>
    decreases ms.len(),
{
    if ms.len() == 0 {
        Seq::empty()
    } else {
        match uuid_of_msg(Some(ms.last())) {
            Some(u) => uuids_of(ms.drop_last()).push(u),
            None => uuids_of(ms.drop_last()),
        }
    }
}

/// The uuids of a repeated message field.
fn uuids(m: &Msg, n: u32) -> (r: Vec<u128>)
    ensures
        r@ == uuids_of(nested_all(vall(fields_view(m.fields@), n))),
{
    let ms = m.msgs(n);
    let ghost mv = nested_all(vall(fields_view(m.fields@), n));
    let mut out: Vec<u128> = Vec::new();
    let mut i: usize = 0;
    while i < ms.len()
        invariant
            i <= ms@.len(),
            ms@.len() == mv.len(),
            forall|j: int| 0 <= j < ms@.len() ==> fields_view(#[trigger] ms@[j].fields@) == mv[j],
            out@ == uuids_of(mv.take(i as int)),
        decreases ms@.len() - i,
    {
        proof {
            assert(mv.take(i + 1).drop_last() =~= mv.take(i as int));
            assert(mv.take(i + 1).last() == mv[i as int]);
        }
        match uuid_u128(&ms[i]) {
            Some(u) => {
                out.push(u);
            },
            None => {},
        }
        i = i + 1;
    }
    assert(mv.take(i as int) =~= mv);
    out
}

/// A map with the pairs inserted in order (a later pair replaces an
/// earlier one of the same uuid).
pub open spec fn insert_pairs(m: Map<u128, u32>, ps: Seq<(u128, u32)>) -> Map<u128, u32>
    decreases ps.len(),
{
    if ps.len() == 0 {
        m
    } else {
        insert_pairs(m, ps.drop_last()).insert(ps.last().0, ps.last().1)
    }
}

/// The uuids of one field paired, position by position, with the indices
/// of another, as far as both go.
pub open spec fn uid_pairs(m: Seq<(u32, WireSpec)>, uid_field: u32, index_field: u32) -> Seq<(u128, u32)> {
    let us = uuids_of(nested_all(vall(m, uid_field)));
    let xs = varints_of(m, index_field);
    Seq::new(
        if us.len() < xs.len() {
            us.len()
        } else {
            xs.len()
        },
        |i: int| (us[i], xs[i] as u32),
    )
}

/// uuid → model index, from a column/row uid map: the uuids of
/// `uid_field` paired with the indices of `index_field`.
pub fn uid_index_map(m: &Msg, uid_field: u32, index_field: u32) -> (r: HashMap<u128, u32>)
    ensures
        r@ == insert_pairs(Map::empty(), uid_pairs(fields_view(m.fields@), uid_field, index_field)),
{
    let us = uuids(m, uid_field);
    let xs = varints(m, index_field);
    let ghost ps = uid_pairs(fields_view(m.fields@), uid_field, index_field);
    let n = if us.len() < xs.len() {
        us.len()
    } else {
        xs.len()
    };
    let mut out: HashMap<u128, u32> = HashMap::new();
    let mut i: usize = 0;
    assert(ps.take(0) =~= Seq::<(u128, u32)>::empty());
    while i < n
        invariant
            i <= n,
            n == ps.len(),
            n <= us@.len(),
            n <= xs@.len(),
            forall|j: int| 0 <= j < n ==> #[trigger] ps[j] == (us@[j], xs@[j] as u32),
            out@ == insert_pairs(Map::empty(), ps.take(i as int)),
        decreases n - i,
    {
        proof {
            assert(ps.take(i + 1).drop_last() =~= ps.take(i as int));
            assert(ps.take(i + 1).last() == ps[i as int]);
        }
        out.insert(us[i], xs[i] as u32);
        i = i + 1;
    }
    assert(ps.take(i as int) =~= ps);
    out
}

/// A cell coordinate (packed data 1, column 2, row 3, each 0 when absent)
/// as a key.
pub fn coord_key(c: &Msg) -> (r: (u64, u64, u64))
    ensures
        r == (
            or_default(vvarint(fields_view(c.fields@), 1), 0),
            or_default(vvarint(fields_view(c.fields@), 2), 0),
            or_default(vvarint(fields_view(c.fields@), 3), 0),
        ),
{
    proof {
        lemma_vall(c.fields@, 1);
        lemma_vall(c.fields@, 2);
        lemma_vall(c.fields@, 3);
    }
    (
        match c.varint(1) {
            Some(x) => x,
            None => 0,
        },
        match c.varint(2) {
            Some(x) => x,
            None => 0,
        },
        match c.varint(3) {
            Some(x) => x,
            None => 0,
        },
    )
}

/// `s` is in ascending order.
pub open spec fn ascending(s: Seq<u32>) -> bool {
    forall|a: int, b: int| 0 <= a < b < s.len() ==> #[trigger] s[a] <= #[trigger] s[b]
}

fn insert_ascending(out: &mut Vec<u32>, x: u32)
    requires
        ascending(old(out)@),
    ensures
        ascending(final(out)@),
        final(out)@.to_multiset() == old(out)@.to_multiset().insert(x),
{
    let mut p: usize = 0;
    while p < out.len() && out[p] <= x
        invariant
            p <= out@.len(),
            forall|k: int| 0 <= k < p ==> #[trigger] out@[k] <= x,
        decreases out@.len() - p,
    {
        p = p + 1;
    }
    let ghost before = out@;
    proof {
        vstd::seq_lib::to_multiset_insert(before, p as int, x);
    }
    out.insert(p, x);
    assert forall|a: int, b: int| 0 <= a < b < out@.len() implies #[trigger] out@[a] <= #[trigger] out@[b] by {
        let a0 = if a < p { a } else { a - 1 };
        let b0 = if b < p { b } else { b - 1 };
        if a != p as int {
            assert(out@[a] == before[a0]);
        }
        if b != p as int {
            assert(out@[b] == before[b0]);
        }
    }
}

/// The values in ascending order.
fn sort_ascending(v: &Vec<u32>) -> (r: Vec<u32>)
    ensures
        ascending(r@),
        r@.to_multiset() == v@.to_multiset(),
{
    let mut out: Vec<u32> = Vec::new();
    let mut i: usize = 0;
    proof {
        assert(v@.take(0) =~= Seq::<u32>::empty());
        assert(out@ =~= Seq::<u32>::empty());
    }
    while i < v.len()
        invariant
            i <= v@.len(),
            ascending(out@),
            out@.to_multiset() == v@.take(i as int).to_multiset(),
        decreases v@.len() - i,
    {
        insert_ascending(&mut out, v[i]);
        proof {
            assert(v@.take(i + 1) =~= v@.take(i as int).push(v@[i as int]));
            vstd::seq_lib::to_multiset_build(v@.take(i as int), v@[i as int]);
        }
        i = i + 1;
    }
    assert(v@.take(i as int) =~= v@);
    out
}

/// The model rows of lookup positions `lo` to `hi` (inclusive): each
/// position that names a row uid the table knows.
pub open spec fn range_rows(lookup: Seq<u128>, ri: Map<u128, u32>, lo: int, hi: int) -> Seq<u32>
    decreases hi - lo + 1,
{
    if hi < lo {
        Seq::empty()
    } else {
        range_rows(lookup, ri, lo, hi - 1) + if 0 <= hi < lookup.len() && ri.contains_key(lookup[hi]) {
            seq![ri[lookup[hi]]]
        } else {
            Seq::empty()
        }
    }
}

/// The rows of one index-set entry: its inclusive range of lookup positions
/// (begin 1, end 2, the end defaulting to the begin).
pub open spec fn entry_rows(e: Seq<(u32, WireSpec)>, lookup: Seq<u128>, ri: Map<u128, u32>) -> Seq<u32> {
    match vvarint(e, 1) {
        Some(b) => range_rows(lookup, ri, b as int, or_default(vvarint(e, 2), b) as int),
        None => Seq::empty(),
    }
}

/// The rows of index-set entries, entry after entry.
pub open spec fn set_rows(es: Seq<Seq<(u32, WireSpec)>>, lookup: Seq<u128>, ri: Map<u128, u32>) -> Seq<u32>
    decreases es.len(),
{
    if es.len() == 0 {
        Seq::empty()
    } else {
        set_rows(es.drop_last(), lookup, ri) + entry_rows(es.last(), lookup, ri)
    }
}

/// The rows of row-uid messages the table knows.
pub open spec fn uid_rows(us: Seq<Seq<(u32, WireSpec)>>, ri: Map<u128, u32>) -> Seq<u32>
    decreases us.len(),
{
    if us.len() == 0 {
        Seq::empty()
    } else {
        match uuid_of_msg(Some(us.last())) {
            Some(u) => if ri.contains_key(u) {
                uid_rows(us.drop_last(), ri).push(ri[u])
            } else {
                uid_rows(us.drop_last(), ri)
            },
            None => uid_rows(us.drop_last(), ri),
        }
    }
}

/// The model rows a group node covers, before sorting: through its row
/// lookup index set (field 9, entries in field 1) when it has one, else
/// through its row uids (field 4).
pub open spec fn node_rows(node: Seq<(u32, WireSpec)>, lookup: Seq<u128>, ri: Map<u128, u32>) -> Seq<u32> {
    match vmsg(node, 9) {
        Some(set) => set_rows(nested_all(vall(set, 1)), lookup, ri),
        None => uid_rows(nested_all(vall(node, 4)), ri),
    }
}

/// The loaded objects among the ids, in order.
pub open spec fn loaded_of(records: Map<u64, RecordView>, ids: Seq<u64>) -> Seq<Seq<(u32, WireSpec)>>
    decreases ids.len(),
{
    if ids.len() == 0 {
        Seq::empty()
    } else {
        match loaded_msg(records, ids.last()) {
            Some(m) => loaded_of(records, ids.drop_last()).push(m),
            None => loaded_of(records, ids.drop_last()),
        }
    }
}

proof fn lemma_range_rows_beyond(lookup: Seq<u128>, ri: Map<u128, u32>, lo: int, hi: int)
    requires
        hi >= lookup.len() - 1,
    ensures
        range_rows(lookup, ri, lo, hi) == range_rows(lookup, ri, lo, lookup.len() - 1),
    decreases hi - lookup.len() + 1,
{
    if hi > lookup.len() - 1 {
        if hi < lo {
        } else {
            assert(range_rows(lookup, ri, lo, hi) =~= range_rows(lookup, ri, lo, hi - 1));
            lemma_range_rows_beyond(lookup, ri, lo, hi - 1);
        }
    }
}

/// The walk over one table's group tree: its loaded objects, the row uid
/// lookup of its grouping, and the table's row uid → model row map.
pub struct Walk<'a> {
    pub loaded: &'a Loaded,
    pub lookup: &'a [u128],
    pub row_index: &'a HashMap<u128, u32>,
}

impl<'a> Walk<'a> {
    /// The children of a group node: inline (field 3), then referenced
    /// (field 10).
    pub fn children(&self, node: &Msg) -> (r: Vec<Msg>)
        ensures
            r@.len() == (nested_all(vall(fields_view(node.fields@), 3)) + loaded_of(
                loaded_view(*self.loaded).records,
                refs_of(vall(fields_view(node.fields@), 10)),
            )).len(),
            forall|i: int|
                0 <= i < r@.len() ==> fields_view(#[trigger] r@[i].fields@) == (nested_all(
                    vall(fields_view(node.fields@), 3),
                ) + loaded_of(
                    loaded_view(*self.loaded).records,
                    refs_of(vall(fields_view(node.fields@), 10)),
                ))[i],
    {
        let ghost records = loaded_view(*self.loaded).records;
        let ghost inline = nested_all(vall(fields_view(node.fields@), 3));
        let mut kids = node.msgs(3);
        let refs = node.references(10);
        let ghost rv = refs@;
        let mut i: usize = 0;
        assert(loaded_of(records, rv.take(0)) =~= Seq::<Seq<(u32, WireSpec)>>::empty()) by {
            assert(rv.take(0) =~= Seq::<u64>::empty());
        }
        assert(inline + loaded_of(records, rv.take(0)) =~= inline);
        while i < refs.len()
            invariant
                i <= refs@.len(),
                rv == refs@,
                records == loaded_view(*self.loaded).records,
                kids@.len() == (inline + loaded_of(records, rv.take(i as int))).len(),
                forall|j: int|
                    0 <= j < kids@.len() ==> fields_view(#[trigger] kids@[j].fields@) == (inline
                        + loaded_of(records, rv.take(i as int)))[j],
            decreases refs@.len() - i,
        {
            let ghost before = kids@;
            let ghost target = inline + loaded_of(records, rv.take(i as int));
            proof {
                assert(rv.take(i + 1).drop_last() =~= rv.take(i as int));
                assert(rv.take(i + 1).last() == rv[i as int]);
            }
            match self.loaded.msg(refs[i]) {
                Some(m) => {
                    kids.push(Msg { fields: clone_fields(&m.fields) });
                    assert(inline + loaded_of(records, rv.take(i + 1)) =~= target.push(
                        fields_view(m.fields@),
                    ));
                    assert forall|j: int| 0 <= j < kids@.len() implies fields_view(
                        #[trigger] kids@[j].fields@,
                    ) == (inline + loaded_of(records, rv.take(i + 1)))[j] by {
                        if j < before.len() {
                            assert(kids@[j] == before[j]);
                        }
                    }
                },
                None => {
                    assert(inline + loaded_of(records, rv.take(i + 1)) =~= target);
                },
            }
            i = i + 1;
        }
        assert(rv.take(i as int) =~= rv);
        kids
    }

    /// The rows of lookup positions `b` to `end`, appended to `out`.
    fn push_range(&self, b: u64, end: u64, out: &mut Vec<u32>)
        ensures
            final(out)@ == old(out)@ + range_rows(self.lookup@, self.row_index@, b as int, end as int),
    {
        let ghost lookup = self.lookup@;
        let ghost ri = self.row_index@;
        let ghost start = out@;
        if self.lookup.len() == 0 {
            proof {
                lemma_range_rows_beyond(lookup, ri, b as int, end as int);
                assert(range_rows(lookup, ri, b as int, -1) =~= Seq::<u32>::empty());
            }
            assert(out@ =~= start + range_rows(lookup, ri, b as int, end as int));
            return;
        }
        let last = (self.lookup.len() - 1) as u64;
        let stop = if end < last {
            end
        } else {
            last
        };
        proof {
            if end >= last {
                lemma_range_rows_beyond(lookup, ri, b as int, end as int);
            }
        }
        if b > stop {
            assert(range_rows(lookup, ri, b as int, stop as int) =~= Seq::<u32>::empty());
            assert(out@ =~= start + range_rows(lookup, ri, b as int, end as int));
            return;
        }
        let mut i: u64 = b;
        assert(range_rows(lookup, ri, b as int, b - 1) =~= Seq::<u32>::empty());
        assert(start + Seq::<u32>::empty() =~= start);
        while i <= stop
            invariant
                b <= i <= stop + 1,
                stop < self.lookup@.len(),
                lookup == self.lookup@,
                ri == self.row_index@,
                out@ == start + range_rows(lookup, ri, b as int, i - 1),
            decreases stop + 1 - i,
        {
            let u = self.lookup[i as usize];
            let ghost before = out@;
            match self.row_index.get(&u) {
                Some(r) => {
                    out.push(*r);
                    assert(out@ =~= start + range_rows(lookup, ri, b as int, i as int));
                },
                None => {
                    assert(out@ =~= start + range_rows(lookup, ri, b as int, i as int));
                },
            }
            i = i + 1;
        }
    }

    /// The model rows a group node covers, in ascending order.
    pub fn rows(&self, node: &Msg) -> (r: Vec<u32>)
        ensures
            ascending(r@),
            r@.to_multiset() == node_rows(fields_view(node.fields@), self.lookup@, self.row_index@).to_multiset(),
    {
        let ghost lookup = self.lookup@;
        let ghost ri = self.row_index@;
        let mut out: Vec<u32> = Vec::new();
        proof {
            lemma_vall(node.fields@, 9);
        }
        match node.msg(9) {
            Some(set) => {
                let es = set.msgs(1);
                let ghost ev = nested_all(vall(fields_view(set.fields@), 1));
                let mut i: usize = 0;
                assert(set_rows(ev.take(0), lookup, ri) =~= Seq::<u32>::empty()) by {
                    assert(ev.take(0) =~= Seq::<Seq<(u32, WireSpec)>>::empty());
                }
                while i < es.len()
                    invariant
                        i <= es@.len(),
                        es@.len() == ev.len(),
                        lookup == self.lookup@,
                        ri == self.row_index@,
                        forall|j: int| 0 <= j < es@.len() ==> fields_view(#[trigger] es@[j].fields@) == ev[j],
                        out@ == set_rows(ev.take(i as int), lookup, ri),
                    decreases es@.len() - i,
                {
                    proof {
                        assert(ev.take(i + 1).drop_last() =~= ev.take(i as int));
                        assert(ev.take(i + 1).last() == ev[i as int]);
                        lemma_vall(es@[i as int].fields@, 1);
                        lemma_vall(es@[i as int].fields@, 2);
                    }
                    let e = &es[i];
                    match e.varint(1) {
                        Some(b) => {
                            let end = match e.varint(2) {
                                Some(x) => x,
                                None => b,
                            };
                            self.push_range(b, end, &mut out);
                        },
                        None => {
                            assert(out@ =~= out@ + Seq::<u32>::empty());
                        },
                    }
                    i = i + 1;
                }
                assert(ev.take(i as int) =~= ev);
            },
            None => {
                let us = node.msgs(4);
                let ghost uv = nested_all(vall(fields_view(node.fields@), 4));
                let mut i: usize = 0;
                assert(uid_rows(uv.take(0), ri) =~= Seq::<u32>::empty()) by {
                    assert(uv.take(0) =~= Seq::<Seq<(u32, WireSpec)>>::empty());
                }
                while i < us.len()
                    invariant
                        i <= us@.len(),
                        us@.len() == uv.len(),
                        ri == self.row_index@,
                        forall|j: int| 0 <= j < us@.len() ==> fields_view(#[trigger] us@[j].fields@) == uv[j],
                        out@ == uid_rows(uv.take(i as int), ri),
                    decreases us@.len() - i,
                {
                    proof {
                        assert(uv.take(i + 1).drop_last() =~= uv.take(i as int));
                        assert(uv.take(i + 1).last() == uv[i as int]);
                    }
                    match uuid_u128(&us[i]) {
                        Some(u) => match self.row_index.get(&u) {
                            Some(r) => {
                                out.push(*r);
                            },
                            None => {},
                        },
                        None => {},
                    }
                    i = i + 1;
                }
                assert(uv.take(i as int) =~= uv);
            },
        }
        sort_ascending(&out)
    }
}

} // verus!

verus! {

/// The first of the ids whose loaded object is enabled (field 6 set).
pub open spec fn first_enabled(records: Map<u64, RecordView>, ids: Seq<u64>) -> Option<Seq<(u32, WireSpec)>>
    decreases ids.len(),
{
    if ids.len() == 0 {
        None
    } else {
        match loaded_msg(records, ids[0]) {
            Some(g) => if bool_of(g, 6) == Some(true) {
                Some(g)
            } else {
                first_enabled(records, ids.drop_first())
            },
            None => first_enabled(records, ids.drop_first()),
        }
    }
}

/// The grouping a table model has turned on: the first enabled grouping
/// (field 1) of its category owner (field 86).
pub open spec fn enabled_grouping(records: Map<u64, RecordView>, m: Seq<(u32, WireSpec)>) -> Option<
    Seq<(u32, WireSpec)>,
> {
    match ref_of(m, 86) {
        Some(o) => match loaded_msg(records, o) {
            Some(owner) => first_enabled(records, refs_of(vall(owner, 1))),
            None => None,
        },
        None => None,
    }
}

/// The grouping a table model has turned on, `None` when it is not
/// organized by a column.
pub fn enabled_group_by(loaded: &Loaded, m: &Msg) -> (r: Option<Msg>)
    ensures
        match enabled_grouping(loaded_view(*loaded).records, fields_view(m.fields@)) {
            Some(g) => r matches Some(x) && fields_view(x.fields@) == g,
            None => r is None,
        },
{
    let ghost records = loaded_view(*loaded).records;
    let owner_id = match m.reference(86) {
        Some(o) => o,
        None => {
            return None;
        },
    };
    let owner = match loaded.msg(owner_id) {
        Some(o) => o,
        None => {
            return None;
        },
    };
    let ids = owner.references(1);
    assert(enabled_grouping(records, fields_view(m.fields@)) == first_enabled(records, ids@));
    let mut i: usize = 0;
    assert(ids@.subrange(0, ids@.len() as int) =~= ids@);
    while i < ids.len()
        invariant
            i <= ids@.len(),
            records == loaded_view(*loaded).records,
            enabled_grouping(records, fields_view(m.fields@)) == first_enabled(records, ids@),
            first_enabled(records, ids@) == first_enabled(records, ids@.subrange(i as int, ids@.len() as int)),
        decreases ids@.len() - i,
    {
        proof {
            let rest = ids@.subrange(i as int, ids@.len() as int);
            assert(rest[0] == ids@[i as int]);
            assert(rest.drop_first() =~= ids@.subrange(i + 1, ids@.len() as int));
        }
        match loaded.msg(ids[i]) {
            Some(g) => {
                proof {
                    lemma_vall(g.fields@, 6);
                }
                if g.boolean(6) == Some(true) {
                    return Some(Msg { fields: clone_fields(&g.fields) });
                }
            },
            None => {},
        }
        i = i + 1;
    }
    None
}

/// The model columns of grouping entries: each entry's column uid (field
/// 1) that the table knows.
pub open spec fn mapped_columns(gs: Seq<Seq<(u32, WireSpec)>>, ci: Map<u128, u32>) -> Seq<u32>
    decreases gs.len(),
{
    if gs.len() == 0 {
        Seq::empty()
    } else {
        match uuid_of_msg(vmsg(gs.last(), 1)) {
            Some(u) => if ci.contains_key(u) {
                mapped_columns(gs.drop_last(), ci).push(ci[u])
            } else {
                mapped_columns(gs.drop_last(), ci)
            },
            None => mapped_columns(gs.drop_last(), ci),
        }
    }
}

/// The uuid in field 1 of a message.
fn uuid_field_1(m: &Msg) -> (r: Option<u128>)
    ensures
        r == uuid_of_msg(vmsg(fields_view(m.fields@), 1)),
{
    match m.msg(1) {
        Some(x) => uuid_u128(&x),
        None => None,
    }
}

/// The model columns a grouping groups by (its group columns, field 2).
pub fn grouping_columns(group_by: &Msg, col_index: &HashMap<u128, u32>) -> (r: Vec<u32>)
    ensures
        r@ == mapped_columns(nested_all(vall(fields_view(group_by.fields@), 2)), col_index@),
{
    let gs = group_by.msgs(2);
    let ghost gv = nested_all(vall(fields_view(group_by.fields@), 2));
    let mut out: Vec<u32> = Vec::new();
    let mut i: usize = 0;
    while i < gs.len()
        invariant
            i <= gs@.len(),
            gs@.len() == gv.len(),
            forall|j: int| 0 <= j < gs@.len() ==> fields_view(#[trigger] gs@[j].fields@) == gv[j],
            out@ == mapped_columns(gv.take(i as int), col_index@),
        decreases gs@.len() - i,
    {
        proof {
            assert(gv.take(i + 1).drop_last() =~= gv.take(i as int));
            assert(gv.take(i + 1).last() == gv[i as int]);
        }
        match uuid_field_1(&gs[i]) {
            Some(u) => match col_index.get(&u) {
                Some(c) => {
                    out.push(*c);
                },
                None => {},
            },
            None => {},
        }
        i = i + 1;
    }
    assert(gv.take(i as int) =~= gv);
    out
}

/// The row uid lookup of a grouping (field 15, uuids in field 1), which
/// group nodes' index sets index into.
pub open spec fn lookup_of(group_by: Seq<(u32, WireSpec)>) -> Seq<u128> {
    match vmsg(group_by, 15) {
        Some(l) => uuids_of(nested_all(vall(l, 1))),
        None => Seq::empty(),
    }
}

/// The row uid lookup of a grouping.
pub fn lookup_uids(group_by: &Msg) -> (r: Vec<u128>)
    ensures
        r@ == lookup_of(fields_view(group_by.fields@)),
{
    match group_by.msg(15) {
        Some(l) => uuids(&l, 1),
        None => Vec::new(),
    }
}

/// One column summary rule: its column (uid in field 1, known to the
/// table), its rule code (field 3, 0 when absent) and its level (field 2),
/// the default level 1 left out.
pub open spec fn aggregate_of(a: Seq<(u32, WireSpec)>, ci: Map<u128, u32>) -> Option<GroupAggregate> {
    match uuid_of_msg(vmsg(a, 1)) {
        Some(u) => if ci.contains_key(u) {
            Some(
                GroupAggregate {
                    column: ci[u],
                    rule: or_default(vvarint(a, 3), 0) as u32,
                    level: match vvarint(a, 2) {
                        Some(v) => if v as u32 != 1 {
                            Some(v as u32)
                        } else {
                            None
                        },
                        None => None,
                    },
                },
            )
        } else {
            None
        },
        None => None,
    }
}

/// The summary rules among the entries, those of unknown columns left out.
pub open spec fn aggregates_of(es: Seq<Seq<(u32, WireSpec)>>, ci: Map<u128, u32>) -> Seq<GroupAggregate>
    decreases es.len(),
{
    if es.len() == 0 {
        Seq::empty()
    } else {
        match aggregate_of(es.last(), ci) {
            Some(g) => aggregates_of(es.drop_last(), ci).push(g),
            None => aggregates_of(es.drop_last(), ci),
        }
    }
}

/// The per-column summary rules of a grouping (field 5).
pub fn grouping_aggregates(group_by: &Msg, col_index: &HashMap<u128, u32>) -> (r: Vec<GroupAggregate>)
    ensures
        r@ == aggregates_of(nested_all(vall(fields_view(group_by.fields@), 5)), col_index@),
{
    let es = group_by.msgs(5);
    let ghost ev = nested_all(vall(fields_view(group_by.fields@), 5));
    let mut out: Vec<GroupAggregate> = Vec::new();
    let mut i: usize = 0;
    while i < es.len()
        invariant
            i <= es@.len(),
            es@.len() == ev.len(),
            forall|j: int| 0 <= j < es@.len() ==> fields_view(#[trigger] es@[j].fields@) == ev[j],
            out@ == aggregates_of(ev.take(i as int), col_index@),
        decreases es@.len() - i,
    {
        proof {
            assert(ev.take(i + 1).drop_last() =~= ev.take(i as int));
            assert(ev.take(i + 1).last() == ev[i as int]);
            lemma_vall(es@[i as int].fields@, 2);
            lemma_vall(es@[i as int].fields@, 3);
        }
        let a = &es[i];
        match uuid_field_1(a) {
            Some(u) => match col_index.get(&u) {
                Some(c) => {
                    let rule = (match a.varint(3) {
                        Some(x) => x,
                        None => 0,
                    }) as u32;
                    let level = match a.varint(2) {
                        Some(v) => if v as u32 != 1 {
                            Some(v as u32)
                        } else {
                            None
                        },
                        None => None,
                    };
                    out.push(GroupAggregate { column: *c, rule, level });
                },
                None => {},
            },
            None => {},
        }
        i = i + 1;
    }
    assert(ev.take(i as int) =~= ev);
    out
}

} // verus!
