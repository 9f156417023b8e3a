//! Table structure that reduces to numbers: merged-cell ranges.
use vstd::prelude::*;
use crate::model::TableMerge;
use crate::pb::{Msg, WireValue, vget, vvarint, vmsg, vall, nested_all, deep_ref_spec, refs_of, clone_fields, lemma_vall};
use crate::wire::{WireSpec, fields_view, parse_spec, lemma_fields_view_len};
use crate::loader::{Loaded, RecordView, loaded_view};
use crate::ctx::loaded_msg;
use crate::loader::{Record, record_view};
use crate::formulas::{uuid_u128, uuid_of_msg, is_key_walk, walk_of};
use std::collections::HashMap;
use vstd::std_specs::iter::IteratorSpec;

verus! {

/// The smaller of two values.
pub open spec fn min_u64(a: u64, b: u64) -> u64 {
    if a < b {
        a
    } else {
        b
    }
}

/// The merge that a range (r0, c0)–(r1, c1) gives in a table of `rows` ×
/// `cols`: none when the anchor lies outside the table; the far corner is
/// clipped to the table; a range whose clipped far corner lies before its
/// anchor (a reversed range, which has no extent) and a 1 × 1 range are
/// no merge.
pub open spec fn merge_of(r0: u64, c0: u64, r1: u64, c1: u64, rows: u32, cols: u32) -> Option<
    TableMerge,
> {
    if rows == 0 || cols == 0 || r0 >= rows || c0 >= cols {
        None
    } else if min_u64(r1, (rows - 1) as u64) < r0 || min_u64(c1, (cols - 1) as u64) < c0 {
        None
    } else {
        let rs = min_u64(r1, (rows - 1) as u64) - r0 + 1;
        let cs = min_u64(c1, (cols - 1) as u64) - c0 + 1;
        if rs == 1 && cs == 1 {
            None
        } else {
            Some(
                TableMerge {
                    anchor_row: r0 as u32,
                    anchor_column: c0 as u32,
                    row_span: rs as u32,
                    column_span: cs as u32,
                },
            )
        }
    }
}

/// Record the merge of range (r0, c0)–(r1, c1), clipped to the table.
pub fn push_merge(
    merges: &mut Vec<TableMerge>,
    r0: u64,
    c0: u64,
    r1: u64,
    c1: u64,
    rows: u32,
    cols: u32,
)
    ensures
        final(merges)@ == match merge_of(r0, c0, r1, c1, rows, cols) {
            Some(m) => old(merges)@.push(m),
            None => old(merges)@,
        },
{
    if rows == 0 || cols == 0 || r0 >= rows as u64 || c0 >= cols as u64 {
        return;
    }
    let r1 = if r1 < rows as u64 - 1 {
        r1
    } else {
        rows as u64 - 1
    };
    let c1 = if c1 < cols as u64 - 1 {
        c1
    } else {
        cols as u64 - 1
    };
    if r1 < r0 || c1 < c0 {
        return;
    }
    let row_span = (r1 - r0 + 1) as u32;
    let column_span = (c1 - c0 + 1) as u32;
    if row_span == 1 && column_span == 1 {
        return;
    }
    merges.push(
        TableMerge {
            anchor_row: r0 as u32,
            anchor_column: c0 as u32,
            row_span,
            column_span,
        },
    );
}

} // verus!

verus! {

/// One entry of a header storage's field 2: the bytes hold either a
/// reference (a message of exactly one field, a varint numbered 1), read
/// as the loaded bucket it names, or an inline bucket.
pub open spec fn bucket_of(records: Map<u64, RecordView>, v: WireSpec) -> Option<
    Seq<(u32, WireSpec)>,
> {
    match v {
        WireSpec::Bytes(b) => match parse_spec(b) {
            Some(inner) => if inner.len() == 1 && vvarint(inner, 1) is Some {
                loaded_msg(records, vvarint(inner, 1)->0)
            } else {
                Some(inner)
            },
            None => None,
        },
        _ => None,
    }
}

/// The buckets the entries give, those that give none left out.
pub open spec fn buckets_of(records: Map<u64, RecordView>, vs: Seq<WireSpec>) -> Seq<
    Seq<(u32, WireSpec)>,
>
    decreases vs.len(),
{
    if vs.len() == 0 {
        Seq::empty()
    } else {
        match bucket_of(records, vs.last()) {
            Some(b) => buckets_of(records, vs.drop_last()).push(b),
            None => buckets_of(records, vs.drop_last()),
        }
    }
}

/// The header buckets of a header storage (its field 2), in order.
pub fn header_buckets(loaded: &Loaded, hs: &Msg) -> (r: Vec<Msg>)
    ensures
        r@.len() == buckets_of(loaded_view(*loaded).records, vall(fields_view(hs.fields@), 2)).len(),
        forall|i: int|
            0 <= i < r@.len() ==> fields_view(#[trigger] r@[i].fields@) == buckets_of(
                loaded_view(*loaded).records,
                vall(fields_view(hs.fields@), 2),
            )[i],
{
    let ghost records = loaded_view(*loaded).records;
    let occurrences = hs.all(2);
    proof {
        lemma_vall(hs.fields@, 2);
    }
    let ghost vs = vall(fields_view(hs.fields@), 2);
    let mut out: Vec<Msg> = Vec::new();
    let mut i: usize = 0;
    while i < occurrences.len()
        invariant
            i <= occurrences@.len(),
            occurrences@.len() == vs.len(),
            records == loaded_view(*loaded).records,
            forall|j: int|
                0 <= j < occurrences@.len() ==> crate::wire::value_view(*#[trigger] occurrences@[j])
                    == vs[j],
            out@.len() == buckets_of(records, vs.take(i as int)).len(),
            forall|j: int|
                0 <= j < out@.len() ==> fields_view(#[trigger] out@[j].fields@) == buckets_of(
                    records,
                    vs.take(i as int),
                )[j],
        decreases occurrences@.len() - i,
    {
        proof {
            assert(vs.take(i + 1).drop_last() =~= vs.take(i as int));
            assert(vs.take(i + 1).last() == vs[i as int]);
        }
        let ghost before = out@;
        match occurrences[i] {
            WireValue::Bytes(b) => {
                match Msg::parse(b.as_slice()) {
                    Some(inner) => {
                        proof {
                            lemma_fields_view_len(inner.fields@);
                            lemma_vall(inner.fields@, 1);
                        }
                        let id = if inner.fields.len() == 1 {
                            inner.varint(1)
                        } else {
                            None
                        };
                        match id {
                            Some(id) => {
                                match loaded.msg(id) {
                                    Some(x) => {
                                        out.push(Msg { fields: clone_fields(&x.fields) });
                                    },
                                    None => {},
                                }
                            },
                            None => {
                                out.push(inner);
                            },
                        }
                    },
                    None => {},
                }
            },
            _ => {},
        }
        proof {
            assert forall|j: int| 0 <= j < out@.len() implies fields_view(
                #[trigger] out@[j].fields@,
            ) == buckets_of(records, vs.take(i + 1))[j] by {
                if j < before.len() {
                    assert(out@[j] == before[j]);
                }
            }
        }
        i = i + 1;
    }
    assert(vs.take(i as int) =~= vs);
    out
}

/// A message held inline under one field, or else referenced under another
/// (a header storage, a group tree's root).
pub open spec fn inline_else_ref(
    records: Map<u64, RecordView>,
    storage: Seq<(u32, WireSpec)>,
    inline_field: u32,
    ref_field: u32,
) -> Option<Seq<(u32, WireSpec)>> {
    match vmsg(storage, inline_field) {
        Some(x) => Some(x),
        None => match vget(storage, ref_field) {
            Some(v) => match deep_ref_spec(v) {
                Some(id) => loaded_msg(records, id),
                None => None,
            },
            None => None,
        },
    }
}

/// The header indices among the headers, those without one left out.
pub open spec fn header_indices(hs: Seq<Seq<(u32, WireSpec)>>) -> Seq<u64>
    decreases hs.len(),
{
    if hs.len() == 0 {
        Seq::empty()
    } else {
        match vvarint(hs.last(), 1) {
            Some(i) => header_indices(hs.drop_last()).push(i),
            None => header_indices(hs.drop_last()),
        }
    }
}

/// The indices one bucket lists. A bucket whose field 2 is a fixed32 is
/// itself a single header (the older layout), with its index in field 1;
/// otherwise field 2 holds the headers.
pub open spec fn bucket_indices(b: Seq<(u32, WireSpec)>) -> Seq<u64> {
    if vget(b, 2) matches Some(WireSpec::Fixed32(_)) {
        match vvarint(b, 1) {
            Some(i) => seq![i],
            None => Seq::empty(),
        }
    } else {
        header_indices(nested_all(vall(b, 2)))
    }
}

/// The indices the buckets list, bucket after bucket.
pub open spec fn indices_of(bs: Seq<Seq<(u32, WireSpec)>>) -> Seq<u64>
    decreases bs.len(),
{
    if bs.len() == 0 {
        Seq::empty()
    } else {
        indices_of(bs.drop_last()) + bucket_indices(bs.last())
    }
}

/// The model indices of a table's stored rows (or columns), in storage
/// order.
pub open spec fn strip_indices(
    records: Map<u64, RecordView>,
    storage: Seq<(u32, WireSpec)>,
    inline_field: u32,
    ref_field: u32,
) -> Seq<u64> {
    match inline_else_ref(records, storage, inline_field, ref_field) {
        Some(hs) => indices_of(buckets_of(records, vall(hs, 2))),
        None => Seq::empty(),
    }
}

/// The message under `inline_field`, or else the loaded object that
/// `ref_field` references.
pub fn inline_else_ref_exec(loaded: &Loaded, storage: &Msg, inline_field: u32, ref_field: u32) -> (r:
    Option<Msg>)
    ensures
        match inline_else_ref(
            loaded_view(*loaded).records,
            fields_view(storage.fields@),
            inline_field,
            ref_field,
        ) {
            Some(x) => r matches Some(y) && fields_view(y.fields@) == x,
            None => r is None,
        },
{
    match storage.msg(inline_field) {
        Some(x) => Some(x),
        None => match storage.reference(ref_field) {
            Some(id) => match loaded.msg(id) {
                Some(x) => Some(Msg { fields: clone_fields(&x.fields) }),
                None => None,
            },
            None => None,
        },
    }
}

/// The indices one bucket lists, appended to `out` each with its storage
/// ordinal (its position in `out`).
fn push_bucket_indices(bucket: &Msg, out: &mut Vec<(u32, usize)>)
    requires
        forall|j: int| 0 <= j < old(out)@.len() ==> (#[trigger] old(out)@[j]).1 == j,
    ensures
        final(out)@.len() == old(out)@.len() + bucket_indices(fields_view(bucket.fields@)).len(),
        forall|j: int| 0 <= j < final(out)@.len() ==> (#[trigger] final(out)@[j]).1 == j,
        forall|j: int| 0 <= j < old(out)@.len() ==> final(out)@[j] == old(out)@[j],
        forall|j: int|
            0 <= j < bucket_indices(fields_view(bucket.fields@)).len() ==> final(out)@[old(out)@.len()
                + j].0 == (#[trigger] bucket_indices(fields_view(bucket.fields@))[j]) as u32,
{
    let ghost bv = fields_view(bucket.fields@);
    let ghost start = out@;
    proof {
        lemma_vall(bucket.fields@, 1);
        lemma_vall(bucket.fields@, 2);
    }
    let is_v4_header = match bucket.get(2) {
        Some(WireValue::Fixed32(_)) => true,
        _ => false,
    };
    if is_v4_header {
        match bucket.varint(1) {
            Some(idx) => {
                let o = out.len();
                out.push((idx as u32, o));
            },
            None => {},
        }
    } else {
        let hs = bucket.msgs(2);
        let ghost hv = nested_all(vall(bv, 2));
        let mut i: usize = 0;
        assert(header_indices(hv.take(0)) =~= Seq::<u64>::empty()) by {
            assert(hv.take(0) =~= Seq::<Seq<(u32, WireSpec)>>::empty());
        }
        while i < hs.len()
            invariant
                i <= hs@.len(),
                hs@.len() == hv.len(),
                forall|j: int| 0 <= j < hs@.len() ==> fields_view(#[trigger] hs@[j].fields@) == hv[j],
                out@.len() == start.len() + header_indices(hv.take(i as int)).len(),
                forall|j: int| 0 <= j < out@.len() ==> (#[trigger] out@[j]).1 == j,
                forall|j: int| 0 <= j < start.len() ==> out@[j] == start[j],
                forall|j: int|
                    0 <= j < header_indices(hv.take(i as int)).len() ==> out@[start.len() + j].0
                        == (#[trigger] header_indices(hv.take(i as int))[j]) as u32,
            decreases hs@.len() - i,
        {
            proof {
                assert(hv.take(i + 1).drop_last() =~= hv.take(i as int));
                assert(hv.take(i + 1).last() == hv[i as int]);
                lemma_vall(hs@[i as int].fields@, 1);
            }
            match hs[i].varint(1) {
                Some(idx) => {
                    let o = out.len();
                    out.push((idx as u32, o));
                },
                None => {},
            }
            i = i + 1;
        }
        assert(hv.take(i as int) =~= hv);
    }
}

/// The row (or column) map of a table's storage: the model index of each
/// stored strip, paired with its ordinal in the storage buffers. The header
/// storage sits inline under `inline_field` or is referenced under
/// `ref_field`; without one the map is empty.
pub fn strip_map_with_ctx(loaded: &Loaded, storage: &Msg, inline_field: u32, ref_field: u32) -> (r:
    Vec<(u32, usize)>)
    ensures
        r@.len() == strip_indices(
            loaded_view(*loaded).records,
            fields_view(storage.fields@),
            inline_field,
            ref_field,
        ).len(),
        forall|i: int|
            0 <= i < r@.len() ==> #[trigger] r@[i] == (
                strip_indices(
                    loaded_view(*loaded).records,
                    fields_view(storage.fields@),
                    inline_field,
                    ref_field,
                )[i] as u32,
                i as usize,
            ),
{
    let ghost records = loaded_view(*loaded).records;
    let mut out: Vec<(u32, usize)> = Vec::new();
    match inline_else_ref_exec(loaded, storage, inline_field, ref_field) {
        None => {
            return out;
        },
        Some(hs) => {
            let buckets = header_buckets(loaded, &hs);
            let ghost bv = buckets_of(records, vall(fields_view(hs.fields@), 2));
            let mut i: usize = 0;
            assert(indices_of(bv.take(0)) =~= Seq::<u64>::empty()) by {
                assert(bv.take(0) =~= Seq::<Seq<(u32, WireSpec)>>::empty());
            }
            while i < buckets.len()
                invariant
                    i <= buckets@.len(),
                    buckets@.len() == bv.len(),
                    forall|j: int|
                        0 <= j < buckets@.len() ==> fields_view(#[trigger] buckets@[j].fields@)
                            == bv[j],
                    out@.len() == indices_of(bv.take(i as int)).len(),
                    forall|j: int| 0 <= j < out@.len() ==> (#[trigger] out@[j]).1 == j,
                    forall|j: int|
                        0 <= j < out@.len() ==> (#[trigger] out@[j]).0 == indices_of(
                            bv.take(i as int),
                        )[j] as u32,
                decreases buckets@.len() - i,
            {
                let ghost before = out@;
                let ghost done = indices_of(bv.take(i as int));
                proof {
                    assert(bv.take(i + 1).drop_last() =~= bv.take(i as int));
                    assert(bv.take(i + 1).last() == bv[i as int]);
                }
                push_bucket_indices(&buckets[i], &mut out);
                proof {
                    let now = indices_of(bv.take(i + 1));
                    let added = bucket_indices(bv[i as int]);
                    assert(now == done + added);
                    assert forall|j: int| 0 <= j < out@.len() implies (#[trigger] out@[j]).0
                        == now[j] as u32 by {
                        if j < before.len() {
                            assert(out@[j] == before[j]);
                        } else {
                            assert(added[j - before.len()] == now[j]);
                        }
                    }
                }
                i = i + 1;
            }
            assert(bv.take(i as int) =~= bv);
            proof {
                assert forall|k: int| 0 <= k < out@.len() implies #[trigger] out@[k] == (
                    strip_indices(records, fields_view(storage.fields@), inline_field, ref_field)[k]
                        as u32,
                    k as usize,
                ) by {
                    assert(out@[k].1 == k);
                }
            }
            out
        },
    }
}

} // verus!

verus! {

broadcast use vstd::std_specs::hash::group_hash_axioms;

/// What one record says of a haunted owner uuid: a formula owner (type
/// 4008) of the haunted-owner kind (35) whose field 1 is that uuid answers
/// with the uuid in its field 12 (`None` inside when that does not read);
/// any other record says nothing.
pub open spec fn hit_of(r: RecordView, haunted: u128) -> Option<Option<u128>> {
    match r.msg {
        Some(fo) => if r.type_id == 4008 && vvarint(fo, 3) == Some(35u64) && uuid_of_msg(
            vmsg(fo, 1),
        ) == Some(haunted) {
            Some(uuid_of_msg(vmsg(fo, 12)))
        } else {
            None
        },
        None => None,
    }
}

/// The first answer among the first `k` records of the walk.
pub open spec fn haunted_hit(walk: Seq<RecordView>, haunted: u128, k: int) -> Option<Option<u128>>
    decreases k,
{
    if k <= 0 {
        None
    } else {
        match haunted_hit(walk, haunted, k - 1) {
            Some(b) => Some(b),
            None => hit_of(walk[k - 1], haunted),
        }
    }
}

/// The base owner uuid of a table's haunted owner: the first answer along
/// the walk.
pub open spec fn base_owner(walk: Seq<RecordView>, haunted: u128) -> Option<u128> {
    match haunted_hit(walk, haunted, walk.len() as int) {
        Some(b) => b,
        None => None,
    }
}

/// The (internal owner id, owner uuid) pairs among the entries of an owner
/// id map, those without both left out.
pub open spec fn owner_entry_pairs(es: Seq<Seq<(u32, WireSpec)>>) -> Seq<(u64, u128)>
    decreases es.len(),
{
    if es.len() == 0 {
        Seq::empty()
    } else {
        let h = owner_entry_pairs(es.drop_last());
        match (vvarint(es.last(), 1), uuid_of_msg(vmsg(es.last(), 2))) {
            (Some(id), Some(u)) => h.push((id, u)),
            _ => h,
        }
    }
}

/// The owner id pairs of one record: the calc engine (type 4000) keeps
/// them in its dependency tracker (field 2), owner id map (field 3),
/// entries (field 1).
pub open spec fn record_owner_ids(r: RecordView) -> Seq<(u64, u128)> {
    match r.msg {
        Some(ce) => if r.type_id == 4000 {
            match vmsg(ce, 2) {
                Some(dt) => match vmsg(dt, 3) {
                    Some(map) => owner_entry_pairs(nested_all(vall(map, 1))),
                    None => Seq::empty(),
                },
                None => Seq::empty(),
            }
        } else {
            Seq::empty()
        },
        None => Seq::empty(),
    }
}

/// A map with the pairs inserted in order (a later pair replaces an
/// earlier one of the same id).
pub open spec fn extend(m: Map<u64, u128>, ps: Seq<(u64, u128)>) -> Map<u64, u128>
    decreases ps.len(),
{
    if ps.len() == 0 {
        m
    } else {
        extend(m, ps.drop_last()).insert(ps.last().0, ps.last().1)
    }
}

/// Internal owner id → owner uuid, from every record along the walk.
pub open spec fn owner_map(walk: Seq<RecordView>) -> Map<u64, u128>
    decreases walk.len(),
{
    if walk.len() == 0 {
        Map::empty()
    } else {
        extend(owner_map(walk.drop_last()), record_owner_ids(walk.last()))
    }
}

/// The value of an optional varint, or a default.
pub open spec fn or_default(v: Option<u64>, d: u64) -> u64 {
    match v {
        Some(x) => x,
        None => d,
    }
}

/// The range (top row, left column, bottom row, right column) of a back
/// dependency owned by the base owner: its internal range reference (field
/// 4) names the owner by internal id (field 1) and holds the range (field
/// 2: left column 1, top row 2, right column 3, bottom row 4, the far
/// corner defaulting to the near one).
pub open spec fn owned_range(bd: Seq<(u32, WireSpec)>, owners: Map<u64, u128>, base: u128) -> Option<
    (u64, u64, u64, u64),
> {
    match vmsg(bd, 4) {
        Some(irr) => match vvarint(irr, 1) {
            Some(id) => if owners.contains_key(id) && owners[id] == base {
                match vmsg(irr, 2) {
                    Some(range) => {
                        let tlc = or_default(vvarint(range, 1), 0);
                        let tlr = or_default(vvarint(range, 2), 0);
                        let brc = or_default(vvarint(range, 3), tlc);
                        let brr = or_default(vvarint(range, 4), tlr);
                        Some((tlr, tlc, brr, brc))
                    },
                    None => None,
                }
            } else {
                None
            },
            None => None,
        },
        None => None,
    }
}

/// The owned ranges among the back dependencies, in order.
pub open spec fn owned_ranges(bds: Seq<Seq<(u32, WireSpec)>>, owners: Map<u64, u128>, base: u128) -> Seq<
    (u64, u64, u64, u64),
>
    decreases bds.len(),
{
    if bds.len() == 0 {
        Seq::empty()
    } else {
        match owned_range(bds.last(), owners, base) {
            Some(r) => owned_ranges(bds.drop_last(), owners, base).push(r),
            None => owned_ranges(bds.drop_last(), owners, base),
        }
    }
}

/// The owned ranges of one record: a formula owner (type 4008) of the
/// merge-owner kind (5) lists back dependencies (field 2) under its range
/// dependencies (field 5).
pub open spec fn record_ranges(r: RecordView, owners: Map<u64, u128>, base: u128) -> Seq<
    (u64, u64, u64, u64),
> {
    match r.msg {
        Some(fo) => if r.type_id == 4008 && vvarint(fo, 3) == Some(5u64) {
            match vmsg(fo, 5) {
                Some(deps) => owned_ranges(nested_all(vall(deps, 2)), owners, base),
                None => Seq::empty(),
            }
        } else {
            Seq::empty()
        },
        None => Seq::empty(),
    }
}

/// The owned ranges of every record along the walk.
pub open spec fn walk_ranges(walk: Seq<RecordView>, owners: Map<u64, u128>, base: u128) -> Seq<
    (u64, u64, u64, u64),
>
    decreases walk.len(),
{
    if walk.len() == 0 {
        Seq::empty()
    } else {
        walk_ranges(walk.drop_last(), owners, base) + record_ranges(walk.last(), owners, base)
    }
}

/// The merge ranges of the table with the haunted owner uuid, along the
/// walk: none when the walk gives no base owner.
pub open spec fn dependency_ranges(walk: Seq<RecordView>, haunted: u128) -> Seq<
    (u64, u64, u64, u64),
> {
    match base_owner(walk, haunted) {
        Some(b) => walk_ranges(walk, owner_map(walk), b),
        None => Seq::empty(),
    }
}

/// The merges the ranges give in a table of `rows` × `cols`, in order.
pub open spec fn merges_from(rs: Seq<(u64, u64, u64, u64)>, rows: u32, cols: u32) -> Seq<TableMerge>
    decreases rs.len(),
{
    if rs.len() == 0 {
        Seq::empty()
    } else {
        let (r0, c0, r1, c1) = rs.last();
        match merge_of(r0, c0, r1, c1, rows, cols) {
            Some(m) => merges_from(rs.drop_last(), rows, cols).push(m),
            None => merges_from(rs.drop_last(), rows, cols),
        }
    }
}

proof fn lemma_merges_concat(a: Seq<(u64, u64, u64, u64)>, b: Seq<(u64, u64, u64, u64)>, rows: u32, cols: u32)
    ensures
        merges_from(a + b, rows, cols) == merges_from(a, rows, cols) + merges_from(b, rows, cols),
    decreases b.len(),
{
    if b.len() == 0 {
        assert(a + b =~= a);
        assert(merges_from(a, rows, cols) + merges_from(b, rows, cols) =~= merges_from(a, rows, cols));
    } else {
        assert((a + b).drop_last() =~= a + b.drop_last());
        assert((a + b).last() == b.last());
        lemma_merges_concat(a, b.drop_last(), rows, cols);
        let x = merges_from(a, rows, cols);
        let y = merges_from(b.drop_last(), rows, cols);
        assert forall|m: TableMerge| (x + y).push(m) =~= x + y.push(m) by {}
    }
}

proof fn lemma_owned_prefix(bds: Seq<Seq<(u32, WireSpec)>>, owners: Map<u64, u128>, base: u128, j: int)
    requires
        0 <= j <= bds.len(),
    ensures
        owned_ranges(bds.take(j), owners, base).len() <= owned_ranges(bds, owners, base).len(),
        forall|i: int|
            0 <= i < owned_ranges(bds.take(j), owners, base).len() ==> #[trigger] owned_ranges(
                bds.take(j),
                owners,
                base,
            )[i] == owned_ranges(bds, owners, base)[i],
    decreases bds.len() - j,
{
    if j == bds.len() {
        assert(bds.take(j) =~= bds);
    } else {
        lemma_owned_prefix(bds, owners, base, j + 1);
        assert(bds.take(j + 1).drop_last() =~= bds.take(j));
        let a = owned_ranges(bds.take(j), owners, base);
        let b = owned_ranges(bds.take(j + 1), owners, base);
        assert forall|i: int| 0 <= i < a.len() implies #[trigger] a[i] == owned_ranges(
            bds,
            owners,
            base,
        )[i] by {
            assert(a[i] == b[i]);
        }
    }
}

pub(crate) fn uuid_of(m: Option<Msg>) -> (r: Option<u128>)
    ensures
        r == uuid_of_msg(match m {
            Some(x) => Some(fields_view(x.fields@)),
            None => None,
        }),
{
    match m {
        Some(x) => uuid_u128(&x),
        None => None,
    }
}

fn hit_of_exec(rec: &Record, haunted: u128) -> (r: Option<Option<u128>>)
    ensures
        r == hit_of(record_view(*rec), haunted),
{
    if rec.type_id != 4008 {
        return None;
    }
    match &rec.msg {
        Some(fo) => {
            proof {
                lemma_vall(fo.fields@, 3);
            }
            if fo.varint(3) != Some(35u64) {
                return None;
            }
            if uuid_of(fo.msg(1)) != Some(haunted) {
                return None;
            }
            Some(uuid_of(fo.msg(12)))
        },
        None => None,
    }
}

/// The owner id pairs of one record inserted into `owners`.
fn insert_owner_ids(rec: &Record, owners: &mut HashMap<u64, u128>)
    ensures
        final(owners)@ == extend(old(owners)@, record_owner_ids(record_view(*rec))),
{
    if rec.type_id != 4000 {
        return;
    }
    let ce = match &rec.msg {
        Some(ce) => ce,
        None => {
            return;
        },
    };
    let map = match ce.msg(2) {
        Some(dt) => match dt.msg(3) {
            Some(map) => map,
            None => {
                return;
            },
        },
        None => {
            return;
        },
    };
    let es = map.msgs(1);
    let ghost ev = nested_all(vall(fields_view(map.fields@), 1));
    let ghost start = owners@;
    let mut i: usize = 0;
    assert(owner_entry_pairs(ev.take(0)) =~= Seq::<(u64, u128)>::empty()) by {
        assert(ev.take(0) =~= Seq::<Seq<(u32, WireSpec)>>::empty());
    }
    while i < es.len()
        invariant
            i <= es@.len(),
            es@.len() == ev.len(),
            forall|j: int| 0 <= j < es@.len() ==> fields_view(#[trigger] es@[j].fields@) == ev[j],
            owners@ == extend(start, owner_entry_pairs(ev.take(i as int))),
        decreases es@.len() - i,
    {
        let ghost ps = owner_entry_pairs(ev.take(i as int));
        proof {
            assert(ev.take(i + 1).drop_last() =~= ev.take(i as int));
            assert(ev.take(i + 1).last() == ev[i as int]);
            lemma_vall(es@[i as int].fields@, 1);
        }
        let e = &es[i];
        match (e.varint(1), uuid_of(e.msg(2))) {
            (Some(id), Some(u)) => {
                owners.insert(id, u);
                proof {
                    assert(ps.push((id, u)).drop_last() =~= ps);
                }
            },
            _ => {},
        }
        i = i + 1;
    }
    assert(ev.take(i as int) =~= ev);
}

/// The owned ranges of one record, as merges appended to `merges`.
fn push_record_merges(
    rec: &Record,
    owners: &HashMap<u64, u128>,
    base: u128,
    rows: u32,
    cols: u32,
    merges: &mut Vec<TableMerge>,
)
    ensures
        final(merges)@ == old(merges)@ + merges_from(
            record_ranges(record_view(*rec), owners@, base),
            rows,
            cols,
        ),
{
    let ghost start = merges@;
    assert(start + merges_from(Seq::empty(), rows, cols) =~= start);
    if rec.type_id != 4008 {
        return;
    }
    let fo = match &rec.msg {
        Some(fo) => fo,
        None => {
            return;
        },
    };
    proof {
        lemma_vall(fo.fields@, 3);
    }
    if fo.varint(3) != Some(5u64) {
        return;
    }
    let deps = match fo.msg(5) {
        Some(d) => d,
        None => {
            return;
        },
    };
    let bds = deps.msgs(2);
    let ghost bv = nested_all(vall(fields_view(deps.fields@), 2));
    let ghost om = owners@;
    let mut i: usize = 0;
    assert(owned_ranges(bv.take(0), om, base) =~= Seq::<(u64, u64, u64, u64)>::empty()) by {
        assert(bv.take(0) =~= Seq::<Seq<(u32, WireSpec)>>::empty());
    }
    while i < bds.len()
        invariant
            i <= bds@.len(),
            bds@.len() == bv.len(),
            om == owners@,
            forall|j: int| 0 <= j < bds@.len() ==> fields_view(#[trigger] bds@[j].fields@) == bv[j],
            merges@ == start + merges_from(owned_ranges(bv.take(i as int), om, base), rows, cols),
        decreases bds@.len() - i,
    {
        let ghost done = owned_ranges(bv.take(i as int), om, base);
        proof {
            assert(bv.take(i + 1).drop_last() =~= bv.take(i as int));
            assert(bv.take(i + 1).last() == bv[i as int]);
            lemma_owned_prefix(bv, om, base, i + 1);
        }
        let bd = &bds[i];
        proof {
            lemma_vall(bd.fields@, 4);
        }
        match bd.msg(4) {
            Some(irr) => {
                proof {
                    lemma_vall(irr.fields@, 1);
                }
                match irr.varint(1) {
                    Some(id) => {
                        let owned = match owners.get(&id) {
                            Some(u) => *u == base,
                            None => false,
                        };
                        if owned {
                            match irr.msg(2) {
                                Some(range) => {
                                    proof {
                                        lemma_vall(range.fields@, 1);
                                        lemma_vall(range.fields@, 2);
                                        lemma_vall(range.fields@, 3);
                                        lemma_vall(range.fields@, 4);
                                    }
                                    let tlc = match range.varint(1) {
                                        Some(x) => x,
                                        None => 0,
                                    };
                                    let tlr = match range.varint(2) {
                                        Some(x) => x,
                                        None => 0,
                                    };
                                    let brc = match range.varint(3) {
                                        Some(x) => x,
                                        None => tlc,
                                    };
                                    let brr = match range.varint(4) {
                                        Some(x) => x,
                                        None => tlr,
                                    };
                                    proof {
                                        let now = owned_ranges(bv.take(i + 1), om, base);
                                        assert(now == done.push((tlr, tlc, brr, brc)));
                                        assert(now.drop_last() =~= done);
                                    }
                                    push_merge(merges, tlr, tlc, brr, brc, rows, cols);
                                },
                                None => {},
                            }
                        }
                    },
                    None => {},
                }
            },
            None => {},
        }
        i = i + 1;
    }
    assert(bv.take(i as int) =~= bv);
}

/// The merged-cell ranges of a table, read from the calc engine's records:
/// the formula owner of the table's haunted owner uuid (type 4008, kind 35)
/// gives its base owner uuid; the calc engine (type 4000) maps internal
/// owner ids to uuids; the merge owners (type 4008, kind 5) list ranges by
/// internal owner id, and those of the base owner become merges clipped to
/// the table's `rows` × `cols`. The records are met in the record map's
/// own order, which is not fixed: the result is what the walk gives met in
/// some order, each record once.
pub fn dependency_merges(loaded: &Loaded, haunted: u128, rows: u32, cols: u32) -> (r: Vec<
    TableMerge,
>)
    ensures
        exists|ks: Seq<u64>|
            #[trigger] is_key_walk(ks, loaded.records@) && r@ == merges_from(
                dependency_ranges(walk_of(ks, loaded.records@), haunted),
                rows,
                cols,
            ),
{
    let ghost m = loaded.records@;
    let ghost kr = vstd::std_specs::hash::spec_keys_iter(&loaded.records).remaining();
    let ghost kv = kr.unref();
    let ghost walk = walk_of(kv, m);
    let mut hit: Option<Option<u128>> = None;
    for k in it: loaded.records.keys()
        invariant
            it.seq() == kr,
            kv == kr.unref(),
            kv.to_set() == m.dom(),
            m == loaded.records@,
            walk == walk_of(kv, m),
            hit == haunted_hit(walk, haunted, it.index() as int),
    {
        let ghost i = it.index();
        assert(kv[i] == *k);
        assert(kv.to_set().contains(kv[i]));
        assert(walk[i] == record_view(m[*k]));
        if hit.is_none() {
            match loaded.record(*k) {
                Some(rec) => {
                    hit = hit_of_exec(rec, haunted);
                },
                None => {
                    assert(false);
                },
            }
        }
    }
    proof {
        assert(kr.no_duplicates());
        assert(kv.no_duplicates()) by {
            assert forall|a: int, b: int| 0 <= a < kv.len() && 0 <= b < kv.len() && a != b implies kv[a]
                != kv[b] by {
                assert(kr[a] != kr[b]);
            }
        }
        assert(is_key_walk(kv, m));
        assert(walk.len() == kv.len());
    }
    let mut merges: Vec<TableMerge> = Vec::new();
    let base = match hit {
        Some(Some(b)) => b,
        _ => {
            assert(merges@ =~= merges_from(dependency_ranges(walk, haunted), rows, cols));
            return merges;
        },
    };
    let mut owners: HashMap<u64, u128> = HashMap::new();
    assert(walk_of(kv.take(0), m) =~= Seq::<RecordView>::empty());
    for k in it: loaded.records.keys()
        invariant
            it.seq() == kr,
            kv == kr.unref(),
            kv.to_set() == m.dom(),
            m == loaded.records@,
            owners@ == owner_map(walk_of(kv.take(it.index()), m)),
    {
        let ghost i = it.index();
        let ghost before = walk_of(kv.take(i), m);
        assert(kv[i] == *k);
        assert(kv.to_set().contains(kv[i]));
        assert(walk_of(kv.take(i + 1), m) =~= before.push(record_view(m[*k])));
        let ghost after = before.push(record_view(m[*k]));
        assert(after.drop_last() =~= before);
        match loaded.record(*k) {
            Some(rec) => {
                insert_owner_ids(rec, &mut owners);
            },
            None => {
                assert(false);
            },
        }
    }
    assert(kv.take(kv.len() as int) =~= kv);
    let ghost om = owners@;
    proof {
        assert(om == owner_map(walk));
        assert(dependency_ranges(walk, haunted) == walk_ranges(walk, om, base));
    }
    assert(merges@ =~= merges_from(walk_ranges(walk_of(kv.take(0), m), om, base), rows, cols));
    for k in it: loaded.records.keys()
        invariant
            it.seq() == kr,
            kv == kr.unref(),
            kv.to_set() == m.dom(),
            m == loaded.records@,
            walk == walk_of(kv, m),
            om == owners@,
            merges@ == merges_from(walk_ranges(walk_of(kv.take(it.index()), m), om, base), rows, cols),
    {
        let ghost i = it.index();
        let ghost before = walk_of(kv.take(i), m);
        assert(kv[i] == *k);
        assert(kv.to_set().contains(kv[i]));
        assert(walk_of(kv.take(i + 1), m) =~= before.push(record_view(m[*k])));
        let ghost after = before.push(record_view(m[*k]));
        assert(after.drop_last() =~= before);
        assert(walk[i] == record_view(m[*k]));
        match loaded.record(*k) {
            Some(rec) => {
                push_record_merges(rec, &owners, base, rows, cols, &mut merges);
                proof {
                    lemma_merges_concat(
                        walk_ranges(before, om, base),
                        record_ranges(record_view(*rec), om, base),
                        rows,
                        cols,
                    );
                }
            },
            None => {
                assert(false);
            },
        }
    }
    assert(kv.take(kv.len() as int) =~= kv);
    merges
}

} // verus!

verus! {

/// One entry of a table data list (strings, styles, formulas, formats).
pub struct ListEntry {
    pub string: Option<String>,
    pub reference: Option<u64>,
    pub format: Option<Msg>,
    pub custom_format: Option<Msg>,
}

/// A table data list: its entries by key.
pub struct DataList {
    pub entries: HashMap<i32, ListEntry>,
}

/// The mathematical value of a list entry.
pub struct ListEntryView {
    pub string: Option<Seq<char>>,
    pub reference: Option<u64>,
    pub format: Option<Seq<(u32, WireSpec)>>,
    pub custom_format: Option<Seq<(u32, WireSpec)>>,
}

pub open spec fn entry_view(e: ListEntry) -> ListEntryView {
    ListEntryView {
        string: match e.string {
            Some(s) => Some(s@),
            None => None,
        },
        reference: e.reference,
        format: match e.format {
            Some(m) => Some(fields_view(m.fields@)),
            None => None,
        },
        custom_format: match e.custom_format {
            Some(m) => Some(fields_view(m.fields@)),
            None => None,
        },
    }
}

/// The entries of a data list, by key.
pub open spec fn data_list_view(d: DataList) -> Map<i32, ListEntryView> {
    d.entries@.map_values(|e: ListEntry| entry_view(e))
}

/// A list entry message: string (field 3), reference (field 4, else
/// field 9), format (field 6), custom format (field 8).
pub open spec fn entry_of(e: Seq<(u32, WireSpec)>) -> ListEntryView {
    ListEntryView {
        string: crate::ctx::vstring(e, 3),
        reference: match crate::keynote::ref_of(e, 4) {
            Some(x) => Some(x),
            None => crate::keynote::ref_of(e, 9),
        },
        format: vmsg(e, 6),
        custom_format: vmsg(e, 8),
    }
}

/// The directly held entries, each under its key (field 1, 0 when absent,
/// read as a 32-bit signed key).
pub open spec fn direct_pairs(es: Seq<Seq<(u32, WireSpec)>>) -> Seq<(i32, ListEntryView)> {
    Seq::new(es.len(), |i: int| (or_default(vvarint(es[i], 1), 0) as i32, entry_of(es[i])))
}

/// The key of a segment's first entry: the location (field 1) of its key
/// range (field 2), 0 when absent.
pub open spec fn segment_base(seg: Seq<(u32, WireSpec)>) -> i32 {
    (match vmsg(seg, 2) {
        Some(r) => or_default(vvarint(r, 1), 0),
        None => 0,
    }) as i32
}

/// A segment's entries (field 3), keyed on from its base (the keys wrap
/// within 32 bits, as a wrapping `i32` addition does).
pub open spec fn segment_pairs(seg: Seq<(u32, WireSpec)>) -> Seq<(i32, ListEntryView)> {
    let es = nested_all(vall(seg, 3));
    Seq::new(es.len(), |i: int| ((segment_base(seg) + i) as i32, entry_of(es[i])))
}

/// The entries of the loaded segments among `refs`, segment after segment.
pub open spec fn segments_pairs(records: Map<u64, RecordView>, refs: Seq<u64>) -> Seq<(i32, ListEntryView)>
    decreases refs.len(),
{
    if refs.len() == 0 {
        Seq::empty()
    } else {
        segments_pairs(records, refs.drop_last()) + match loaded_msg(records, refs.last()) {
            Some(seg) => segment_pairs(seg),
            None => Seq::empty(),
        }
    }
}

/// Every keyed entry of a data list message: its own entries (field 3),
/// then those of its segments (field 4), in order.
pub open spec fn keyed_entries(records: Map<u64, RecordView>, m: Seq<(u32, WireSpec)>) -> Seq<
    (i32, ListEntryView),
> {
    direct_pairs(nested_all(vall(m, 3))) + segments_pairs(records, refs_of(vall(m, 4)))
}

/// The map with the pairs added in order, the first pair for a key kept.
pub open spec fn first_wins(m: Map<i32, ListEntryView>, ps: Seq<(i32, ListEntryView)>) -> Map<
    i32,
    ListEntryView,
>
    decreases ps.len(),
{
    if ps.len() == 0 {
        m
    } else {
        let h = first_wins(m, ps.drop_last());
        if h.contains_key(ps.last().0) {
            h
        } else {
            h.insert(ps.last().0, ps.last().1)
        }
    }
}

/// The entries a data list object gives: none without the object.
pub open spec fn data_list_of(records: Map<u64, RecordView>, list_id: Option<u64>) -> Map<
    i32,
    ListEntryView,
> {
    match list_id {
        Some(id) => match loaded_msg(records, id) {
            Some(m) => first_wins(Map::empty(), keyed_entries(records, m)),
            None => Map::empty(),
        },
        None => Map::empty(),
    }
}

proof fn lemma_first_wins_concat(
    m: Map<i32, ListEntryView>,
    a: Seq<(i32, ListEntryView)>,
    b: Seq<(i32, ListEntryView)>,
)
    ensures
        first_wins(m, a + b) == first_wins(first_wins(m, a), b),
    decreases b.len(),
{
    if b.len() == 0 {
        assert(a + b =~= a);
    } else {
        assert((a + b).drop_last() =~= a + b.drop_last());
        assert((a + b).last() == b.last());
        lemma_first_wins_concat(m, a, b.drop_last());
    }
}

fn list_entry(e: &Msg) -> (r: ListEntry)
    ensures
        entry_view(r) == entry_of(fields_view(e.fields@)),
{
    proof {
        lemma_vall(e.fields@, 3);
    }
    let string = e.string(3);
    let reference = match e.reference(4) {
        Some(x) => Some(x),
        None => e.reference(9),
    };
    ListEntry { string, reference, format: e.msg(6), custom_format: e.msg(8) }
}

/// Add an entry unless its key is taken.
fn add_first(out: &mut HashMap<i32, ListEntry>, key: i32, e: ListEntry)
    ensures
        final(out)@.map_values(|x: ListEntry| entry_view(x)) == if old(out)@.contains_key(key) {
            old(out)@.map_values(|x: ListEntry| entry_view(x))
        } else {
            old(out)@.map_values(|x: ListEntry| entry_view(x)).insert(key, entry_view(e))
        },
{
    if !out.contains_key(&key) {
        let ghost ev = entry_view(e);
        out.insert(key, e);
        assert(out@.map_values(|x: ListEntry| entry_view(x)) =~= old(out)@.map_values(
            |x: ListEntry| entry_view(x),
        ).insert(key, ev));
    }
}

/// A table data list: the entries of the list object `list_id`, each under
/// its key, the first entry for a key kept; its own entries first, then
/// those of its segments (large tables), whose keys count on from each
/// segment's base. No object, no entries.
pub fn load_data_list(loaded: &Loaded, list_id: Option<u64>) -> (r: DataList)
    ensures
        data_list_view(r) == data_list_of(loaded_view(*loaded).records, list_id),
{
    let ghost records = loaded_view(*loaded).records;
    let mut out: HashMap<i32, ListEntry> = HashMap::new();
    assert(out@.map_values(|x: ListEntry| entry_view(x)) =~= Map::<i32, ListEntryView>::empty());
    let id = match list_id {
        Some(id) => id,
        None => {
            return DataList { entries: out };
        },
    };
    let m = match loaded.msg(id) {
        Some(m) => m,
        None => {
            return DataList { entries: out };
        },
    };
    let ghost mv = fields_view(m.fields@);
    let es = m.msgs(3);
    let ghost direct = direct_pairs(nested_all(vall(mv, 3)));
    let mut i: usize = 0;
    assert(direct.take(0) =~= Seq::<(i32, ListEntryView)>::empty());
    while i < es.len()
        invariant
            i <= es@.len(),
            es@.len() == nested_all(vall(mv, 3)).len(),
            direct == direct_pairs(nested_all(vall(mv, 3))),
            forall|j: int| 0 <= j < es@.len() ==> fields_view(#[trigger] es@[j].fields@) == nested_all(vall(mv, 3))[j],
            out@.map_values(|x: ListEntry| entry_view(x)) == first_wins(Map::empty(), direct.take(i as int)),
        decreases es@.len() - i,
    {
        let e = &es[i];
        proof {
            lemma_vall(e.fields@, 1);
            assert(direct.take(i + 1).drop_last() =~= direct.take(i as int));
            assert(direct.take(i + 1).last() == direct[i as int]);
        }
        let key = (match e.varint(1) {
            Some(k) => k,
            None => 0,
        }) as i32;
        add_first(&mut out, key, list_entry(e));
        i = i + 1;
    }
    assert(direct.take(i as int) =~= direct);
    let refs = m.references(4);
    let ghost rv = refs_of(vall(mv, 4));
    let mut j: usize = 0;
    assert(direct + segments_pairs(records, rv.take(0)) =~= direct) by {
        assert(rv.take(0) =~= Seq::<u64>::empty());
    }
    while j < refs.len()
        invariant
            j <= refs@.len(),
            refs@ == rv,
            rv == refs_of(vall(mv, 4)),
            records == loaded_view(*loaded).records,
            out@.map_values(|x: ListEntry| entry_view(x)) == first_wins(
                Map::empty(),
                direct + segments_pairs(records, rv.take(j as int)),
            ),
        decreases refs@.len() - j,
    {
        let ghost before = direct + segments_pairs(records, rv.take(j as int));
        let ghost start = out@.map_values(|x: ListEntry| entry_view(x));
        proof {
            assert(rv.take(j + 1).drop_last() =~= rv.take(j as int));
            assert(rv.take(j + 1).last() == rv[j as int]);
        }
        match loaded.msg(refs[j]) {
            Some(seg) => {
                let ghost sv = fields_view(seg.fields@);
                let ghost sp = segment_pairs(sv);
                proof {
                    lemma_vall(seg.fields@, 2);
                }
                let base = (match seg.msg(2) {
                    Some(r) => {
                        proof {
                            lemma_vall(r.fields@, 1);
                        }
                        match r.varint(1) {
                            Some(k) => k,
                            None => 0,
                        }
                    },
                    None => 0,
                }) as i32;
                assert(base == segment_base(sv));
                let ses = seg.msgs(3);
                let mut k: usize = 0;
                assert(sp.take(0) =~= Seq::<(i32, ListEntryView)>::empty());
                while k < ses.len()
                    invariant
                        k <= ses@.len(),
                        ses@.len() == nested_all(vall(sv, 3)).len(),
                        sp == segment_pairs(sv),
                        base == segment_base(sv),
                        forall|q: int| 0 <= q < ses@.len() ==> fields_view(#[trigger] ses@[q].fields@) == nested_all(vall(sv, 3))[q],
                        out@.map_values(|x: ListEntry| entry_view(x)) == first_wins(start, sp.take(k as int)),
                    decreases ses@.len() - k,
                {
                    proof {
                        assert(sp.take(k + 1).drop_last() =~= sp.take(k as int));
                        assert(sp.take(k + 1).last() == sp[k as int]);
                    }
                    let key = (base as i128 + k as i128) as i32;
                    assert(sp[k as int].0 == key);
                    add_first(&mut out, key, list_entry(&ses[k]));
                    k = k + 1;
                }
                proof {
                    assert(sp.take(k as int) =~= sp);
                    assert(direct + segments_pairs(records, rv.take(j + 1)) =~= before + sp);
                    lemma_first_wins_concat(Map::empty(), before, sp);
                }
            },
            None => {
                assert(direct + segments_pairs(records, rv.take(j + 1)) =~= before);
            },
        }
        j = j + 1;
    }
    assert(rv.take(j as int) =~= rv);
    DataList { entries: out }
}

} // verus!
