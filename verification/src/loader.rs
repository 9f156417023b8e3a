//! Object-graph loading: incremental-save patches merged onto their base
//! messages, and the decisions that depend on class names alone.
use vstd::prelude::*;
use std::collections::{BTreeMap, HashMap};
use crate::text_util::{chars_of, owned};
use crate::pb::{Field, Msg, WireValue, vall, packed_of};
use crate::wire::{WireSpec, value_view, fields_view, parse_spec, lemma_fields_view_len};
use crate::model::AppKind;
use crate::patch::{
    drop_num, keep_num, vfirst, set_fields_spec, filter_numbered, set_fields, first_numbered,
    lemma_set_fields_replaces, lemma_clear_keeps_others,
};

verus! {

/// `needle` occurs in `s` at position `i`.
pub open spec fn occurs_at(s: Seq<char>, needle: Seq<char>, i: int) -> bool {
    0 <= i && i + needle.len() <= s.len() && s.subrange(i, i + needle.len()) == needle
}

/// `needle` occurs in `s`.
pub open spec fn occurs(s: Seq<char>, needle: Seq<char>) -> bool {
    exists|i: int| #[trigger] occurs_at(s, needle, i)
}

/// Command, undo-history and selection classes, which hold no content and
/// are safe to ignore.
pub open spec fn is_command_name_spec(name: Seq<char>) -> bool {
    occurs(name, "Command"@) || (name.len() >= 7 && name.skip(name.len() - 7) == "History"@)
        || occurs(name, "Selection"@)
}

fn occurs_exec(v: &Vec<char>, needle: &str) -> (r: bool)
    ensures
        r == occurs(v@, needle@),
{
    let w = chars_of(needle);
    if w.len() > v.len() {
        assert forall|k: int| !(#[trigger] occurs_at(v@, needle@, k)) by {}
        return false;
    }
    if w.len() == 0 {
        assert(v@.subrange(0, 0) =~= needle@);
        assert(occurs_at(v@, needle@, 0));
        return true;
    }
    let mut i: usize = 0;
    let n = v.len();
    let last = n - w.len();
    while i <= last
        invariant
            w@ == needle@,
            0 < w@.len() <= v@.len(),
            n == v@.len(),
            last == v@.len() - w@.len(),
            i <= last + 1,
            forall|k: int| 0 <= k < i ==> !(#[trigger] occurs_at(v@, needle@, k)),
        decreases last + 1 - i,
    {
        if at_exec(v, i, &w) {
            assert(occurs_at(v@, needle@, i as int));
            return true;
        }
        i = i + 1;
    }
    assert forall|k: int| !(#[trigger] occurs_at(v@, needle@, k)) by {
        if 0 <= k && k + needle@.len() <= v@.len() {
            assert(k < i);
        }
    }
    false
}

fn at_exec(v: &Vec<char>, i: usize, w: &Vec<char>) -> (r: bool)
    requires
        i + w@.len() <= v@.len(),
    ensures
        r == (v@.subrange(i as int, i + w@.len()) == w@),
{
    let mut j: usize = 0;
    let n = v.len();
    while j < w.len()
        invariant
            n == v@.len(),
            i + w@.len() <= v@.len(),
            j <= w@.len(),
            forall|t: int| 0 <= t < j ==> v@[i + t] == w@[t],
        decreases w@.len() - j,
    {
        assert(i + j < v@.len());
        if v[i + j] != w[j] {
            assert(v@.subrange(i as int, i + w@.len())[j as int] != w@[j as int]);
            return false;
        }
        j = j + 1;
    }
    assert(v@.subrange(i as int, i + w@.len()) =~= w@);
    true
}

/// Whether an object's class name marks a command, history or selection
/// object.
pub fn is_command_name(name: &str) -> (r: bool)
    ensures
        r == is_command_name_spec(name@),
{
    let v = chars_of(name);
    proof {
        reveal_strlit("History");
    }
    let tail = if v.len() >= 7 {
        let h = chars_of("History");
        at_exec(&v, v.len() - 7, &h)
    } else {
        false
    };
    proof {
        if v@.len() >= 7 {
            assert(v@.subrange(v@.len() - 7, v@.len() as int) == v@.skip(v@.len() - 7));
        }
    }
    occurs_exec(&v, "Command") || tail || occurs_exec(&v, "Selection")
}

} // verus!

verus! {

broadcast use {vstd::std_specs::hash::group_hash_axioms, vstd::std_specs::btree::group_btree_axioms};

/// One message of an archive segment, as the segment's envelope lists it.
pub struct MessageInfo {
    pub type_id: u32,
    /// The payload's declared length.
    pub length: u32,
    pub payload: Vec<u8>,
    /// The envelope's own fields for this message: for a patch, its base
    /// index (7), the path of the field it replaces (9) and the fields it
    /// clears (10).
    pub patch: Vec<Field>,
}

/// One archive segment: an object's identifier and its messages.
pub struct ArchiveInfo {
    pub identifier: u64,
    /// The segment holds incremental-save patches to merge.
    pub should_merge: bool,
    pub messages: Vec<MessageInfo>,
}

/// The base message a patch applies to: its field 7 (first occurrence) as
/// a varint, 0 by default.
pub open spec fn base_index_spec(patch: Seq<(u32, WireSpec)>) -> u64 {
    match vfirst(patch, 7, patch.len() as int) {
        Some(i) => match patch[i].1 {
            WireSpec::Varint(x) => x,
            _ => 0,
        },
        None => 0,
    }
}

/// Every occurrence of field `n` read as a field path: a message whose
/// field 1 holds packed varints. Occurrences that do not read as a message
/// are left out.
pub open spec fn field_paths_spec(patch: Seq<(u32, WireSpec)>, n: u32) -> Seq<Seq<u64>>
    decreases patch.len(),
{
    if patch.len() == 0 {
        Seq::empty()
    } else {
        let head = field_paths_spec(patch.drop_last(), n);
        let e = patch.last();
        if e.0 == n {
            match e.1 {
                WireSpec::Bytes(b) => match parse_spec(b) {
                    Some(m) => head.push(packed_of(vall(m, 1))),
                    None => head,
                },
                _ => head,
            }
        } else {
            head
        }
    }
}

/// `b` with the fields named by the first `k` one-segment paths cleared.
pub open spec fn clear_paths(b: Seq<(u32, WireSpec)>, removes: Seq<Seq<u64>>, k: int) -> Seq<
    (u32, WireSpec),
>
    decreases k,
{
    if k <= 0 {
        b
    } else {
        drop_num(clear_paths(b, removes, k - 1), removes[k - 1][0] as u32)
    }
}

/// What one message of a segment does to the merge.
pub enum PatchOutcome {
    /// Not a patch.
    NotPatch,
    /// A patch that cannot be applied.
    Dropped,
    /// A patch applied: the base message's index and its merged fields.
    Applied(usize, Seq<(u32, WireSpec)>),
}

/// Message `k` of `msgs` as a patch, given the merges made so far.
///
/// A patch (type 0) names its base by index; the base must be a real
/// message. With one one-segment `diff_field_path`, the payload is the new
/// value of that one field; with none, the payload is a partial message of
/// the base's own type whose fields replace the base's. The fields named
/// by `fields_to_remove` (one segment each) are cleared first. Anything
/// else (several or longer paths, a base or partial payload that does not
/// parse) drops the patch.
pub open spec fn patch_outcome(
    msgs: Seq<MessageInfo>,
    merged: Map<usize, Seq<(u32, WireSpec)>>,
    k: int,
) -> PatchOutcome {
    let m = msgs[k];
    if m.type_id != 0 {
        PatchOutcome::NotPatch
    } else {
        let patch = fields_view(m.patch@);
        let base = base_index_spec(patch);
        let paths = field_paths_spec(patch, 9);
        let removes = field_paths_spec(patch, 10);
        let replace_one = paths.len() == 1 && paths[0].len() == 1;
        let partial_merge = paths.len() == 0;
        let base_ok = base < msgs.len() && msgs[base as int].type_id != 0;
        if !base_ok || !(replace_one || partial_merge) || exists|j: int|
            0 <= j < removes.len() && #[trigger] removes[j].len() != 1 {
            PatchOutcome::Dropped
        } else if partial_merge && m.payload@.len() > 0 && parse_spec(m.payload@) is None {
            PatchOutcome::Dropped
        } else {
            let start = if merged.contains_key(base as usize) {
                Some(merged[base as usize])
            } else {
                parse_spec(msgs[base as int].payload@)
            };
            match start {
                None => PatchOutcome::Dropped,
                Some(b0) => {
                    let b1 = clear_paths(b0, removes, removes.len() as int);
                    let b2 = if replace_one {
                        set_fields_spec(b1, seq![(paths[0][0] as u32, WireSpec::Bytes(m.payload@))])
                    } else if m.payload@.len() > 0 {
                        set_fields_spec(b1, parse_spec(m.payload@).unwrap())
                    } else {
                        b1
                    };
                    PatchOutcome::Applied(base as usize, b2)
                },
            }
        }
    }
}

/// The merges made by the first `k` messages, with the counts of patches
/// applied and dropped.
pub open spec fn patches_upto(msgs: Seq<MessageInfo>, k: int) -> (
    Map<usize, Seq<(u32, WireSpec)>>,
    nat,
    nat,
)
    decreases k,
{
    if k <= 0 {
        (Map::empty(), 0, 0)
    } else {
        let (m, a, d) = patches_upto(msgs, k - 1);
        match patch_outcome(msgs, m, k - 1) {
            PatchOutcome::NotPatch => (m, a, d),
            PatchOutcome::Dropped => (m, a, d + 1),
            PatchOutcome::Applied(b, v) => (m.insert(b, v), a + 1, d),
        }
    }
}

proof fn lemma_patch_counts(msgs: Seq<MessageInfo>, k: int)
    requires
        0 <= k,
    ensures
        patches_upto(msgs, k).1 + patches_upto(msgs, k).2 <= k,
    decreases k,
{
    if k > 0 {
        lemma_patch_counts(msgs, k - 1);
    }
}

/// The patches (messages of type 0) among the first `k` messages.
pub open spec fn patch_count(msgs: Seq<MessageInfo>, k: int) -> nat
    decreases k,
{
    if k <= 0 {
        0
    } else if msgs[k - 1].type_id == 0 {
        patch_count(msgs, k - 1) + 1
    } else {
        patch_count(msgs, k - 1)
    }
}

/// Every patch of an archive is accounted for once: it is either applied
/// or dropped, so the applied and dropped counts add up to the patches.
pub proof fn lemma_patch_accounting(msgs: Seq<MessageInfo>, k: int)
    requires
        0 <= k <= msgs.len(),
    ensures
        patches_upto(msgs, k).1 + patches_upto(msgs, k).2 == patch_count(msgs, k),
    decreases k,
{
    if k > 0 {
        lemma_patch_accounting(msgs, k - 1);
    }
}

/// Field 7 of a patch's envelope fields: its base message index.
fn base_index_of(patch: &Vec<Field>) -> (r: u64)
    ensures
        r == base_index_spec(fields_view(patch@)),
{
    proof {
        lemma_fields_view_len(patch@);
    }
    match first_numbered(patch, 7) {
        Some(i) => match &patch[i].value {
            WireValue::Varint(x) => *x,
            _ => 0,
        },
        None => 0,
    }
}

/// Every occurrence of field `n` read as a field path (packed field 1 of
/// the message it holds).
pub fn field_paths(patch: &Vec<Field>, n: u32) -> (r: Vec<Vec<u64>>)
    ensures
        r@.len() == field_paths_spec(fields_view(patch@), n).len(),
        forall|i: int|
            0 <= i < r@.len() ==> (#[trigger] r@[i])@ == field_paths_spec(fields_view(patch@), n)[i],
{
    let ghost v = fields_view(patch@);
    proof {
        lemma_fields_view_len(patch@);
    }
    let mut out: Vec<Vec<u64>> = Vec::new();
    let mut i: usize = 0;
    while i < patch.len()
        invariant
            i <= patch@.len(),
            v == fields_view(patch@),
            v.len() == patch@.len(),
            forall|j: int|
                0 <= j < patch@.len() ==> #[trigger] v[j] == (
                    patch@[j].number,
                    value_view(patch@[j].value),
                ),
            out@.len() == field_paths_spec(v.take(i as int), n).len(),
            forall|j: int|
                0 <= j < out@.len() ==> (#[trigger] out@[j])@ == field_paths_spec(
                    v.take(i as int),
                    n,
                )[j],
        decreases patch@.len() - i,
    {
        proof {
            assert(v.take(i + 1).drop_last() =~= v.take(i as int));
            assert(v.take(i + 1).last() == v[i as int]);
        }
        if patch[i].number == n {
            match &patch[i].value {
                WireValue::Bytes(b) => match Msg::parse(b.as_slice()) {
                    Some(m) => {
                        out.push(m.packed_varints(1));
                    },
                    None => {},
                },
                _ => {},
            }
        }
        i = i + 1;
    }
    assert(v.take(i as int) =~= v);
    out
}

/// The merged fields kept per base index, as mathematical values.
pub open spec fn merged_view(m: Map<usize, Msg>) -> Map<usize, Seq<(u32, WireSpec)>> {
    Map::new(|b: usize| m.contains_key(b), |b: usize| fields_view(m[b].fields@))
}

/// The field paths, as mathematical values.
pub open spec fn paths_view(p: Seq<Vec<u64>>) -> Seq<Seq<u64>> {
    p.map_values(|v: Vec<u64>| v@)
}

/// A one-field list: field `number` holding the bytes `payload`.
fn single_field(number: u32, payload: &[u8]) -> (r: Vec<Field>)
    ensures
        fields_view(r@) == seq![(number, WireSpec::Bytes(payload@))],
{
    let f = Field { number, value: WireValue::Bytes(slice_copy(payload)) };
    let mut r: Vec<Field> = Vec::new();
    proof {
        crate::wire::lemma_fields_view_push(r@, f);
        assert(fields_view(r@) =~= Seq::empty());
        assert(Seq::<(u32, WireSpec)>::empty() + seq![(number, WireSpec::Bytes(payload@))]
            =~= seq![(number, WireSpec::Bytes(payload@))]);
    }
    r.push(f);
    r
}

/// A base message's fields after a patch: the one-segment paths in
/// `removes` cleared, then the replacement's field numbers set.
fn edited(base: Vec<Field>, removes: &Vec<Vec<u64>>, replacement: Option<Vec<Field>>) -> (r: Vec<
    Field,
>)
    requires
        forall|q: int| 0 <= q < removes@.len() ==> (#[trigger] removes@[q])@.len() == 1,
    ensures
        fields_view(r@) == match replacement {
            Some(x) => set_fields_spec(
                clear_paths(fields_view(base@), paths_view(removes@), removes@.len() as int),
                fields_view(x@),
            ),
            None => clear_paths(fields_view(base@), paths_view(removes@), removes@.len() as int),
        },
{
    let ghost b0 = fields_view(base@);
    let ghost rv = paths_view(removes@);
    let mut fields = base;
    let mut t: usize = 0;
    while t < removes.len()
        invariant
            t <= removes@.len(),
            rv == paths_view(removes@),
            forall|q: int| 0 <= q < removes@.len() ==> (#[trigger] removes@[q])@.len() == 1,
            fields_view(fields@) == clear_paths(b0, rv, t as int),
        decreases removes@.len() - t,
    {
        assert(removes@[t as int]@.len() == 1);
        assert(rv[t as int] == removes@[t as int]@);
        let n = removes[t][0] as u32;
        fields = filter_numbered(&fields, n, false);
        t = t + 1;
    }
    match replacement {
        Some(x) => set_fields(&fields, &x),
        None => fields,
    }
}

/// Whether every path in `removes` has exactly one segment.
fn one_segment_each(removes: &Vec<Vec<u64>>) -> (r: bool)
    ensures
        r == forall|q: int| 0 <= q < removes@.len() ==> (#[trigger] removes@[q])@.len() == 1,
{
    let mut j: usize = 0;
    while j < removes.len()
        invariant
            j <= removes@.len(),
            forall|t: int| 0 <= t < j ==> (#[trigger] removes@[t])@.len() == 1,
        decreases removes@.len() - j,
    {
        if removes[j].len() != 1 {
            return false;
        }
        j = j + 1;
    }
    true
}

/// Message `k` of a segment applied as a patch onto the merges so far:
/// 0 when it is no patch, 1 when it is dropped, 2 when it is applied.
fn patch_step(msgs: &Vec<MessageInfo>, k: usize, merged: &mut HashMap<usize, Msg>) -> (r: u8)
    requires
        k < msgs@.len(),
    ensures
        match patch_outcome(msgs@, merged_view(old(merged)@), k as int) {
            PatchOutcome::NotPatch => r == 0 && merged_view(final(merged)@) == merged_view(
                old(merged)@,
            ),
            PatchOutcome::Dropped => r == 1 && merged_view(final(merged)@) == merged_view(
                old(merged)@,
            ),
            PatchOutcome::Applied(b, v) => r == 2 && merged_view(final(merged)@) == merged_view(
                old(merged)@,
            ).insert(b, v),
        },
{
    let ghost mv = merged_view(merged@);
    let message = &msgs[k];
    if message.type_id != 0 {
        return 0;
    }
    let base_index = base_index_of(&message.patch);
    let base_ok = base_index < msgs.len() as u64 && msgs[base_index as usize].type_id != 0;
    let paths = field_paths(&message.patch, 9);
    let removes = field_paths(&message.patch, 10);
    let ghost removes_v = field_paths_spec(fields_view(message.patch@), 10);
    let ghost paths_v = field_paths_spec(fields_view(message.patch@), 9);
    assert(paths_view(removes@) =~= removes_v);
    let replace_one = paths.len() == 1 && paths[0].len() == 1;
    let partial_merge = paths.len() == 0;
    let removes_ok = one_segment_each(&removes);
    assert(removes_ok == !exists|t: int|
        0 <= t < removes_v.len() && #[trigger] removes_v[t].len() != 1) by {
        if !removes_ok {
            let t = choose|t: int| 0 <= t < removes@.len() && (#[trigger] removes@[t])@.len() != 1;
            assert(removes_v[t].len() != 1);
        }
    }
    if !base_ok || !(replace_one || partial_merge) || !removes_ok {
        return 1;
    }
    let base_at = base_index as usize;
    let partial = if partial_merge && message.payload.len() > 0 {
        match Msg::parse(message.payload.as_slice()) {
            Some(m) => Some(m),
            None => {
                return 1;
            },
        }
    } else {
        None
    };
    let base = match merged.remove(&base_at) {
        Some(m) => m,
        None => match Msg::parse(msgs[base_at].payload.as_slice()) {
            Some(m) => m,
            None => {
                assert(merged_view(merged@) =~= mv);
                return 1;
            },
        },
    };
    let replacement = if replace_one {
        assert(paths@[0]@ == paths_v[0]);
        Some(single_field(paths[0][0] as u32, message.payload.as_slice()))
    } else {
        match partial {
            Some(p) => Some(p.fields),
            None => None,
        }
    };
    let fields = edited(base.fields, &removes, replacement);
    let ghost nv = fields_view(fields@);
    merged.insert(base_at, Msg { fields });
    assert(merged_view(merged@) =~= mv.insert(base_at, nv));
    2
}

/// Incremental-save merge for one archive segment: the patches among its
/// messages merged onto their base messages (see `patch_outcome`), keyed by
/// the base's index. Each patch met is counted as applied or dropped.
pub fn apply_patches(archive: &ArchiveInfo, applied: &mut u64, dropped: &mut u64) -> (r: HashMap<
    usize,
    Msg,
>)
    requires
        *old(applied) + *old(dropped) + archive.messages@.len() <= u64::MAX,
    ensures
        ({
            let st = patches_upto(archive.messages@, archive.messages@.len() as int);
            &&& merged_view(r@) == st.0
            &&& *final(applied) == *old(applied) + st.1
            &&& *final(dropped) == *old(dropped) + st.2
        }),
        *final(applied) + *final(dropped) == *old(applied) + *old(dropped) + patch_count(
            archive.messages@,
            archive.messages@.len() as int,
        ),
{
    let msgs = &archive.messages;
    let mut merged: HashMap<usize, Msg> = HashMap::new();
    let ghost a0 = *applied;
    let ghost d0 = *dropped;
    assert(merged_view(merged@) =~= Map::empty());
    let mut k: usize = 0;
    while k < msgs.len()
        invariant
            k <= msgs@.len(),
            a0 + d0 + msgs@.len() <= u64::MAX,
            merged_view(merged@) == patches_upto(msgs@, k as int).0,
            *applied == a0 + patches_upto(msgs@, k as int).1,
            *dropped == d0 + patches_upto(msgs@, k as int).2,
        decreases msgs@.len() - k,
    {
        proof {
            lemma_patch_counts(msgs@, k as int);
        }
        let outcome = patch_step(msgs, k, &mut merged);
        if outcome == 1 {
            *dropped = *dropped + 1;
        } else if outcome == 2 {
            *applied = *applied + 1;
        }
        k = k + 1;
    }
    proof {
        lemma_patch_accounting(msgs@, msgs@.len() as int);
    }
    merged
}

/// A copy of a byte run.
fn slice_copy(b: &[u8]) -> (r: Vec<u8>)
    ensures
        r@ == b@,
{
    vstd::slice::slice_to_vec(b)
}

} // verus!

verus! {

/// A decoded object: its id, type and (when its payload walked) its fields.
pub struct Record {
    pub id: u64,
    pub type_id: u32,
    /// The registry's name for the type, when it has one.
    pub name: Option<String>,
    /// Parsed payload; `None` when the walk failed structurally.
    pub msg: Option<Msg>,
}

/// Every object of a document, with what could not be read counted.
pub struct Loaded {
    pub records: HashMap<u64, Record>,
    /// Objects of a type the registry does not name: type id → count.
    pub unknown_ids: BTreeMap<u32, u64>,
    /// Objects whose payload did not walk: type id → count.
    pub undecodable_ids: BTreeMap<u32, u64>,
    /// Objects whose payload did not walk: id → declared length.
    pub undecodable_bytes: HashMap<u64, u32>,
    /// Incremental-save patches applied onto their base messages.
    pub patches_applied: u64,
    /// Patches that could not be applied: the affected object may show
    /// pre-edit content.
    pub patches_dropped: u64,
}

/// A record as mathematical values.
pub struct RecordView {
    pub type_id: u32,
    pub name: Option<Seq<char>>,
    pub msg: Option<Seq<(u32, WireSpec)>>,
}

pub open spec fn record_view(r: Record) -> RecordView {
    RecordView {
        type_id: r.type_id,
        name: match r.name {
            Some(s) => Some(s@),
            None => None,
        },
        msg: match r.msg {
            Some(m) => Some(fields_view(m.fields@)),
            None => None,
        },
    }
}

/// What loading has gathered, as mathematical values.
pub struct LoadView {
    pub records: Map<u64, RecordView>,
    pub unknown: Map<u32, int>,
    pub undecodable: Map<u32, int>,
    pub undecodable_bytes: Map<u64, u32>,
    pub applied: int,
    pub dropped: int,
}

pub open spec fn counts_view(m: Map<u32, u64>) -> Map<u32, int> {
    Map::new(|t: u32| m.contains_key(t), |t: u32| m[t] as int)
}

pub open spec fn loaded_view(l: Loaded) -> LoadView {
    LoadView {
        records: Map::new(|id: u64| l.records@.contains_key(id), |id: u64| record_view(l.records@[id])),
        unknown: counts_view(l.unknown_ids@),
        undecodable: counts_view(l.undecodable_ids@),
        undecodable_bytes: l.undecodable_bytes@,
        applied: l.patches_applied as int,
        dropped: l.patches_dropped as int,
    }
}

/// Each record sits under its own id.
pub open spec fn ids_consistent(l: Loaded) -> bool {
    forall|id: u64| #[trigger] l.records@.contains_key(id) ==> l.records@[id].id == id
}

/// The name a registry table gives a type id: its first entry for it.
pub open spec fn name_in(table: Seq<(u32, String)>, id: u32) -> Option<Seq<char>>
    decreases table.len(),
{
    if table.len() == 0 {
        None
    } else if table[0].0 == id {
        Some(table[0].1@)
    } else {
        name_in(table.drop_first(), id)
    }
}

/// Object types verified to carry no content (empty payloads, no data
/// references): loaded silently, never warned about.
pub open spec fn is_ignored_type(t: u32) -> bool {
    t == 608 || t == 10016
}

/// A count of `t` added.
pub open spec fn bumped(m: Map<u32, int>, t: u32) -> Map<u32, int> {
    m.insert(
        t,
        if m.contains_key(t) {
            m[t] + 1
        } else {
            1
        },
    )
}

/// Message `k` of archive `a` recorded, given the merged payloads `patched`
/// of the archive's patched messages and the registry's names `table`.
///
/// Patch messages (consumed by the merge), ignored types and command,
/// history or selection classes make no record. Otherwise the payload is
/// the merged one or else the walked one; an unnamed type and a payload
/// that does not walk are counted. One segment is one object: the first
/// message makes the record, and a later one replaces it only when it
/// walks where the record did not, or both walk and only the later one is
/// named.
pub open spec fn record_step(
    st: LoadView,
    a: ArchiveInfo,
    patched: Map<usize, Seq<(u32, WireSpec)>>,
    table: Seq<(u32, String)>,
    k: int,
) -> LoadView {
    let m = a.messages@[k];
    let name = name_in(table, m.type_id);
    if (m.type_id == 0 && a.should_merge) || is_ignored_type(m.type_id) || (name matches Some(
        n,
    ) && is_command_name_spec(n)) {
        st
    } else {
        let parsed = if patched.contains_key(k as usize) {
            Some(patched[k as usize])
        } else {
            parse_spec(m.payload@)
        };
        let fresh = RecordView { type_id: m.type_id, name, msg: parsed };
        let records = if !st.records.contains_key(a.identifier) {
            st.records.insert(a.identifier, fresh)
        } else {
            let old = st.records[a.identifier];
            let better = match (old.msg, parsed) {
                (None, Some(_)) => true,
                (Some(_), Some(_)) => old.name is None && name is Some,
                _ => false,
            };
            if better {
                st.records.insert(a.identifier, fresh)
            } else {
                st.records
            }
        };
        LoadView {
            records,
            unknown: if name is None {
                bumped(st.unknown, m.type_id)
            } else {
                st.unknown
            },
            undecodable: if parsed is None {
                bumped(st.undecodable, m.type_id)
            } else {
                st.undecodable
            },
            undecodable_bytes: if parsed is None {
                st.undecodable_bytes.insert(a.identifier, m.length)
            } else {
                st.undecodable_bytes
            },
            ..st
        }
    }
}

/// The first `k` messages of archive `a` recorded.
pub open spec fn messages_upto(
    st: LoadView,
    a: ArchiveInfo,
    patched: Map<usize, Seq<(u32, WireSpec)>>,
    table: Seq<(u32, String)>,
    k: int,
) -> LoadView
    decreases k,
{
    if k <= 0 {
        st
    } else {
        record_step(messages_upto(st, a, patched, table, k - 1), a, patched, table, k - 1)
    }
}

/// Archive `a` loaded: its patches merged (when it holds any), then its
/// messages recorded.
pub open spec fn archive_step(st: LoadView, a: ArchiveInfo, table: Seq<(u32, String)>) -> LoadView {
    let n = a.messages@.len() as int;
    if a.should_merge {
        let (p, ap, dr) = patches_upto(a.messages@, n);
        messages_upto(
            LoadView { applied: st.applied + ap, dropped: st.dropped + dr, ..st },
            a,
            p,
            table,
            n,
        )
    } else {
        messages_upto(st, a, Map::empty(), table, n)
    }
}

/// Nothing loaded yet.
pub open spec fn empty_load() -> LoadView {
    LoadView {
        records: Map::empty(),
        unknown: Map::empty(),
        undecodable: Map::empty(),
        undecodable_bytes: Map::empty(),
        applied: 0,
        dropped: 0,
    }
}

/// The first `i` archives loaded, in order.
pub open spec fn load_upto(archives: Seq<ArchiveInfo>, table: Seq<(u32, String)>, i: int) -> LoadView
    decreases i,
{
    if i <= 0 {
        empty_load()
    } else {
        archive_step(load_upto(archives, table, i - 1), archives[i - 1], table)
    }
}

/// The number of messages in the first `i` archives.
pub open spec fn message_total(archives: Seq<ArchiveInfo>, i: int) -> int
    decreases i,
{
    if i <= 0 {
        0
    } else {
        message_total(archives, i - 1) + archives[i - 1].messages@.len()
    }
}

/// The registry's name for a type id.
pub fn lookup_name(table: &Vec<(u32, String)>, id: u32) -> (r: Option<String>)
    ensures
        match name_in(table@, id) {
            Some(s) => r matches Some(x) && x@ == s,
            None => r is None,
        },
{
    let mut i: usize = 0;
    assert(table@.skip(0) =~= table@);
    while i < table.len()
        invariant
            i <= table@.len(),
            name_in(table@, id) == name_in(table@.skip(i as int), id),
        decreases table@.len() - i,
    {
        assert(table@.skip(i as int)[0] == table@[i as int]);
        if table[i].0 == id {
            return Some(owned(table[i].1.as_str()));
        }
        assert(table@.skip(i as int).drop_first() =~= table@.skip(i + 1));
        i = i + 1;
    }
    assert(table@.skip(i as int) =~= Seq::<(u32, String)>::empty());
    None
}

/// One more object of type `t` counted.
fn bump_count(m: &mut BTreeMap<u32, u64>, t: u32)
    requires
        old(m)@.contains_key(t) ==> old(m)@[t] < u64::MAX,
    ensures
        counts_view(final(m)@) == bumped(counts_view(old(m)@), t),
{
    let c: u64 = match m.get(&t) {
        Some(c) => *c,
        None => 0,
    };
    m.insert(t, c + 1);
    assert(counts_view(m@) =~= bumped(counts_view(old(m)@), t));
}

/// Message `k` of archive `a` recorded (see `record_step`).
fn record_message(
    loaded: &mut Loaded,
    a: &ArchiveInfo,
    patched: &mut HashMap<usize, Msg>,
    table: &Vec<(u32, String)>,
    k: usize,
)
    requires
        k < a.messages@.len(),
        ids_consistent(*old(loaded)),
        forall|t: u32| #[trigger]
            old(loaded).unknown_ids@.contains_key(t) ==> old(loaded).unknown_ids@[t] < u64::MAX,
        forall|t: u32| #[trigger]
            old(loaded).undecodable_ids@.contains_key(t) ==> old(loaded).undecodable_ids@[t]
                < u64::MAX,
    ensures
        ids_consistent(*final(loaded)),
        loaded_view(*final(loaded)) == record_step(
            loaded_view(*old(loaded)),
            *a,
            merged_view(old(patched)@),
            table@,
            k as int,
        ),
        merged_view(final(patched)@) == merged_view(old(patched)@).remove(k as usize),
{
    let ghost st = loaded_view(*loaded);
    let ghost pv = merged_view(patched@);
    let message = &a.messages[k];
    let name = lookup_name(table, message.type_id);
    let command = match &name {
        Some(n) => is_command_name(n.as_str()),
        None => false,
    };
    if (message.type_id == 0 && a.should_merge) || message.type_id == 608 || message.type_id
        == 10016 || command {
        let _ = patched.remove(&k);
        assert(merged_view(patched@) =~= pv.remove(k as usize));
        return;
    }
    let parsed = match patched.remove(&k) {
        Some(m) => Some(m),
        None => Msg::parse(message.payload.as_slice()),
    };
    assert(merged_view(patched@) =~= pv.remove(k as usize));
    let ghost parsed_v: Option<Seq<(u32, WireSpec)>> = match &parsed {
        Some(m) => Some(fields_view(m.fields@)),
        None => None,
    };
    let ghost name_v: Option<Seq<char>> = match &name {
        Some(s) => Some(s@),
        None => None,
    };
    let unnamed = name.is_none();
    let unparsed = parsed.is_none();
    if unnamed {
        bump_count(&mut loaded.unknown_ids, message.type_id);
    }
    if unparsed {
        bump_count(&mut loaded.undecodable_ids, message.type_id);
        loaded.undecodable_bytes.insert(a.identifier, message.length);
    }
    let id = a.identifier;
    let better = match loaded.records.get(&id) {
        None => true,
        Some(r) => match (&r.msg, &parsed) {
            (None, Some(_)) => true,
            (Some(_), Some(_)) => r.name.is_none() && !unnamed,
            _ => false,
        },
    };
    let ghost fresh = RecordView { type_id: message.type_id, name: name_v, msg: parsed_v };
    if better {
        let rec = Record { id, type_id: message.type_id, name, msg: parsed };
        assert(record_view(rec) == fresh);
        loaded.records.insert(id, rec);
    }
    assert(loaded_view(*loaded).records =~= record_step(st, *a, pv, table@, k as int).records);
    assert(loaded_view(*loaded).unknown =~= record_step(st, *a, pv, table@, k as int).unknown);
    assert(loaded_view(*loaded).undecodable =~= record_step(
        st,
        *a,
        pv,
        table@,
        k as int,
    ).undecodable);
}

} // verus!

verus! {

/// Every per-type count is at most `c`.
pub open spec fn counts_bounded(v: LoadView, c: int) -> bool {
    &&& forall|t: u32| #[trigger] v.unknown.contains_key(t) ==> v.unknown[t] <= c
    &&& forall|t: u32| #[trigger] v.undecodable.contains_key(t) ==> v.undecodable[t] <= c
}

proof fn lemma_record_step_bounds(
    st: LoadView,
    a: ArchiveInfo,
    patched: Map<usize, Seq<(u32, WireSpec)>>,
    table: Seq<(u32, String)>,
    k: int,
    c: int,
)
    requires
        counts_bounded(st, c),
        0 <= c,
    ensures
        counts_bounded(record_step(st, a, patched, table, k), c + 1),
        record_step(st, a, patched, table, k).applied == st.applied,
        record_step(st, a, patched, table, k).dropped == st.dropped,
{
    let r = record_step(st, a, patched, table, k);
    let ty = a.messages@[k].type_id;
    assert(r.unknown == st.unknown || r.unknown == bumped(st.unknown, ty));
    assert(r.undecodable == st.undecodable || r.undecodable == bumped(st.undecodable, ty));
    assert forall|t: u32| #[trigger] r.unknown.contains_key(t) implies r.unknown[t] <= c + 1 by {
        lemma_bumped_bound(st.unknown, r.unknown, ty, t, c);
    }
    assert forall|t: u32| #[trigger] r.undecodable.contains_key(t) implies r.undecodable[t] <= c
        + 1 by {
        lemma_bumped_bound(st.undecodable, r.undecodable, ty, t, c);
    }
}

proof fn lemma_bumped_bound(before: Map<u32, int>, after: Map<u32, int>, ty: u32, t: u32, c: int)
    requires
        after == before || after == bumped(before, ty),
        forall|u: u32| #[trigger] before.contains_key(u) ==> before[u] <= c,
        after.contains_key(t),
        0 <= c,
    ensures
        after[t] <= c + 1,
{
    if after == before {
        assert(before.contains_key(t));
    } else if t == ty {
        if before.contains_key(t) {
            assert(before[t] <= c);
        }
    } else {
        assert(before.contains_key(t));
        assert(after[t] == before[t]);
    }
}

proof fn lemma_message_total_mono(archives: Seq<ArchiveInfo>, i: int, j: int)
    requires
        0 <= i <= j <= archives.len(),
    ensures
        0 <= message_total(archives, i) <= message_total(archives, j),
    decreases j,
{
    if j > i {
        lemma_message_total_mono(archives, i, j - 1);
    } else if i > 0 {
        lemma_message_total_mono(archives, i - 1, i - 1);
    }
}

/// One archive loaded (see `archive_step`).
fn load_archive(loaded: &mut Loaded, a: &ArchiveInfo, table: &Vec<(u32, String)>, Ghost(c): Ghost<int>)
    requires
        0 <= c,
        c + a.messages@.len() <= u64::MAX,
        ids_consistent(*old(loaded)),
        counts_bounded(loaded_view(*old(loaded)), c),
        old(loaded).patches_applied + old(loaded).patches_dropped <= c,
    ensures
        ids_consistent(*final(loaded)),
        loaded_view(*final(loaded)) == archive_step(loaded_view(*old(loaded)), *a, table@),
        counts_bounded(loaded_view(*final(loaded)), c + a.messages@.len()),
        final(loaded).patches_applied + final(loaded).patches_dropped <= c + a.messages@.len(),
{
    let ghost st0 = loaded_view(*loaded);
    let n = a.messages.len();
    let mut patched: HashMap<usize, Msg> = if a.should_merge {
        proof {
            lemma_patch_counts(a.messages@, n as int);
        }
        apply_patches(a, &mut loaded.patches_applied, &mut loaded.patches_dropped)
    } else {
        HashMap::new()
    };
    let ghost p = merged_view(patched@);
    let ghost st1 = loaded_view(*loaded);
    proof {
        if a.should_merge {
            let (pm, ap, dr) = patches_upto(a.messages@, n as int);
            assert(st1 == LoadView { applied: st0.applied + ap, dropped: st0.dropped + dr, ..st0 });
            assert(p == pm);
        } else {
            assert(p =~= Map::<usize, Seq<(u32, WireSpec)>>::empty());
            assert(st1 == st0);
        }
    }
    let mut k: usize = 0;
    while k < n
        invariant
            k <= n == a.messages@.len(),
            0 <= c,
            c + n <= u64::MAX,
            ids_consistent(*loaded),
            loaded_view(*loaded) == messages_upto(st1, *a, p, table@, k as int),
            counts_bounded(loaded_view(*loaded), c + k),
            loaded.patches_applied + loaded.patches_dropped <= c + n,
            forall|j: usize|
                j >= k ==> (#[trigger] merged_view(patched@).contains_key(j) == p.contains_key(j)
                    && (p.contains_key(j) ==> merged_view(patched@)[j] == p[j])),
        decreases n - k,
    {
        let ghost before = loaded_view(*loaded);
        let ghost pv = merged_view(patched@);
        assert forall|t: u32| #[trigger] loaded.unknown_ids@.contains_key(t) implies loaded.unknown_ids@[t]
            < u64::MAX by {
            assert(loaded_view(*loaded).unknown.contains_key(t));
        }
        assert forall|t: u32| #[trigger] loaded.undecodable_ids@.contains_key(t) implies loaded.undecodable_ids@[t]
            < u64::MAX by {
            assert(loaded_view(*loaded).undecodable.contains_key(t));
        }
        proof {
            lemma_record_step_bounds(before, *a, p, table@, k as int, c + k);
            assert(record_step(before, *a, pv, table@, k as int) == record_step(
                before,
                *a,
                p,
                table@,
                k as int,
            ));
        }
        record_message(loaded, a, &mut patched, table, k);
        k = k + 1;
    }
}

/// Every object of a document's archives, in order, named by the
/// registry's table for the document's application: each segment's
/// patches merged, then its messages recorded (see `record_step`).
pub fn load(archives: &[ArchiveInfo], table: &Vec<(u32, String)>) -> (r: Loaded)
    requires
        message_total(archives@, archives@.len() as int) <= u64::MAX,
    ensures
        ids_consistent(r),
        loaded_view(r) == load_upto(archives@, table@, archives@.len() as int),
{
    let mut loaded = Loaded {
        records: HashMap::new(),
        unknown_ids: BTreeMap::new(),
        undecodable_ids: BTreeMap::new(),
        undecodable_bytes: HashMap::new(),
        patches_applied: 0,
        patches_dropped: 0,
    };
    assert(loaded_view(loaded).records =~= Map::empty());
    assert(loaded_view(loaded).unknown =~= Map::empty());
    assert(loaded_view(loaded).undecodable =~= Map::empty());
    assert(loaded_view(loaded) == empty_load());
    let mut i: usize = 0;
    while i < archives.len()
        invariant
            i <= archives@.len(),
            message_total(archives@, archives@.len() as int) <= u64::MAX,
            ids_consistent(loaded),
            loaded_view(loaded) == load_upto(archives@, table@, i as int),
            counts_bounded(loaded_view(loaded), message_total(archives@, i as int)),
            loaded.patches_applied + loaded.patches_dropped <= message_total(archives@, i as int),
        decreases archives@.len() - i,
    {
        proof {
            lemma_message_total_mono(archives@, i as int, i + 1);
            lemma_message_total_mono(archives@, i + 1, archives@.len() as int);
        }
        load_archive(&mut loaded, &archives[i], table, Ghost(message_total(archives@, i as int)));
        i = i + 1;
    }
    loaded
}

impl Loaded {
    /// The object with id `id`.
    pub fn record(&self, id: u64) -> (r: Option<&Record>)
        ensures
            match r {
                Some(x) => self.records@.contains_key(id) && *x == self.records@[id],
                None => !self.records@.contains_key(id),
            },
    {
        self.records.get(&id)
    }

    /// The fields of the object with id `id`, when it exists and walked.
    pub fn msg(&self, id: u64) -> (r: Option<&Msg>)
        ensures
            match r {
                Some(m) => self.records@.contains_key(id) && self.records@[id].msg == Some(*m),
                None => !self.records@.contains_key(id) || self.records@[id].msg is None,
            },
    {
        match self.records.get(&id) {
            Some(rec) => rec.msg.as_ref(),
            None => None,
        }
    }
}

} // verus!

verus! {

/// `p` starts `s`.
pub open spec fn starts(s: Seq<char>, p: Seq<char>) -> bool {
    p.len() <= s.len() && s.take(p.len() as int) == p
}

/// The application a registry name belongs to, by its prefix.
pub open spec fn app_of_name(n: Seq<char>) -> Option<AppKind> {
    if starts(n, "TN."@) {
        Some(AppKind::Numbers)
    } else if starts(n, "TP."@) {
        Some(AppKind::Pages)
    } else if starts(n, "KN."@) {
        Some(AppKind::Keynote)
    } else {
        None
    }
}

/// The application named by the first of the first `k` messages whose
/// type's name carries an application prefix.
pub open spec fn app_in_messages(msgs: Seq<MessageInfo>, table: Seq<(u32, String)>, k: int) -> Option<
    AppKind,
>
    decreases k,
{
    if k <= 0 {
        None
    } else {
        match app_in_messages(msgs, table, k - 1) {
            Some(x) => Some(x),
            None => match name_in(table, msgs[k - 1].type_id) {
                Some(n) => app_of_name(n),
                None => None,
            },
        }
    }
}

/// The same over the first `i` archives, in order.
pub open spec fn app_in_archives(archives: Seq<ArchiveInfo>, table: Seq<(u32, String)>, i: int) -> Option<
    AppKind,
>
    decreases i,
{
    if i <= 0 {
        None
    } else {
        match app_in_archives(archives, table, i - 1) {
            Some(x) => Some(x),
            None => app_in_messages(
                archives[i - 1].messages@,
                table,
                archives[i - 1].messages@.len() as int,
            ),
        }
    }
}

pub(crate) fn has_prefix(s: &str, p: &str) -> (r: bool)
    ensures
        r == starts(s@, p@),
{
    let v = chars_of(s);
    let w = chars_of(p);
    if w.len() > v.len() {
        return false;
    }
    let r = at_exec(&v, 0, &w);
    assert(v@.subrange(0, w@.len() as int) =~= v@.take(w@.len() as int));
    r
}

pub fn app_of_exec(name: &str) -> (r: Option<AppKind>)
    ensures
        r == app_of_name(name@),
{
    if has_prefix(name, "TN.") {
        Some(AppKind::Numbers)
    } else if has_prefix(name, "TP.") {
        Some(AppKind::Pages)
    } else if has_prefix(name, "KN.") {
        Some(AppKind::Keynote)
    } else {
        None
    }
}

/// The application of a document whose stream names did not tell it: the
/// first object type, in archive and message order, whose unambiguous
/// registry name (in `table`) carries a `TN.`, `TP.` or `KN.` prefix.
pub fn recover_app(archives: &[ArchiveInfo], table: &Vec<(u32, String)>) -> (r: Option<AppKind>)
    ensures
        r == app_in_archives(archives@, table@, archives@.len() as int),
{
    let mut i: usize = 0;
    while i < archives.len()
        invariant
            i <= archives@.len(),
            app_in_archives(archives@, table@, i as int) is None,
        decreases archives@.len() - i,
    {
        let msgs = &archives[i].messages;
        let mut k: usize = 0;
        while k < msgs.len()
            invariant
                k <= msgs@.len(),
                i < archives@.len(),
                msgs@ == archives@[i as int].messages@,
                app_in_archives(archives@, table@, i as int) is None,
                app_in_messages(msgs@, table@, k as int) is None,
            decreases msgs@.len() - k,
        {
            match lookup_name(table, msgs[k].type_id) {
                Some(n) => match app_of_exec(n.as_str()) {
                    Some(app) => {
                        proof {
                            lemma_app_in_messages_stable(msgs@, table@, k + 1, msgs@.len() as int);
                            lemma_app_in_archives_stable(
                                archives@,
                                table@,
                                i + 1,
                                archives@.len() as int,
                            );
                        }
                        return Some(app);
                    },
                    None => {},
                },
                None => {},
            }
            k = k + 1;
        }
        i = i + 1;
    }
    None
}

proof fn lemma_app_in_messages_stable(msgs: Seq<MessageInfo>, table: Seq<(u32, String)>, k: int, k2: int)
    requires
        k <= k2,
        app_in_messages(msgs, table, k) is Some,
    ensures
        app_in_messages(msgs, table, k2) == app_in_messages(msgs, table, k),
    decreases k2 - k,
{
    if k2 > k {
        lemma_app_in_messages_stable(msgs, table, k, k2 - 1);
    }
}

proof fn lemma_app_in_archives_stable(
    archives: Seq<ArchiveInfo>,
    table: Seq<(u32, String)>,
    i: int,
    i2: int,
)
    requires
        i <= i2,
        app_in_archives(archives, table, i) is Some,
    ensures
        app_in_archives(archives, table, i2) == app_in_archives(archives, table, i),
    decreases i2 - i,
{
    if i2 > i {
        lemma_app_in_archives_stable(archives, table, i, i2 - 1);
    }
}

} // verus!

verus! {

/// Clearing the first `k` paths empties field `n` when one of them names
/// it, and leaves it as it was otherwise.
proof fn lemma_clear_paths_keep(b: Seq<(u32, WireSpec)>, removes: Seq<Seq<u64>>, k: int, n: u32)
    requires
        0 <= k <= removes.len(),
    ensures
        keep_num(clear_paths(b, removes, k), n) == if exists|j: int|
            0 <= j < k && #[trigger] removes[j][0] as u32 == n {
            Seq::<(u32, WireSpec)>::empty()
        } else {
            keep_num(b, n)
        },
    decreases k,
{
    if k > 0 {
        lemma_clear_paths_keep(b, removes, k - 1, n);
        let m = removes[k - 1][0] as u32;
        lemma_clear_keeps_others(clear_paths(b, removes, k - 1), m, n);
        if m != n {
            if exists|j: int| 0 <= j < k && #[trigger] removes[j][0] as u32 == n {
                let j = choose|j: int| 0 <= j < k && #[trigger] removes[j][0] as u32 == n;
                assert(j < k - 1);
            }
        }
    }
}

/// A patched field: the patch's own occurrences when it sets the field,
/// none when it clears the field without setting it, the base's otherwise.
/// Clearing comes first, so a patch that clears and resets a field keeps
/// the new value.
pub proof fn lemma_patched_field(
    base: Seq<(u32, WireSpec)>,
    removes: Seq<Seq<u64>>,
    repl: Seq<(u32, WireSpec)>,
    n: u32,
)
    ensures
        keep_num(set_fields_spec(clear_paths(base, removes, removes.len() as int), repl), n) == if keep_num(
            repl,
            n,
        ).len() > 0 {
            keep_num(repl, n)
        } else if exists|j: int| 0 <= j < removes.len() && #[trigger] removes[j][0] as u32 == n {
            Seq::<(u32, WireSpec)>::empty()
        } else {
            keep_num(base, n)
        },
{
    lemma_set_fields_replaces(clear_paths(base, removes, removes.len() as int), repl, n);
    lemma_clear_paths_keep(base, removes, removes.len() as int, n);
}

} // verus!

