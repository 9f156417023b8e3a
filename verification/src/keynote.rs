//! Keynote's object graph read for order and inheritance: the navigator
//! tree of slide nodes, the slides and masters a show lists, and the roles
//! of master placeholders.
use vstd::prelude::*;
use std::collections::HashMap;
use crate::pb::{Msg, vget, vvarint, vmsg, vall, deep_ref_spec, refs_of, lemma_vall};
use crate::wire::{WireSpec, fields_view};
use crate::loader::{Loaded, RecordView, loaded_view, starts, has_prefix};
use crate::ctx::loaded_msg;
use crate::text_util::owned;

verus! {

broadcast use vstd::std_specs::hash::group_hash_axioms;

/// Field `f` of a viewed message read as a reference.
pub open spec fn ref_of(m: Seq<(u32, WireSpec)>, f: u32) -> Option<u64> {
    match vget(m, f) {
        Some(v) => deep_ref_spec(v),
        None => None,
    }
}

/// A boolean field of a viewed message: a non-zero varint.
pub open spec fn bool_of(m: Seq<(u32, WireSpec)>, f: u32) -> Option<bool> {
    match vvarint(m, f) {
        Some(v) => Some(v != 0),
        None => None,
    }
}

fn reference_of(m: &Msg, f: u32) -> (r: Option<u64>)
    ensures
        r == ref_of(fields_view(m.fields@), f),
{
    m.reference(f)
}

/// The object an id stands for: a navigator node (type 4) stands for the
/// slide in its field 2, when it names one; any other object for itself.
pub open spec fn node_target(records: Map<u64, RecordView>, id: u64) -> u64 {
    if records.contains_key(id) && records[id].type_id == 4 {
        match loaded_msg(records, id) {
            Some(n) => match ref_of(n, 2) {
                Some(s) => s,
                None => id,
            },
            None => id,
        }
    } else {
        id
    }
}

/// The slide a navigator node stands for, or the id itself.
pub fn node_target_exec(loaded: &Loaded, id: u64) -> (r: u64)
    ensures
        r == node_target(loaded_view(*loaded).records, id),
{
    match loaded.record(id) {
        Some(rec) => {
            if rec.type_id == 4 {
                match &rec.msg {
                    Some(n) => match reference_of(n, 2) {
                        Some(s) => s,
                        None => id,
                    },
                    None => id,
                }
            } else {
                id
            }
        },
        None => id,
    }
}

/// A slide's master: its template slide (field 17), through a navigator
/// node when it names one.
pub open spec fn template_of(records: Map<u64, RecordView>, slide_id: u64) -> Option<u64> {
    match loaded_msg(records, slide_id) {
        Some(m) => match ref_of(m, 17) {
            Some(tid) => Some(node_target(records, tid)),
            None => None,
        },
        None => None,
    }
}

/// The master of a slide, `None` when the slide is not loaded or names no
/// template.
pub fn resolve_template_id(loaded: &Loaded, slide_id: u64) -> (r: Option<u64>)
    ensures
        r == template_of(loaded_view(*loaded).records, slide_id),
{
    let m = match loaded.msg(slide_id) {
        Some(m) => m,
        None => {
            return None;
        },
    };
    match reference_of(m, 17) {
        Some(tid) => Some(node_target_exec(loaded, tid)),
        None => None,
    }
}

/// The role a Keynote placeholder kind (field 2) names.
pub open spec fn kind_role(k: u64) -> Seq<char> {
    if k == 1 {
        "slide-number"@
    } else if k == 2 {
        "title"@
    } else if k == 3 {
        "body"@
    } else if k == 4 {
        "object"@
    } else {
        "placeholder"@
    }
}

/// The role of a master placeholder: only placeholder objects (types 7 and
/// 12) have one; Keynote's own (a `KN.` type name) by their kind, others
/// plainly "placeholder".
pub open spec fn role_of(records: Map<u64, RecordView>, pid: u64) -> Option<Seq<char>> {
    if !records.contains_key(pid) {
        None
    } else {
        let rec = records[pid];
        match rec.msg {
            None => None,
            Some(m) => if rec.type_id == 7 || rec.type_id == 12 {
                if rec.name matches Some(n) && starts(n, "KN."@) {
                    Some(
                        kind_role(
                            match vvarint(m, 2) {
                                Some(k) => k,
                                None => 0,
                            },
                        ),
                    )
                } else {
                    Some("placeholder"@)
                }
            } else {
                None
            },
        }
    }
}

/// The role name of a master placeholder.
pub fn placeholder_role(loaded: &Loaded, pid: u64) -> (r: Option<String>)
    ensures
        match role_of(loaded_view(*loaded).records, pid) {
            Some(s) => r matches Some(x) && x@ == s,
            None => r is None,
        },
{
    let rec = match loaded.record(pid) {
        Some(rec) => rec,
        None => {
            return None;
        },
    };
    let m = match &rec.msg {
        Some(m) => m,
        None => {
            return None;
        },
    };
    if rec.type_id != 7 && rec.type_id != 12 {
        return None;
    }
    let is_kn = match &rec.name {
        Some(n) => has_prefix(n.as_str(), "KN."),
        None => false,
    };
    if !is_kn {
        return Some(owned("placeholder"));
    }
    proof {
        lemma_vall(m.fields@, 2);
    }
    let k = match m.varint(2) {
        Some(k) => k,
        None => 0,
    };
    Some(
        if k == 1 {
            owned("slide-number")
        } else if k == 2 {
            owned("title")
        } else if k == 3 {
            owned("body")
        } else if k == 4 {
            owned("object")
        } else {
            owned("placeholder")
        },
    )
}

} // verus!

verus! {

/// The navigator tree under a node reaches no deeper than `d` levels of
/// loaded nodes (its children are the references in field 1). A tree that
/// loops back on itself is within no bound.
pub open spec fn tree_within(records: Map<u64, RecordView>, id: Option<u64>, d: nat) -> bool
    decreases d, 0nat,
{
    match id {
        None => true,
        Some(nid) => match loaded_msg(records, nid) {
            None => true,
            Some(n) => d > 0 && children_within(records, refs_of(vall(n, 1)), (d - 1) as nat),
        },
    }
}

/// Every tree under the nodes `cs` is within `d`.
pub open spec fn children_within(records: Map<u64, RecordView>, cs: Seq<u64>, d: nat) -> bool
    decreases d, cs.len() + 1,
{
    if cs.len() == 0 {
        true
    } else {
        children_within(records, cs.drop_last(), d) && tree_within(records, Some(cs.last()), d)
    }
}

/// The loaded nodes of the tree under a node, in pre-order (a node before
/// its children, children in order), read `d` levels deep.
pub open spec fn visited(records: Map<u64, RecordView>, id: Option<u64>, d: nat) -> Seq<
    Seq<(u32, WireSpec)>,
>
    decreases d, 0nat,
{
    match id {
        None => Seq::empty(),
        Some(nid) => match loaded_msg(records, nid) {
            None => Seq::empty(),
            Some(n) => if d == 0 {
                Seq::empty()
            } else {
                seq![n] + visited_children(records, refs_of(vall(n, 1)), (d - 1) as nat)
            },
        },
    }
}

/// The nodes of the trees under `cs`, tree after tree.
pub open spec fn visited_children(records: Map<u64, RecordView>, cs: Seq<u64>, d: nat) -> Seq<
    Seq<(u32, WireSpec)>,
>
    decreases d, cs.len() + 1,
{
    if cs.len() == 0 {
        Seq::empty()
    } else {
        visited_children(records, cs.drop_last(), d) + visited(records, Some(cs.last()), d)
    }
}

/// Any two depth bounds that cover a tree read the same nodes.
pub proof fn lemma_visited_stable(records: Map<u64, RecordView>, id: Option<u64>, d1: nat, d2: nat)
    requires
        tree_within(records, id, d1),
        tree_within(records, id, d2),
    ensures
        visited(records, id, d1) == visited(records, id, d2),
    decreases d1, 0nat,
{
    match id {
        None => {},
        Some(nid) => match loaded_msg(records, nid) {
            None => {},
            Some(n) => {
                lemma_children_stable(records, refs_of(vall(n, 1)), (d1 - 1) as nat, (d2 - 1) as nat);
            },
        },
    }
}

proof fn lemma_children_stable(records: Map<u64, RecordView>, cs: Seq<u64>, d1: nat, d2: nat)
    requires
        children_within(records, cs, d1),
        children_within(records, cs, d2),
    ensures
        visited_children(records, cs, d1) == visited_children(records, cs, d2),
    decreases d1, cs.len() + 1,
{
    if cs.len() > 0 {
        lemma_children_stable(records, cs.drop_last(), d1, d2);
        lemma_visited_stable(records, Some(cs.last()), d1, d2);
    }
}

/// The tree under a node read at a depth bound that covers it (every such
/// bound reads the same, `lemma_visited_stable`).
pub open spec fn nodes_under(records: Map<u64, RecordView>, id: Option<u64>) -> Seq<
    Seq<(u32, WireSpec)>,
> {
    visited(records, id, choose|d: nat| tree_within(records, id, d))
}

/// The slides the nodes stand for (field 2), in order.
pub open spec fn slides_of(ns: Seq<Seq<(u32, WireSpec)>>) -> Seq<u64>
    decreases ns.len(),
{
    if ns.len() == 0 {
        Seq::empty()
    } else {
        match ref_of(ns.last(), 2) {
            Some(s) => slides_of(ns.drop_last()).push(s),
            None => slides_of(ns.drop_last()),
        }
    }
}

proof fn lemma_slides_concat(a: Seq<Seq<(u32, WireSpec)>>, b: Seq<Seq<(u32, WireSpec)>>)
    ensures
        slides_of(a + b) == slides_of(a) + slides_of(b),
    decreases b.len(),
{
    if b.len() == 0 {
        assert(a + b =~= a);
        assert(slides_of(a) + slides_of(b) =~= slides_of(a));
    } else {
        assert((a + b).drop_last() =~= a + b.drop_last());
        lemma_slides_concat(a, b.drop_last());
        let x = slides_of(a);
        let y = slides_of(b.drop_last());
        assert forall|s: u64| (x + y).push(s) =~= x + y.push(s) by {}
    }
}

fn walk_nodes(loaded: &Loaded, node_id: Option<u64>, d: usize, out: &mut Vec<u64>)
    ensures
        final(out)@ == old(out)@ + slides_of(visited(loaded_view(*loaded).records, node_id, d as nat)),
    decreases d,
{
    let ghost records = loaded_view(*loaded).records;
    let ghost start = out@;
    assert(start + slides_of(Seq::empty()) =~= start);
    let nid = match node_id {
        Some(nid) => nid,
        None => {
            return;
        },
    };
    let n = match loaded.msg(nid) {
        Some(n) => n,
        None => {
            return;
        },
    };
    if d == 0 {
        return;
    }
    let ghost nv = fields_view(n.fields@);
    match reference_of(n, 2) {
        Some(s) => {
            out.push(s);
        },
        None => {},
    }
    proof {
        assert(slides_of(seq![nv]) == slides_of(Seq::<Seq<(u32, WireSpec)>>::empty()) + match ref_of(nv, 2) {
            Some(s) => seq![s],
            None => Seq::<u64>::empty(),
        }) by {
            assert(seq![nv].drop_last() =~= Seq::<Seq<(u32, WireSpec)>>::empty());
        }
    }
    let cs = n.references(1);
    let ghost head = out@;
    assert(head == start + slides_of(seq![nv]));
    let mut i: usize = 0;
    assert(visited_children(records, cs@.take(0), (d - 1) as nat) =~= Seq::<Seq<(u32, WireSpec)>>::empty()) by {
        assert(cs@.take(0) =~= Seq::<u64>::empty());
    }
    assert(head + slides_of(Seq::empty()) =~= head);
    while i < cs.len()
        invariant
            i <= cs@.len(),
            d > 0,
            records == loaded_view(*loaded).records,
            cs@ == refs_of(vall(nv, 1)),
            out@ == head + slides_of(visited_children(records, cs@.take(i as int), (d - 1) as nat)),
        decreases cs@.len() - i,
    {
        proof {
            assert(cs@.take(i + 1).drop_last() =~= cs@.take(i as int));
            assert(cs@.take(i + 1).last() == cs@[i as int]);
            lemma_slides_concat(
                visited_children(records, cs@.take(i as int), (d - 1) as nat),
                visited(records, Some(cs@[i as int]), (d - 1) as nat),
            );
        }
        walk_nodes(loaded, Some(cs[i]), d - 1, out);
        i = i + 1;
    }
    proof {
        assert(cs@.take(i as int) =~= cs@);
        lemma_slides_concat(seq![nv], visited_children(records, cs@, (d - 1) as nat));
    }
}

/// How deep a navigator tree is read: one level per loaded record. A tree
/// that does not loop back on itself holds each record at most once along
/// a path, so it is read whole; one that loops is cut there.
pub open spec fn walk_depth(loaded: Loaded) -> nat {
    loaded.records@.len()
}

pub(crate) fn walk_depth_exec(loaded: &Loaded) -> (d: usize)
    ensures
        d == walk_depth(*loaded),
{
    loaded.records.len()
}

/// A tree within `d` levels is within any deeper bound.
pub proof fn lemma_tree_within_deeper(records: Map<u64, RecordView>, id: Option<u64>, d: nat, e: nat)
    requires
        tree_within(records, id, d),
        d <= e,
    ensures
        tree_within(records, id, e),
    decreases d, 0nat,
{
    match id {
        None => {},
        Some(nid) => match loaded_msg(records, nid) {
            None => {},
            Some(n) => {
                lemma_children_within_deeper(records, refs_of(vall(n, 1)), (d - 1) as nat, (e - 1) as nat);
            },
        },
    }
}

proof fn lemma_children_within_deeper(records: Map<u64, RecordView>, cs: Seq<u64>, d: nat, e: nat)
    requires
        children_within(records, cs, d),
        d <= e,
    ensures
        children_within(records, cs, e),
    decreases d, cs.len() + 1,
{
    if cs.len() > 0 {
        lemma_children_within_deeper(records, cs.drop_last(), d, e);
        lemma_tree_within_deeper(records, Some(cs.last()), d, e);
    }
}

/// The slides of the navigator tree under a node, in pre-order: the
/// deprecated slide order of old shows, read `walk_depth` levels deep.
/// A tree within that depth is read whole (see `nodes_under`); a tree that
/// loops back on itself is cut at that depth.
pub fn walk_slide_nodes(loaded: &Loaded, node_id: Option<u64>) -> (r: Vec<u64>)
    ensures
        r@ == slides_of(visited(loaded_view(*loaded).records, node_id, walk_depth(*loaded))),
        forall|d: nat|
            #![trigger tree_within(loaded_view(*loaded).records, node_id, d)]
            tree_within(loaded_view(*loaded).records, node_id, d) && d <= walk_depth(*loaded) ==> r@ == slides_of(
                nodes_under(loaded_view(*loaded).records, node_id),
            ),
{
    let ghost records = loaded_view(*loaded).records;
    let depth = walk_depth_exec(loaded);
    let mut out: Vec<u64> = Vec::new();
    walk_nodes(loaded, node_id, depth, &mut out);
    assert(out@ =~= slides_of(visited(records, node_id, depth as nat)));
    proof {
        assert forall|d: nat|
            #![trigger tree_within(records, node_id, d)]
            tree_within(records, node_id, d) && d <= walk_depth(*loaded) implies out@ == slides_of(nodes_under(records, node_id)) by {
            lemma_tree_within_deeper(records, node_id, d, depth as nat);
            let c = choose|c: nat| tree_within(records, node_id, c);
            lemma_visited_stable(records, node_id, depth as nat, c);
        }
    }
    out
}

/// Whether the navigator tree under a node is within `d` levels.
pub fn tree_fits(loaded: &Loaded, node_id: Option<u64>, d: usize) -> (b: bool)
    ensures
        b == tree_within(loaded_view(*loaded).records, node_id, d as nat),
    decreases d,
{
    let ghost records = loaded_view(*loaded).records;
    let nid = match node_id {
        Some(nid) => nid,
        None => {
            return true;
        },
    };
    let n = match loaded.msg(nid) {
        Some(n) => n,
        None => {
            return true;
        },
    };
    if d == 0 {
        return false;
    }
    let ghost nv = fields_view(n.fields@);
    let cs = n.references(1);
    let mut i: usize = 0;
    while i < cs.len()
        invariant
            i <= cs@.len(),
            d > 0,
            records == loaded_view(*loaded).records,
            cs@ == refs_of(vall(nv, 1)),
            loaded_msg(records, nid) == Some(nv),
            node_id == Some(nid),
            children_within(records, cs@.take(i as int), (d - 1) as nat),
        decreases cs@.len() - i,
    {
        proof {
            assert(cs@.take(i + 1).drop_last() =~= cs@.take(i as int));
            assert(cs@.take(i + 1).last() == cs@[i as int]);
        }
        if !tree_fits(loaded, Some(cs[i]), d - 1) {
            proof {
                if children_within(records, cs@, (d - 1) as nat) {
                    lemma_children_within_prefix(records, cs@, (d - 1) as nat, i + 1);
                    assert(children_within(records, cs@.take(i + 1), (d - 1) as nat));
                    assert(tree_within(records, Some(cs@[i as int]), (d - 1) as nat));
                }
                assert(!children_within(records, cs@, (d - 1) as nat));
                assert(!tree_within(records, Some(nid), d as nat));
            }
            return false;
        }
        i = i + 1;
    }
    assert(cs@.take(i as int) =~= cs@);
    true
}

proof fn lemma_children_within_prefix(records: Map<u64, RecordView>, cs: Seq<u64>, d: nat, j: int)
    requires
        0 <= j <= cs.len(),
        children_within(records, cs, d),
    ensures
        children_within(records, cs.take(j), d),
    decreases cs.len(),
{
    if j < cs.len() {
        assert(cs.drop_last().take(j) =~= cs.take(j));
        lemma_children_within_prefix(records, cs.drop_last(), d, j);
    } else {
        assert(cs.take(j) =~= cs);
    }
}

} // verus!

verus! {

/// The flags a navigator node keeps for its slide: skipped (field 4) and
/// slide number visible (field 18).
pub type NodeFlags = (Option<bool>, Option<bool>);

/// The (slide, flags) pairs of the nodes that stand for a slide, in order.
pub open spec fn flag_pairs(ns: Seq<Seq<(u32, WireSpec)>>) -> Seq<(u64, NodeFlags)>
    decreases ns.len(),
{
    if ns.len() == 0 {
        Seq::empty()
    } else {
        match ref_of(ns.last(), 2) {
            Some(s) => flag_pairs(ns.drop_last()).push(
                (s, (bool_of(ns.last(), 4), bool_of(ns.last(), 18))),
            ),
            None => flag_pairs(ns.drop_last()),
        }
    }
}

/// A map with the pairs inserted in order (a later pair replaces an
/// earlier one of the same slide).
pub open spec fn insert_flags(m: Map<u64, NodeFlags>, ps: Seq<(u64, NodeFlags)>) -> Map<u64, NodeFlags>
    decreases ps.len(),
{
    if ps.len() == 0 {
        m
    } else {
        insert_flags(m, ps.drop_last()).insert(ps.last().0, ps.last().1)
    }
}

proof fn lemma_flag_pairs_concat(a: Seq<Seq<(u32, WireSpec)>>, b: Seq<Seq<(u32, WireSpec)>>)
    ensures
        flag_pairs(a + b) == flag_pairs(a) + flag_pairs(b),
    decreases b.len(),
{
    if b.len() == 0 {
        assert(a + b =~= a);
        assert(flag_pairs(a) + flag_pairs(b) =~= flag_pairs(a));
    } else {
        assert((a + b).drop_last() =~= a + b.drop_last());
        lemma_flag_pairs_concat(a, b.drop_last());
        let x = flag_pairs(a);
        let y = flag_pairs(b.drop_last());
        assert forall|p: (u64, NodeFlags)| (x + y).push(p) =~= x + y.push(p) by {}
    }
}

proof fn lemma_insert_flags_concat(m: Map<u64, NodeFlags>, a: Seq<(u64, NodeFlags)>, b: Seq<(u64, NodeFlags)>)
    ensures
        insert_flags(m, a + b) == insert_flags(insert_flags(m, a), b),
    decreases b.len(),
{
    if b.len() == 0 {
        assert(a + b =~= a);
    } else {
        assert((a + b).drop_last() =~= a + b.drop_last());
        assert((a + b).last() == b.last());
        lemma_insert_flags_concat(m, a, b.drop_last());
    }
}

fn collect_nodes(loaded: &Loaded, node_id: Option<u64>, d: usize, flags: &mut HashMap<u64, NodeFlags>)
    ensures
        final(flags)@ == insert_flags(
            old(flags)@,
            flag_pairs(visited(loaded_view(*loaded).records, node_id, d as nat)),
        ),
    decreases d,
{
    let ghost records = loaded_view(*loaded).records;
    let ghost start = flags@;
    let nid = match node_id {
        Some(nid) => nid,
        None => {
            return;
        },
    };
    let n = match loaded.msg(nid) {
        Some(n) => n,
        None => {
            return;
        },
    };
    if d == 0 {
        return;
    }
    let ghost nv = fields_view(n.fields@);
    proof {
        lemma_vall(n.fields@, 4);
        lemma_vall(n.fields@, 18);
        assert(seq![nv].drop_last() =~= Seq::<Seq<(u32, WireSpec)>>::empty());
    }
    let ghost none: Seq<Seq<(u32, WireSpec)>> = Seq::empty();
    assert(flag_pairs(none) =~= Seq::<(u64, NodeFlags)>::empty());
    assert(insert_flags(start, Seq::<(u64, NodeFlags)>::empty()) == start);
    match reference_of(n, 2) {
        Some(s) => {
            let f = (n.boolean(4), n.boolean(18));
            assert(f == (bool_of(nv, 4), bool_of(nv, 18)));
            flags.insert(s, f);
            proof {
                let ps = flag_pairs(seq![nv]);
                assert(ps == Seq::<(u64, NodeFlags)>::empty().push((s, f)));
                assert(ps.drop_last() =~= Seq::<(u64, NodeFlags)>::empty());
                assert(insert_flags(start, ps) == start.insert(s, f));
            }
        },
        None => {
            assert(flag_pairs(seq![nv]) =~= Seq::<(u64, NodeFlags)>::empty());
        },
    }
    let ghost head = flags@;
    assert(head == insert_flags(start, flag_pairs(seq![nv])));
    let cs = n.references(1);
    let mut i: usize = 0;
    assert(visited_children(records, cs@.take(0), (d - 1) as nat) =~= Seq::<Seq<(u32, WireSpec)>>::empty()) by {
        assert(cs@.take(0) =~= Seq::<u64>::empty());
    }
    while i < cs.len()
        invariant
            i <= cs@.len(),
            d > 0,
            records == loaded_view(*loaded).records,
            cs@ == refs_of(vall(nv, 1)),
            flags@ == insert_flags(head, flag_pairs(visited_children(records, cs@.take(i as int), (d - 1) as nat))),
        decreases cs@.len() - i,
    {
        proof {
            assert(cs@.take(i + 1).drop_last() =~= cs@.take(i as int));
            assert(cs@.take(i + 1).last() == cs@[i as int]);
            let a = visited_children(records, cs@.take(i as int), (d - 1) as nat);
            let b = visited(records, Some(cs@[i as int]), (d - 1) as nat);
            lemma_flag_pairs_concat(a, b);
            lemma_insert_flags_concat(head, flag_pairs(a), flag_pairs(b));
        }
        collect_nodes(loaded, Some(cs[i]), d - 1, flags);
        i = i + 1;
    }
    proof {
        assert(cs@.take(i as int) =~= cs@);
        let rest = visited_children(records, cs@, (d - 1) as nat);
        lemma_flag_pairs_concat(seq![nv], rest);
        lemma_insert_flags_concat(start, flag_pairs(seq![nv]), flag_pairs(rest));
    }
}

/// The navigator flags of every slide in the tree under a node, inserted
/// into `flags` in pre-order (a later node for the same slide wins), the
/// tree read `walk_depth` levels deep as `walk_slide_nodes` reads it.
pub fn collect_node_flags(loaded: &Loaded, node_id: Option<u64>, flags: &mut HashMap<u64, NodeFlags>)
    ensures
        final(flags)@ == insert_flags(
            old(flags)@,
            flag_pairs(visited(loaded_view(*loaded).records, node_id, walk_depth(*loaded))),
        ),
        forall|d: nat|
            #![trigger tree_within(loaded_view(*loaded).records, node_id, d)]
            tree_within(loaded_view(*loaded).records, node_id, d) && d <= walk_depth(*loaded) ==> final(flags)@
                == insert_flags(old(flags)@, flag_pairs(nodes_under(loaded_view(*loaded).records, node_id))),
{
    let ghost records = loaded_view(*loaded).records;
    let depth = walk_depth_exec(loaded);
    let ghost start = flags@;
    collect_nodes(loaded, node_id, depth, flags);
    proof {
        assert forall|d: nat|
            #![trigger tree_within(records, node_id, d)]
            tree_within(records, node_id, d) && d <= walk_depth(*loaded) implies flags@ == insert_flags(
                start,
                flag_pairs(nodes_under(records, node_id)),
            ) by {
            lemma_tree_within_deeper(records, node_id, d, depth as nat);
            let c = choose|c: nat| tree_within(records, node_id, c);
            lemma_visited_stable(records, node_id, depth as nat, c);
        }
    }
}

} // verus!

verus! {

/// The slides a show lists: its slide tree's slides (field 3, then field
/// 2); failing those its slide list (field 19); failing that the slides of
/// the deprecated navigator tree (the slide tree's field 1).
pub open spec fn listed_slides(records: Map<u64, RecordView>, show: Seq<(u32, WireSpec)>, depth: nat) -> Seq<u64> {
    let tree_slides = match vmsg(show, 3) {
        Some(t) => refs_of(vall(t, 2)),
        None => Seq::empty(),
    };
    if tree_slides.len() > 0 {
        tree_slides
    } else if refs_of(vall(show, 19)).len() > 0 {
        refs_of(vall(show, 19))
    } else {
        match vmsg(show, 3) {
            Some(t) => slides_of(visited(records, ref_of(t, 1), depth)),
            None => Seq::empty(),
        }
    }
}

/// The show's order falls back to its navigator tree.
pub open spec fn walks_navigator(show: Seq<(u32, WireSpec)>) -> bool {
    vmsg(show, 3) is Some && refs_of(vall(vmsg(show, 3)->0, 2)).len() == 0 && refs_of(
        vall(show, 19),
    ).len() == 0
}

/// Each id through its navigator node.
pub open spec fn targets(records: Map<u64, RecordView>, ids: Seq<u64>) -> Seq<u64> {
    ids.map_values(|id: u64| node_target(records, id))
}

fn targets_exec(loaded: &Loaded, ids: &Vec<u64>) -> (r: Vec<u64>)
    ensures
        r@ == targets(loaded_view(*loaded).records, ids@),
{
    let mut out: Vec<u64> = Vec::new();
    let mut i: usize = 0;
    while i < ids.len()
        invariant
            i <= ids@.len(),
            out@ == targets(loaded_view(*loaded).records, ids@.take(i as int)),
        decreases ids@.len() - i,
    {
        let t = node_target_exec(loaded, ids[i]);
        out.push(t);
        assert(targets(loaded_view(*loaded).records, ids@.take(i + 1)) =~= targets(
            loaded_view(*loaded).records,
            ids@.take(i as int),
        ).push(t));
        i = i + 1;
    }
    assert(ids@.take(i as int) =~= ids@);
    out
}

/// The slides of a show (a `KN.ShowArchive`), in playing order, each read
/// through its navigator node. Where the order falls back to the navigator
/// tree, that tree is read as `walk_slide_nodes` reads it.
pub fn slide_order(loaded: &Loaded, show: &Msg) -> (r: Vec<u64>)
    ensures
        r@ == targets(
            loaded_view(*loaded).records,
            listed_slides(loaded_view(*loaded).records, fields_view(show.fields@), walk_depth(*loaded)),
        ),
{
    let tree = show.msg(3);
    let mut ids: Vec<u64> = match &tree {
        Some(t) => t.references(2),
        None => Vec::new(),
    };
    if ids.len() == 0 {
        ids = show.references(19);
    }
    if ids.len() == 0 {
        match &tree {
            Some(t) => {
                ids = walk_slide_nodes(loaded, reference_of(t, 1));
            },
            None => {},
        }
    }
    targets_exec(loaded, &ids)
}

/// The masters of a show: its theme's (field 2) templates (field 2).
pub open spec fn listed_masters(records: Map<u64, RecordView>, show: Seq<(u32, WireSpec)>) -> Seq<u64> {
    match ref_of(show, 2) {
        Some(t) => match loaded_msg(records, t) {
            Some(theme) => refs_of(vall(theme, 2)),
            None => Seq::empty(),
        },
        None => Seq::empty(),
    }
}

/// The masters of a show, in order, each read through its navigator node.
pub fn master_order(loaded: &Loaded, show: &Msg) -> (r: Vec<u64>)
    ensures
        r@ == targets(
            loaded_view(*loaded).records,
            listed_masters(loaded_view(*loaded).records, fields_view(show.fields@)),
        ),
{
    let ids: Vec<u64> = match reference_of(show, 2) {
        Some(t) => match loaded.msg(t) {
            Some(theme) => theme.references(2),
            None => Vec::new(),
        },
        None => Vec::new(),
    };
    targets_exec(loaded, &ids)
}

} // verus!
