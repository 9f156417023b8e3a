//! Per-type counts read back in increasing type order.
use vstd::prelude::*;
use std::collections::{BTreeMap, BTreeSet};
use vstd::std_specs::btree::increasing_seq;
use vstd::std_specs::iter::IteratorSpec;
use vstd::std_specs::cmp::OrdSpec;

verus! {

broadcast use {vstd::std_specs::btree::group_btree_axioms, vstd::laws_cmp::group_laws_cmp};

/// `s` lists the entries of `m` in strictly increasing key order.
pub open spec fn sorted_entries_of(s: Seq<(u32, u64)>, m: Map<u32, u64>) -> bool {
    &&& forall|i: int, j: int| 0 <= i < j < s.len() ==> #[trigger] s[i].0 < #[trigger] s[j].0
    &&& forall|i: int| 0 <= i < s.len() ==> #[trigger] m.contains_key(s[i].0) && m[s[i].0] == s[i].1
    &&& forall|k: u32| #[trigger] m.contains_key(k) ==> exists|i: int| 0 <= i < s.len() && s[i].0 == k
}

/// The entries of a count map in increasing key order.
pub open spec fn sorted_entries(m: Map<u32, u64>) -> Seq<(u32, u64)> {
    choose|s: Seq<(u32, u64)>| sorted_entries_of(s, m)
}

/// A map has at most one listing of its entries in increasing key order.
pub proof fn lemma_sorted_entries_unique(s: Seq<(u32, u64)>, t: Seq<(u32, u64)>, m: Map<u32, u64>)
    requires
        sorted_entries_of(s, m),
        sorted_entries_of(t, m),
    ensures
        s == t,
    decreases s.len(),
{
    if s.len() == 0 {
        if t.len() > 0 {
            assert(m.contains_key(t[0].0));
        }
        assert(s =~= t);
    } else {
        assert(m.contains_key(s[0].0));
        assert(t.len() > 0);
        let a = s[0].0;
        let b = t[0].0;
        assert(m.contains_key(b));
        let i = choose|i: int| 0 <= i < t.len() && t[i].0 == a;
        let j = choose|j: int| 0 <= j < s.len() && s[j].0 == b;
        if i > 0 {
            assert(t[0].0 < t[i].0);
        }
        if j > 0 {
            assert(s[0].0 < s[j].0);
        }
        assert(a == b);
        let m2 = m.remove(a);
        let s2 = s.drop_first();
        let t2 = t.drop_first();
        assert forall|x: int, y: int| 0 <= x < y < s2.len() implies #[trigger] s2[x].0
            < #[trigger] s2[y].0 by {
            assert(s[x + 1].0 < s[y + 1].0);
        }
        assert forall|x: int| 0 <= x < s2.len() implies #[trigger] m2.contains_key(s2[x].0)
            && m2[s2[x].0] == s2[x].1 by {
            assert(s[0].0 < s[x + 1].0);
            assert(m.contains_key(s[x + 1].0));
        }
        assert forall|k: u32| #[trigger] m2.contains_key(k) implies exists|x: int|
            0 <= x < s2.len() && s2[x].0 == k by {
            assert(m.contains_key(k));
            let x = choose|x: int| 0 <= x < s.len() && s[x].0 == k;
            assert(s2[x - 1].0 == k);
        }
        assert forall|x: int, y: int| 0 <= x < y < t2.len() implies #[trigger] t2[x].0
            < #[trigger] t2[y].0 by {
            assert(t[x + 1].0 < t[y + 1].0);
        }
        assert forall|x: int| 0 <= x < t2.len() implies #[trigger] m2.contains_key(t2[x].0)
            && m2[t2[x].0] == t2[x].1 by {
            assert(t[0].0 < t[x + 1].0);
            assert(m.contains_key(t[x + 1].0));
        }
        assert forall|k: u32| #[trigger] m2.contains_key(k) implies exists|x: int|
            0 <= x < t2.len() && t2[x].0 == k by {
            assert(m.contains_key(k));
            let x = choose|x: int| 0 <= x < t.len() && t[x].0 == k;
            assert(t2[x - 1].0 == k);
        }
        lemma_sorted_entries_unique(s2, t2, m2);
        assert(s[0] == t[0]);
        assert(s =~= t) by {
            assert forall|x: int| 0 <= x < s.len() implies s[x] == t[x] by {
                if x > 0 {
                    assert(s[x] == s2[x - 1]);
                    assert(t[x] == t2[x - 1]);
                }
            }
        }
    }
}

/// The entries of a count map, in increasing key order.
pub fn sorted_counts(m: &BTreeMap<u32, u64>) -> (r: Vec<(u32, u64)>)
    ensures
        sorted_entries_of(r@, m@),
        r@ == sorted_entries(m@),
{
    let mut out: Vec<(u32, u64)> = Vec::new();
    let ghost v = vstd::std_specs::btree::spec_btree_map_iter(m).remaining();
    for kv in it: m.iter()
        invariant
            it.seq() == v,
            out@.len() == it.index(),
            forall|i: int| 0 <= i < out@.len() ==> #[trigger] out@[i] == (*it.seq()[i].0, *it.seq()[i].1),
    {
        out.push((*kv.0, *kv.1));
    }
    proof {
        let keys = v.map_values(|kv: (&u32, &u64)| *kv.0);
        assert(increasing_seq(keys));
        assert forall|i: int, j: int| 0 <= i < j < out@.len() implies #[trigger] out@[i].0
            < #[trigger] out@[j].0 by {
            assert(keys[i] == out@[i].0);
            assert(keys[j] == out@[j].0);
            assert(vstd::laws_cmp::obeys_cmp::<u32>());
            assert(keys[i].cmp_spec(&keys[j]) is Less);
        }
        assert forall|i: int| 0 <= i < out@.len() implies #[trigger] m@.contains_key(out@[i].0)
            && m@[out@[i].0] == out@[i].1 by {
            assert(m@.contains_key(*v[i].0));
        }
        assert forall|k: u32| #[trigger] m@.contains_key(k) implies exists|i: int|
            0 <= i < out@.len() && out@[i].0 == k by {
            assert(v.contains((&k, &m@[k])));
            let i = choose|i: int| 0 <= i < v.len() && v[i] == (&k, &m@[k]);
            assert(out@[i].0 == k);
        }
        assert(sorted_entries_of(out@, m@));
        assert(exists|x: Seq<(u32, u64)>| sorted_entries_of(x, m@));
        lemma_sorted_entries_unique(out@, sorted_entries(m@), m@);
    }
    out
}

} // verus!

verus! {

/// `s` lists the elements of `m` in strictly increasing order.
pub open spec fn sorted_elements_of(s: Seq<u64>, m: Set<u64>) -> bool {
    &&& forall|i: int, j: int| 0 <= i < j < s.len() ==> #[trigger] s[i] < #[trigger] s[j]
    &&& forall|i: int| 0 <= i < s.len() ==> #[trigger] m.contains(s[i])
    &&& forall|k: u64| #[trigger] m.contains(k) ==> exists|i: int| 0 <= i < s.len() && s[i] == k
}

/// The elements of a set of identifiers, in increasing order.
pub fn sorted_ids(m: &BTreeSet<u64>) -> (r: Vec<u64>)
    ensures
        sorted_elements_of(r@, m@),
{
    let mut out: Vec<u64> = Vec::new();
    let ghost v = vstd::std_specs::btree::spec_btree_keys_iter(m).remaining();
    for k in it: m.iter()
        invariant
            it.seq() == v,
            out@.len() == it.index(),
            forall|i: int| 0 <= i < out@.len() ==> #[trigger] out@[i] == *it.seq()[i],
    {
        out.push(*k);
    }
    proof {
        assert(increasing_seq(v));
        assert forall|i: int, j: int| 0 <= i < j < out@.len() implies #[trigger] out@[i]
            < #[trigger] out@[j] by {
            assert(vstd::laws_cmp::obeys_cmp::<u64>());
            assert(vstd::laws_cmp::obeys_cmp::<&u64>());
            assert(OrdSpec::cmp_spec(&v[i], &v[j]) is Less);
        }
        assert forall|i: int| 0 <= i < out@.len() implies #[trigger] m@.contains(out@[i]) by {
            assert(v.unref()[i] == *v[i]);
            assert(v.unref().contains(*v[i]));
            assert(v.unref().to_set().contains(*v[i]));
        }
        assert forall|k: u64| #[trigger] m@.contains(k) implies exists|i: int|
            0 <= i < out@.len() && out@[i] == k by {
            assert(v.unref().to_set().contains(k));
            let i = choose|i: int| 0 <= i < v.unref().len() && v.unref()[i] == k;
            assert(out@[i] == k);
        }
    }
    out
}

} // verus!

verus! {

/// A set has at most one listing of its elements in increasing order.
pub proof fn lemma_sorted_elements_unique(s: Seq<u64>, t: Seq<u64>, m: Set<u64>)
    requires
        sorted_elements_of(s, m),
        sorted_elements_of(t, m),
    ensures
        s == t,
    decreases s.len(),
{
    if s.len() == 0 {
        if t.len() > 0 {
            assert(m.contains(t[0]));
        }
        assert(s =~= t);
    } else {
        assert(m.contains(s[0]));
        assert(t.len() > 0);
        let a = s[0];
        let b = t[0];
        assert(m.contains(b));
        let i = choose|i: int| 0 <= i < t.len() && t[i] == a;
        let j = choose|j: int| 0 <= j < s.len() && s[j] == b;
        if i > 0 {
            assert(t[0] < t[i]);
        }
        if j > 0 {
            assert(s[0] < s[j]);
        }
        assert(a == b);
        let m2 = m.remove(a);
        let s2 = s.drop_first();
        let t2 = t.drop_first();
        assert forall|x: int, y: int| 0 <= x < y < s2.len() implies #[trigger] s2[x]
            < #[trigger] s2[y] by {
            assert(s[x + 1] < s[y + 1]);
        }
        assert forall|x: int| 0 <= x < s2.len() implies #[trigger] m2.contains(s2[x]) by {
            assert(s[0] < s[x + 1]);
            assert(m.contains(s[x + 1]));
        }
        assert forall|k: u64| #[trigger] m2.contains(k) implies exists|x: int|
            0 <= x < s2.len() && s2[x] == k by {
            assert(m.contains(k));
            let x = choose|x: int| 0 <= x < s.len() && s[x] == k;
            assert(s2[x - 1] == k);
        }
        assert forall|x: int, y: int| 0 <= x < y < t2.len() implies #[trigger] t2[x]
            < #[trigger] t2[y] by {
            assert(t[x + 1] < t[y + 1]);
        }
        assert forall|x: int| 0 <= x < t2.len() implies #[trigger] m2.contains(t2[x]) by {
            assert(t[0] < t[x + 1]);
            assert(m.contains(t[x + 1]));
        }
        assert forall|k: u64| #[trigger] m2.contains(k) implies exists|x: int|
            0 <= x < t2.len() && t2[x] == k by {
            assert(m.contains(k));
            let x = choose|x: int| 0 <= x < t.len() && t[x] == k;
            assert(t2[x - 1] == k);
        }
        lemma_sorted_elements_unique(s2, t2, m2);
        assert(s2.len() == t2.len());
        assert(s.len() == t.len());
        assert(s =~= t) by {
            assert forall|x: int| 0 <= x < s.len() implies s[x] == t[x] by {
                if x > 0 {
                    assert(s[x] == s2[x - 1]);
                    assert(t[x] == t2[x - 1]);
                }
            }
        }
    }
}

} // verus!
