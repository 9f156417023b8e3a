//! What the per-app tree walkers share: the style pools, counted warnings,
//! the font harvest, media kinds, and the values read from the document's
//! metadata files.
use vstd::prelude::*;
use vstd::utf8::*;
use crate::model::MediaKind;
use crate::pb::{Msg, clone_fields, vget, vmsg, deep_ref_spec, lemma_vall};
use crate::wire::{WireSpec, fields_view};
use crate::loader::{Loaded, loaded_view, RecordView, name_in, app_of_name, lookup_name};
use crate::model::AppKind;
use vstd::std_specs::iter::IteratorSpec;
use crate::counts::{sorted_entries, sorted_counts};
use crate::model::{Warning, WarningCode};
use crate::{WarningView, view_warning, view_warnings};
use crate::plist_lite::{
    bytes_lt, key_bytes, entries_sorted, compare_bytes, lemma_sorted_distinct, lemma_insert_sorted,
    lemma_bytes_lt_transitive, lemma_encode_injective, is_white_space,
    is_white_space_char,
};
use crate::plist_lite::{Value, PValue, view_value, views, parse, spec_parse, trim, trim_range};
use crate::text::{lower, ascii_lower, ascii_lower_exec};
use crate::text_util::{push_char, push_str, chars_of, string_of, owned, str_eq, dec, dec_int, push_decimal, push_decimal_i64, hex, push_hex, utf8_lossy, string_from_utf8_lossy};

verus! {

// ---------------------------------------------------------------------------
// Style pools
// ---------------------------------------------------------------------------

/// The index recorded for `key`: its last entry, if any.
pub open spec fn key_lookup(s: Seq<(String, u32)>, key: Seq<char>) -> Option<u32>
    decreases s.len(),
{
    if s.len() == 0 {
        None
    } else if s.last().0@ == key {
        Some(s.last().1)
    } else {
        key_lookup(s.drop_last(), key)
    }
}

proof fn lemma_lookup_found(s: Seq<(String, u32)>, k: Seq<char>)
    ensures
        key_lookup(s, k) matches Some(i) ==> exists|j: int| 0 <= j < s.len() && s[j].0@ == k && s[j].1 == i,
    decreases s.len(),
{
    if s.len() > 0 && s.last().0@ != k {
        lemma_lookup_found(s.drop_last(), k);
        if key_lookup(s, k) is Some {
            let j = choose|j: int| 0 <= j < s.len() - 1 && s.drop_last()[j].0@ == k && s.drop_last()[j].1
                == key_lookup(s, k)->0;
            assert(s[j] == s.drop_last()[j]);
        }
    } else if s.len() > 0 {
        assert(s[s.len() - 1] == s.last());
    }
}

proof fn lemma_lookup_absent(s: Seq<(String, u32)>, k: Seq<char>)
    ensures
        key_lookup(s, k) is None ==> forall|j: int| 0 <= j < s.len() ==> (#[trigger] s[j]).0@ != k,
    decreases s.len(),
{
    if s.len() > 0 && s.last().0@ != k {
        lemma_lookup_absent(s.drop_last(), k);
        assert forall|j: int| 0 <= j < s.len() - 1 implies s[j] == s.drop_last()[j] by {}
    }
}

proof fn lemma_lookup_at(s: Seq<(String, u32)>, j: int)
    requires
        0 <= j < s.len(),
        forall|a: int, b: int| 0 <= a < b < s.len() ==> (#[trigger] s[a]).0@ != (#[trigger] s[b]).0@,
    ensures
        key_lookup(s, s[j].0@) == Some(s[j].1),
    decreases s.len(),
{
    if j < s.len() - 1 {
        assert(s[j].0@ != s[s.len() - 1].0@);
        assert(s.drop_last()[j] == s[j]);
        lemma_lookup_at(s.drop_last(), j);
    }
}

/// Hash-cons pool keyed by an item's canonical JSON (sorted keys, compact);
/// first-use order preserved.
pub struct StylePool<T> {
    pub items: Vec<T>,
    /// Each interned key with its item's index, in first-use order.
    pub keys: Vec<(String, u32)>,
}

impl<T> StylePool<T> {
    /// The pooled items, in first-use order.
    pub open spec fn pooled(&self) -> Seq<T> {
        self.items@
    }

    /// The pool's bookkeeping holds: one recorded key per item, at the
    /// item's index, no two keys alike, none the empty `{}`, and every
    /// index within `u32`.
    pub closed spec fn wf(&self) -> bool {
        &&& self.keys@.len() == self.items@.len()
        &&& self.items@.len() <= u32::MAX
        &&& forall|j: int| 0 <= j < self.keys@.len() ==> (#[trigger] self.keys@[j]).1 == j && self.keys@[j].0@ != "{}"@
        &&& forall|a: int, b: int| 0 <= a < b < self.keys@.len() ==> (#[trigger] self.keys@[a]).0@ != (#[trigger] self.keys@[b]).0@
    }

    /// Interning keeps a one-to-one index: every recorded key names an item
    /// of the pool and is not `{}`, no two keys share an index, and every
    /// item is reached by its recorded key (so interning an item's key again gives
    /// its index back and changes nothing, by `intern`).
    pub proof fn lemma_pool_index(&self)
        requires
            self.wf(),
        ensures
            forall|k: Seq<char>| #[trigger] self.index_of(k) matches Some(i) ==> i < self.pooled().len() && k != "{}"@,
            forall|k1: Seq<char>, k2: Seq<char>|
                #[trigger] self.index_of(k1) is Some && self.index_of(k1) == #[trigger] self.index_of(k2) ==> k1 == k2,
            forall|i: int| 0 <= i < self.pooled().len() ==> self.index_of((#[trigger] self.keys@[i]).0@) == Some(i as u32),
    {
        let s = self.keys@;
        assert forall|k: Seq<char>| #[trigger] self.index_of(k) matches Some(i) ==> i < self.pooled().len() && k != "{}"@ by {
            lemma_lookup_found(s, k);
        }
        assert forall|k1: Seq<char>, k2: Seq<char>|
            #[trigger] self.index_of(k1) is Some && self.index_of(k1) == #[trigger] self.index_of(k2) implies k1 == k2 by {
            lemma_lookup_found(s, k1);
            lemma_lookup_found(s, k2);
            let j1 = choose|j: int| 0 <= j < s.len() && s[j].0@ == k1 && s[j].1 == self.index_of(k1)->0;
            let j2 = choose|j: int| 0 <= j < s.len() && s[j].0@ == k2 && s[j].1 == self.index_of(k2)->0;
            assert(j1 == j2);
        }
        assert forall|i: int| 0 <= i < self.pooled().len() implies self.index_of((#[trigger] self.keys@[i]).0@) == Some(i as u32) by {
            lemma_lookup_at(s, i);
        }
    }

    /// The index under which `key` was interned.
    pub closed spec fn index_of(&self, key: Seq<char>) -> Option<u32> {
        key_lookup(self.keys@, key)
    }

    /// An empty pool.
    pub fn new() -> (p: StylePool<T>)
        ensures
            p.pooled().len() == 0,
            forall|k: Seq<char>| #[trigger] p.index_of(k) is None,
            p.wf(),
    {
        StylePool { items: Vec::new(), keys: Vec::new() }
    }

    fn find_key(&self, key: &str) -> (r: Option<u32>)
        ensures
            r == self.index_of(key@),
    {
        let mut k = self.keys.len();
        assert(self.keys@.take(k as int) =~= self.keys@);
        while k > 0
            invariant
                k <= self.keys@.len(),
                key_lookup(self.keys@, key@) == key_lookup(self.keys@.take(k as int), key@),
            decreases k,
        {
            assert(self.keys@.take(k as int).drop_last() =~= self.keys@.take(k - 1));
            if str_eq(self.keys[k - 1].0.as_str(), key) {
                return Some(self.keys[k - 1].1);
            }
            k = k - 1;
        }
        None
    }

    /// Intern `item` under its canonical JSON `key`; returns its index.
    /// `None` for the empty/default value (canonical form `{}`): an absent
    /// index means unstyled.
    pub fn intern(&mut self, item: T, key: String) -> (r: Option<u32>)
        requires
            old(self).wf(),
            old(self).pooled().len() < u32::MAX,
        ensures
            final(self).wf(),
            key@ == "{}"@ ==> r is None,
            key@ != "{}"@ && old(self).index_of(key@) is Some ==> r == old(self).index_of(key@),
            key@ == "{}"@ || old(self).index_of(key@) is Some ==> {
                &&& final(self).pooled() == old(self).pooled()
                &&& forall|k: Seq<char>| #[trigger] final(self).index_of(k) == old(self).index_of(k)
            },
            key@ != "{}"@ && old(self).index_of(key@) is None ==> {
                &&& r == Some(old(self).pooled().len() as u32)
                &&& final(self).pooled() == old(self).pooled().push(item)
                &&& forall|k: Seq<char>| #[trigger]
                    final(self).index_of(k) == if k == key@ {
                        r
                    } else {
                        old(self).index_of(k)
                    }
            },
    {
        if str_eq(key.as_str(), "{}") {
            return None;
        }
        match self.find_key(key.as_str()) {
            Some(i) => Some(i),
            None => {
                proof {
                    lemma_lookup_absent(self.keys@, key@);
                }
                let idx = self.items.len() as u32;
                self.items.push(item);
                let ghost before = self.keys@;
                self.keys.push((key, idx));
                assert(self.keys@.drop_last() =~= before);
                assert forall|a: int, b: int| 0 <= a < b < self.keys@.len() implies (#[trigger] self.keys@[a]).0@
                    != (#[trigger] self.keys@[b]).0@ by {
                    if b == before.len() {
                        assert(before[a].0@ != key@);
                    } else {
                        assert(self.keys@[a] == before[a] && self.keys@[b] == before[b]);
                    }
                }
                assert forall|j: int| 0 <= j < self.keys@.len() implies (#[trigger] self.keys@[j]).1 == j
                    && self.keys@[j].0@ != "{}"@ by {
                    if j < before.len() {
                        assert(self.keys@[j] == before[j]);
                    }
                }
                Some(idx)
            },
        }
    }
}

impl<T> Default for StylePool<T> {
    fn default() -> (p: StylePool<T>)
        ensures
            p.pooled().len() == 0,
            forall|k: Seq<char>| #[trigger] p.index_of(k) is None,
            p.wf(),
    {
        StylePool::new()
    }
}

// ---------------------------------------------------------------------------
// Counted warnings
// ---------------------------------------------------------------------------

/// The count recorded for `key`: its last entry, or 0.
pub open spec fn tally(s: Seq<(String, u64)>, key: Seq<char>) -> nat
    decreases s.len(),
{
    if s.len() == 0 {
        0
    } else if s.last().0@ == key {
        s.last().1 as nat
    } else {
        tally(s.drop_last(), key)
    }
}

proof fn lemma_tally_update(s: Seq<(String, u64)>, i: int, e: (String, u64), q: Seq<char>)
    requires
        0 <= i < s.len(),
        e.0@ == s[i].0@,
        forall|j: int| i < j < s.len() ==> s[j].0@ != e.0@,
    ensures
        tally(s.update(i, e), q) == if q == e.0@ {
            e.1 as nat
        } else {
            tally(s, q)
        },
    decreases s.len(),
{
    let t = s.update(i, e);
    if i == s.len() - 1 {
        assert(t.drop_last() =~= s.drop_last());
    } else {
        assert(t.drop_last() =~= s.drop_last().update(i, e));
        lemma_tally_update(s.drop_last(), i, e, q);
    }
}

proof fn lemma_tally_insert(s: Seq<(String, u64)>, i: int, e: (String, u64), q: Seq<char>)
    requires
        0 <= i <= s.len(),
        forall|j: int| 0 <= j < s.len() ==> s[j].0@ != e.0@,
    ensures
        tally(s.insert(i, e), q) == if q == e.0@ {
            e.1 as nat
        } else {
            tally(s, q)
        },
    decreases s.len(),
{
    let t = s.insert(i, e);
    if i == s.len() {
        assert(t.drop_last() =~= s);
        assert(t.last() == e);
    } else {
        assert(t.drop_last() =~= s.drop_last().insert(i, e));
        assert(t.last() == s.last());
        lemma_tally_insert(s.drop_last(), i, e, q);
    }
}

proof fn lemma_tally_absent(s: Seq<(String, u64)>, k: Seq<char>)
    requires
        forall|j: int| 0 <= j < s.len() ==> s[j].0@ != k,
    ensures
        tally(s, k) == 0,
    decreases s.len(),
{
    if s.len() > 0 {
        lemma_tally_absent(s.drop_last(), k);
    }
}

/// The sum of the recorded counts.
pub open spec fn counts_sum(s: Seq<(String, u64)>) -> nat
    decreases s.len(),
{
    if s.len() == 0 {
        0
    } else {
        counts_sum(s.drop_last()) + s.last().1 as nat
    }
}

proof fn lemma_sum_update(s: Seq<(String, u64)>, i: int, e: (String, u64))
    requires
        0 <= i < s.len(),
    ensures
        counts_sum(s.update(i, e)) + s[i].1 == counts_sum(s) + e.1,
    decreases s.len(),
{
    let t = s.update(i, e);
    if i == s.len() - 1 {
        assert(t.drop_last() =~= s.drop_last());
    } else {
        assert(t.drop_last() =~= s.drop_last().update(i, e));
        lemma_sum_update(s.drop_last(), i, e);
    }
}

proof fn lemma_sum_insert(s: Seq<(String, u64)>, i: int, e: (String, u64))
    requires
        0 <= i <= s.len(),
    ensures
        counts_sum(s.insert(i, e)) == counts_sum(s) + e.1,
    decreases s.len(),
{
    let t = s.insert(i, e);
    if i == s.len() {
        assert(t.drop_last() =~= s);
    } else {
        assert(t.drop_last() =~= s.drop_last().insert(i, e));
        lemma_sum_insert(s.drop_last(), i, e);
    }
}

/// Counted-warning helper for repeated unresolved references: keeps the
/// envelope small while staying non-silent. Keys are kept sorted.
pub struct Counter {
    counts: Vec<(String, u64)>,
}

impl Counter {
    #[verifier::type_invariant]
    spec fn inv(self) -> bool {
        &&& entries_sorted(self.counts@)
        &&& forall|i: int| 0 <= i < self.counts@.len() ==> (#[trigger] self.counts@[i]).1 >= 1
    }

    /// How many times `key` was bumped.
    pub closed spec fn count(&self, key: Seq<char>) -> nat {
        tally(self.counts@, key)
    }

    /// How many bumps in all.
    pub closed spec fn total(&self) -> nat {
        counts_sum(self.counts@)
    }

    pub fn new() -> (c: Counter)
        ensures
            forall|k: Seq<char>| #[trigger] c.count(k) == 0,
            c.total() == 0,
    {
        Counter { counts: Vec::new() }
    }

    /// Count one more occurrence of `key`.
    pub fn bump(&mut self, key: String)
        requires
            old(self).count(key@) < u64::MAX,
        ensures
            forall|q: Seq<char>| #[trigger]
                final(self).count(q) == if q == key@ {
                    old(self).count(q) + 1
                } else {
                    old(self).count(q)
                },
            final(self).total() == old(self).total() + 1,
    {
        proof {
            use_type_invariant(&*self);
        }
        let mut v: Vec<(String, u64)> = Vec::new();
        std::mem::swap(&mut v, &mut self.counts);
        let ghost s = v@;
        let ghost kb = encode_utf8(key@);
        let n = v.len();
        let mut i: usize = 0;
        let mut c: i8 = -1;
        while i < n
            invariant
                n == s.len(),
                v@ == s,
                i <= n,
                kb == encode_utf8(key@),
                forall|j: int| 0 <= j < i ==> bytes_lt(#[trigger] key_bytes(s[j]), kb),
            ensures
                i <= n,
                v@ == s,
                forall|j: int| 0 <= j < i ==> bytes_lt(#[trigger] key_bytes(s[j]), kb),
                i < n ==> (c == 0 <==> s[i as int].0@ == key@),
                i < n ==> (c > 0 <==> bytes_lt(kb, key_bytes(s[i as int]))),
                i < n ==> c >= 0,
            decreases n - i,
        {
            c = compare_bytes(v[i].0.as_str().as_bytes(), key.as_str().as_bytes());
            proof {
                lemma_encode_injective(s[i as int].0@, key@);
            }
            if c >= 0 {
                break;
            }
            i = i + 1;
        }
        proof {
            lemma_sorted_distinct(s);
        }
        if i < n && c == 0 {
            let cnt = v[i].1;
            assert(tally(s, key@) == cnt) by {
                lemma_tally_update(s, i as int, s[i as int], key@);
                assert(s.update(i as int, s[i as int]) =~= s);
            }
            let k = owned(v[i].0.as_str());
            let ghost e = (k, (cnt + 1) as u64);
            v.set(i, (k, cnt + 1));
            proof {
                lemma_sum_update(s, i as int, e);
                assert(v@ == s.update(i as int, e));
                assert forall|a: int, b: int| 0 <= a < b < v@.len() implies bytes_lt(
                    #[trigger] key_bytes(v@[a]),
                    #[trigger] key_bytes(v@[b]),
                ) by {
                    assert(key_bytes(v@[a]) == key_bytes(s[a]));
                    assert(key_bytes(v@[b]) == key_bytes(s[b]));
                }
                assert forall|q: Seq<char>| #[trigger]
                    tally(v@, q) == if q == key@ {
                        tally(s, q) + 1
                    } else {
                        tally(s, q)
                    } by {
                    lemma_tally_update(s, i as int, e, q);
                }
            }
        } else {
            proof {
                lemma_sum_insert(s, i as int, (key, 1u64));
                lemma_insert_sorted(s, i as int, (key, 1u64));
                assert forall|q: Seq<char>| #[trigger]
                    tally(s.insert(i as int, (key, 1u64)), q) == if q == key@ {
                        tally(s, q) + 1
                    } else {
                        tally(s, q)
                    } by {
                    lemma_tally_insert(s, i as int, (key, 1u64), q);
                    lemma_tally_absent(s, key@);
                }
            }
            v.insert(i, (key, 1));
        }
        self.counts = v;
    }

    /// The counts, sorted by key.
    pub fn drain(self) -> (v: Vec<(String, u64)>)
        ensures
            entries_sorted(v@),
            forall|i: int| 0 <= i < v@.len() ==> (#[trigger] v@[i]).1 >= 1,
            forall|q: Seq<char>| #[trigger] tally(v@, q) == self.count(q),
            counts_sum(v@) == self.total(),
    {
        proof {
            use_type_invariant(&self);
        }
        self.counts
    }
}

// ---------------------------------------------------------------------------
// Fonts, media, locale
// ---------------------------------------------------------------------------

/// Strings strictly ascending in byte order.
pub open spec fn strings_sorted(s: Seq<String>) -> bool {
    forall|i: int, j: int| 0 <= i < j < s.len() ==> bytes_lt(encode_utf8(#[trigger] s[i]@), encode_utf8(#[trigger] s[j]@))
}

/// Some string of `s` reads `q`.
pub open spec fn holds_string(s: Seq<String>, q: Seq<char>) -> bool {
    exists|i: int| 0 <= i < s.len() && (#[trigger] s[i])@ == q
}

/// Fonts harvested from resolved character styles, deduplicated and
/// sorted: adds `name` to the sorted set `fonts` unless it is empty.
pub fn collect_font(fonts: &mut Vec<String>, name: &str)
    requires
        strings_sorted(old(fonts)@),
    ensures
        strings_sorted(final(fonts)@),
        forall|q: Seq<char>| #[trigger]
            holds_string(final(fonts)@, q) == (holds_string(old(fonts)@, q) || (q == name@ && name@.len()
                > 0)),
{
    let chars = chars_of(name);
    if chars.len() == 0 {
        return;
    }
    let ghost s = fonts@;
    let ghost nb = encode_utf8(name@);
    let n = fonts.len();
    let mut i: usize = 0;
    let mut c: i8 = -1;
    while i < n
        invariant
            n == s.len(),
            fonts@ == s,
            i <= n,
            nb == encode_utf8(name@),
            forall|j: int| 0 <= j < i ==> bytes_lt(encode_utf8(#[trigger] s[j]@), nb),
        ensures
            i <= n,
            fonts@ == s,
            forall|j: int| 0 <= j < i ==> bytes_lt(encode_utf8(#[trigger] s[j]@), nb),
            i < n ==> (c == 0 <==> s[i as int]@ == name@),
            i < n ==> (c > 0 <==> bytes_lt(nb, encode_utf8(s[i as int]@))),
            i < n ==> c >= 0,
        decreases n - i,
    {
        c = compare_bytes(fonts[i].as_str().as_bytes(), name.as_bytes());
        proof {
            lemma_encode_injective(s[i as int]@, name@);
        }
        if c >= 0 {
            break;
        }
        i = i + 1;
    }
    if i < n && c == 0 {
        assert forall|q: Seq<char>| #[trigger]
            holds_string(fonts@, q) == (holds_string(s, q) || (q == name@ && name@.len() > 0)) by {
            if q == name@ {
                assert(s[i as int]@ == q);
            }
        }
        return;
    }
    fonts.insert(i, owned(name));
    proof {
        let t = fonts@;
        assert(t == s.insert(i as int, t[i as int]));
        assert(t[i as int]@ == name@);
        assert forall|a: int, b: int| 0 <= a < b < t.len() implies bytes_lt(
            encode_utf8(#[trigger] t[a]@),
            encode_utf8(#[trigger] t[b]@),
        ) by {
            if b < i {
                assert(t[a] == s[a] && t[b] == s[b]);
            } else if b == i {
                assert(t[a] == s[a]);
            } else if a < i {
                assert(t[a] == s[a] && t[b] == s[b - 1]);
            } else if a == i {
                assert(t[b] == s[b - 1]);
                if b - 1 > i {
                    lemma_bytes_lt_transitive(nb, encode_utf8(s[i as int]@), encode_utf8(s[b - 1]@));
                }
            } else {
                assert(t[a] == s[a - 1] && t[b] == s[b - 1]);
            }
        }
        assert forall|q: Seq<char>| #[trigger]
            holds_string(t, q) == (holds_string(s, q) || (q == name@ && name@.len() > 0)) by {
            if holds_string(t, q) {
                let a = choose|a: int| 0 <= a < t.len() && (#[trigger] t[a])@ == q;
                if a < i {
                    assert(t[a] == s[a]);
                } else if a > i {
                    assert(t[a] == s[a - 1]);
                }
            }
            if holds_string(s, q) {
                let a = choose|a: int| 0 <= a < s.len() && (#[trigger] s[a])@ == q;
                if a < i {
                    assert(t[a] == s[a]);
                } else {
                    assert(t[a + 1] == s[a]);
                }
            }
            if q == name@ {
                assert(t[i as int]@ == q);
            }
        }
    }
}

/// The last position of `.` in `s`, or -1.
pub open spec fn last_dot(s: Seq<char>) -> int
    decreases s.len(),
{
    if s.len() == 0 {
        -1
    } else if s.last() == '.' {
        s.len() - 1
    } else {
        last_dot(s.drop_last())
    }
}

proof fn lemma_last_dot(s: Seq<char>)
    ensures
        -1 <= last_dot(s) < s.len(),
        last_dot(s) >= 0 ==> s[last_dot(s)] == '.',
        forall|j: int| last_dot(s) < j < s.len() ==> s[j] != '.',
    decreases s.len(),
{
    if s.len() > 0 && s.last() != '.' {
        lemma_last_dot(s.drop_last());
        assert forall|j: int| last_dot(s) < j < s.len() implies s[j] != '.' by {
            if j < s.len() - 1 {
                assert(s[j] == s.drop_last()[j]);
            }
        }
    }
}

/// The extension of a file name: what follows its last `.` (all of it when
/// there is none).
pub open spec fn extension(name: Seq<char>) -> Seq<char> {
    name.skip(last_dot(name) + 1)
}

pub open spec fn is_image_ext(e: Seq<char>) -> bool {
    e == "png"@ || e == "jpg"@ || e == "jpeg"@ || e == "gif"@ || e == "tiff"@ || e == "tif"@ || e
        == "bmp"@ || e == "heic"@ || e == "heif"@ || e == "webp"@ || e == "svg"@
}

pub open spec fn is_movie_ext(e: Seq<char>) -> bool {
    e == "mp4"@ || e == "mov"@ || e == "m4v"@ || e == "avi"@ || e == "mkv"@ || e == "mpg"@ || e
        == "mpeg"@ || e == "wmv"@
}

pub open spec fn is_audio_ext(e: Seq<char>) -> bool {
    e == "mp3"@ || e == "aac"@ || e == "m4a"@ || e == "wav"@ || e == "aiff"@ || e == "aif"@ || e
        == "caf"@ || e == "oga"@ || e == "ogg"@ || e == "flac"@ || e == "m4b"@
}

/// Media kind of a file name, from its extension in any case.
pub open spec fn media_kind_spec(name: Seq<char>) -> MediaKind {
    let e = lower(extension(name));
    if is_image_ext(e) {
        MediaKind::Image
    } else if is_movie_ext(e) {
        MediaKind::Movie
    } else if is_audio_ext(e) {
        MediaKind::Audio
    } else if e == "pdf"@ {
        MediaKind::Pdf
    } else {
        MediaKind::Other
    }
}

proof fn lemma_last_dot_after(p: Seq<char>, q: Seq<char>)
    requires
        p.len() > 0,
        p.last() == '.',
        forall|j: int| 0 <= j < q.len() ==> q[j] != '.',
    ensures
        last_dot(p + q) == p.len() - 1,
    decreases q.len(),
{
    if q.len() == 0 {
        assert(p + q =~= p);
    } else {
        assert((p + q).drop_last() =~= p + q.drop_last());
        assert((p + q).last() == q[q.len() - 1]);
        lemma_last_dot_after(p, q.drop_last());
    }
}

/// The kind of a file depends on its last extension alone, compared
/// without regard to ASCII case: a name with a dot has the kind of
/// `x.` followed by its lower-cased last extension.
pub proof fn lemma_media_kind_by_extension(name: Seq<char>)
    requires
        name.contains('.'),
    ensures
        media_kind_spec(name) == media_kind_spec("x."@ + lower(extension(name))),
{
    lemma_last_dot(name);
    let j = choose|j: int| 0 <= j < name.len() && name[j] == '.';
    assert(last_dot(name) >= j);
    let e = extension(name);
    let le = lower(e);
    assert forall|i: int| 0 <= i < le.len() implies le[i] != '.' by {
        assert(e[i] == name[last_dot(name) + 1 + i]);
    }
    reveal_strlit("x.");
    let t = "x."@ + le;
    lemma_last_dot_after("x."@, le);
    assert(extension(t) =~= le);
    assert(lower(le) =~= le) by {
        assert forall|i: int| 0 <= i < le.len() implies #[trigger] ascii_lower(le[i]) == le[i] by {
            let c = e[i];
            if 'A' <= c <= 'Z' {
                assert('a' <= ascii_lower(c) <= 'z');
            }
        }
    }
}

/// Media kind from a file's extension.
pub fn media_kind(name: &str) -> (k: MediaKind)
    ensures
        k == media_kind_spec(name@),
{
    let v = chars_of(name);
    proof {
        lemma_last_dot(name@);
    }
    let mut k = v.len();
    while k > 0 && v[k - 1] != '.'
        invariant
            k <= v@.len(),
            v@ == name@,
            -1 <= last_dot(name@) < name@.len(),
            last_dot(name@) >= 0 ==> name@[last_dot(name@)] == '.',
            forall|j: int| last_dot(name@) < j < name@.len() ==> name@[j] != '.',
            last_dot(name@) < k,
        decreases k,
    {
        k = k - 1;
    }
    assert(last_dot(name@) == k - 1);
    let mut e = String::new();
    let mut i = k;
    while i < v.len()
        invariant
            k <= i <= v@.len(),
            v@ == name@,
            e@ == lower(name@.subrange(k as int, i as int)),
        decreases v@.len() - i,
    {
        push_char(&mut e, ascii_lower_exec(v[i]));
        assert(lower(name@.subrange(k as int, i + 1)) =~= lower(name@.subrange(k as int, i as int)).push(
            ascii_lower(name@[i as int]),
        ));
        i = i + 1;
    }
    assert(name@.subrange(k as int, i as int) =~= extension(name@));
    let x = e.as_str();
    if str_eq(x, "png") || str_eq(x, "jpg") || str_eq(x, "jpeg") || str_eq(x, "gif") || str_eq(
        x,
        "tiff",
    ) || str_eq(x, "tif") || str_eq(x, "bmp") || str_eq(x, "heic") || str_eq(x, "heif") || str_eq(
        x,
        "webp",
    ) || str_eq(x, "svg") {
        MediaKind::Image
    } else if str_eq(x, "mp4") || str_eq(x, "mov") || str_eq(x, "m4v") || str_eq(x, "avi")
        || str_eq(x, "mkv") || str_eq(x, "mpg") || str_eq(x, "mpeg") || str_eq(x, "wmv") {
        MediaKind::Movie
    } else if str_eq(x, "mp3") || str_eq(x, "aac") || str_eq(x, "m4a") || str_eq(x, "wav")
        || str_eq(x, "aiff") || str_eq(x, "aif") || str_eq(x, "caf") || str_eq(x, "oga") || str_eq(
        x,
        "ogg",
    ) || str_eq(x, "flac") || str_eq(x, "m4b") {
        MediaKind::Audio
    } else if str_eq(x, "pdf") {
        MediaKind::Pdf
    } else {
        MediaKind::Other
    }
}

/// A short locale-like token: at most 8 bytes, starting with an ASCII
/// letter, with no white space.
pub open spec fn is_locale_token_spec(s: Seq<char>) -> bool {
    &&& encode_utf8(s).len() <= 8
    &&& s.len() > 0
    &&& (('a' <= s[0] <= 'z') || ('A' <= s[0] <= 'Z'))
    &&& forall|i: int| 0 <= i < s.len() ==> !is_white_space(#[trigger] s[i])
}

/// Whether a stored document language reads as a locale token.
pub fn is_locale_token(s: &str) -> (r: bool)
    ensures
        r == is_locale_token_spec(s@),
{
    if s.as_bytes().len() > 8 {
        return false;
    }
    let v = chars_of(s);
    if v.len() == 0 {
        return false;
    }
    let c0 = v[0];
    if !(('a' <= c0 && c0 <= 'z') || ('A' <= c0 && c0 <= 'Z')) {
        return false;
    }
    let mut i: usize = 0;
    while i < v.len()
        invariant
            v@ == s@,
            i <= v@.len(),
            forall|j: int| 0 <= j < i ==> !is_white_space(#[trigger] v@[j]),
        decreases v@.len() - i,
    {
        if is_white_space_char(v[i]) {
            return false;
        }
        i = i + 1;
    }
    true
}

// ---------------------------------------------------------------------------
// Metadata files
// ---------------------------------------------------------------------------

/// The text of a plist string.
pub open spec fn pstring(v: PValue) -> Option<Seq<char>> {
    match v {
        PValue::Str(s) => Some(s),
        _ => None,
    }
}

/// The first string among plist values.
pub open spec fn first_string(items: Seq<PValue>) -> Option<Seq<char>>
    decreases items.len(),
{
    if items.len() == 0 {
        None
    } else {
        match pstring(items[0]) {
            Some(s) => Some(s),
            None => first_string(items.drop_first()),
        }
    }
}

/// A plist value read as text: a string, the first string of an array, or
/// an integer in decimal.
pub open spec fn value_as_string(v: PValue) -> Option<Seq<char>> {
    match v {
        PValue::Str(s) => Some(s),
        PValue::Array(a) => first_string(a),
        PValue::Int(i) => Some(dec_int(i as int)),
        _ => None,
    }
}

/// The value under `k` of a plist dictionary.
pub open spec fn dict_get(v: PValue, k: Seq<char>) -> Option<PValue> {
    match v {
        PValue::Dict(m) => if m.contains_key(k) {
            Some(m[k])
        } else {
            None
        },
        _ => None,
    }
}

/// The string under `k` of a plist dictionary.
pub open spec fn dict_string(v: PValue, k: Seq<char>) -> Option<Seq<char>> {
    match dict_get(v, k) {
        Some(x) => pstring(x),
        None => None,
    }
}

/// `Metadata/Properties.plist` → (application, file format version).
pub open spec fn properties_spec(p: PValue) -> (Option<Seq<char>>, Option<Seq<char>>) {
    (
        dict_string(p, "Application"@),
        match dict_get(p, "fileFormatVersion"@) {
            Some(x) => value_as_string(x),
            None => None,
        },
    )
}

/// One entry of `Metadata/BuildVersionHistory.plist`: a string, or a
/// dictionary with `Version` and/or `Build` ("version (build)").
pub open spec fn history_entry(item: PValue) -> Option<Seq<char>> {
    match item {
        PValue::Dict(_) => match (dict_string(item, "Version"@), dict_string(item, "Build"@)) {
            (Some(v), Some(b)) => Some(v + " ("@ + b + ")"@),
            (Some(v), None) => Some(v),
            (None, Some(b)) => Some(b),
            (None, None) => None,
        },
        _ => pstring(item),
    }
}

/// The readable entries of a history array, in order.
pub open spec fn history_entries(items: Seq<PValue>) -> Seq<Seq<char>>
    decreases items.len(),
{
    if items.len() == 0 {
        Seq::empty()
    } else {
        let prev = history_entries(items.drop_last());
        match history_entry(items.last()) {
            Some(e) => prev.push(e),
            None => prev,
        }
    }
}

/// At most the last 10 entries, oldest first.
pub open spec fn last_ten(e: Seq<Seq<char>>) -> Seq<Seq<char>> {
    if e.len() <= 10 {
        e
    } else {
        e.skip(e.len() - 10)
    }
}

/// The build history a parsed history file gives: none unless it is an
/// array.
pub open spec fn history_spec(p: PValue) -> Option<Seq<Seq<char>>> {
    match p {
        PValue::Array(items) => Some(last_ten(history_entries(items))),
        _ => None,
    }
}

/// The text of an optional string.
pub open spec fn opt_view(o: Option<String>) -> Option<Seq<char>> {
    match o {
        Some(s) => Some(s@),
        None => None,
    }
}

fn first_string_exec(items: &[Value]) -> (r: Option<String>)
    ensures
        opt_view(r) == first_string(views(items@)),
{
    let mut i: usize = 0;
    assert(views(items@).skip(0) =~= views(items@));
    while i < items.len()
        invariant
            i <= items@.len(),
            first_string(views(items@)) == first_string(views(items@).skip(i as int)),
        decreases items@.len() - i,
    {
        assert(views(items@).skip(i as int)[0] == view_value(items@[i as int]));
        assert(views(items@).skip(i as int).drop_first() =~= views(items@).skip(i + 1));
        match items[i].as_string() {
            Some(s) => return Some(owned(s)),
            None => {},
        }
        i = i + 1;
    }
    assert(views(items@).skip(i as int).len() == 0);
    None
}

/// A plist value read as text: a string, the first string of an array, or
/// an integer in decimal.
pub fn plist_value_as_string(v: &Value) -> (r: Option<String>)
    ensures
        opt_view(r) == value_as_string(view_value(*v)),
{
    match v {
        Value::String(s) => Some(owned(s.as_str())),
        Value::Array(a) => {
            proof {
                crate::plist_lite::lemma_array_view(*a);
            }
            first_string_exec(a.as_slice())
        },
        Value::Integer(i) => {
            let mut t = String::new();
            push_decimal_i64(&mut t, *i);
            Some(t)
        },
        _ => None,
    }
}

fn dict_string_exec(v: &Value, k: &str) -> (r: Option<String>)
    ensures
        opt_view(r) == dict_string(view_value(*v), k@),
{
    match v.as_dict() {
        Some(d) => match d.get(k) {
            Some(x) => match x.as_string() {
                Some(s) => Some(owned(s)),
                None => None,
            },
            None => None,
        },
        None => None,
    }
}

/// The prefix of the error a metadata file gives when it does not parse.
pub open spec fn unreadable(file: Seq<char>, e: Seq<char>) -> Seq<char> {
    file + " unreadable: "@ + e
}

fn unreadable_exec(file: &str, e: String) -> (r: String)
    ensures
        r@ == unreadable(file@, e@),
{
    let mut m = owned(file);
    push_str(&mut m, " unreadable: ");
    push_str(&mut m, e.as_str());
    m
}

/// `Metadata/Properties.plist` → (application, file format version), or
/// the warning message for a file that does not parse.
pub fn read_properties(bytes: &[u8]) -> (r: Result<(Option<String>, Option<String>), String>)
    ensures
        match spec_parse(bytes@) {
            Ok(p) => r matches Ok((a, f)) && opt_view(a) == properties_spec(p).0 && opt_view(f)
                == properties_spec(p).1,
            Err(e) => r matches Err(m) && m@ == unreadable("Metadata/Properties.plist"@, e),
        },
{
    match parse(bytes) {
        Ok(v) => {
            let application = dict_string_exec(&v, "Application");
            let version = match v.as_dict() {
                Some(d) => match d.get("fileFormatVersion") {
                    Some(x) => plist_value_as_string(x),
                    None => None,
                },
                None => None,
            };
            Ok((application, version))
        },
        Err(e) => Err(unreadable_exec("Metadata/Properties.plist", e)),
    }
}

fn history_entry_exec(item: &Value) -> (r: Option<String>)
    ensures
        opt_view(r) == history_entry(view_value(*item)),
{
    match item {
        Value::Dict(_) => {
            let ver = dict_string_exec(item, "Version");
            let build = dict_string_exec(item, "Build");
            match (ver, build) {
                (Some(v), Some(b)) => {
                    let mut t = v;
                    push_str(&mut t, " (");
                    push_str(&mut t, b.as_str());
                    push_str(&mut t, ")");
                    Some(t)
                },
                (Some(v), None) => Some(v),
                (None, Some(b)) => Some(b),
                (None, None) => None,
            }
        },
        _ => match item.as_string() {
            Some(s) => Some(owned(s)),
            None => None,
        },
    }
}

/// The string views of a list of strings.
pub open spec fn string_views(v: Seq<String>) -> Seq<Seq<char>> {
    v.map_values(|s: String| s@)
}

/// `Metadata/BuildVersionHistory.plist` → its last 10 entries, oldest
/// first (none unless the file holds an array), or the warning message for
/// a file that does not parse.
pub fn read_build_history(bytes: &[u8]) -> (r: Result<Option<Vec<String>>, String>)
    ensures
        match spec_parse(bytes@) {
            Ok(p) => r matches Ok(h) && match h {
                Some(v) => history_spec(p) == Some(string_views(v@)),
                None => history_spec(p) is None,
            },
            Err(e) => r matches Err(m) && m@ == unreadable("Metadata/BuildVersionHistory.plist"@, e),
        },
{
    let v = match parse(bytes) {
        Ok(v) => v,
        Err(e) => return Err(unreadable_exec("Metadata/BuildVersionHistory.plist", e)),
    };
    let items = match v.as_array() {
        Some(a) => a,
        None => return Ok(None),
    };
    let ghost pv = views(items@);
    let mut entries: Vec<String> = Vec::new();
    let mut i: usize = 0;
    while i < items.len()
        invariant
            i <= items@.len(),
            pv == views(items@),
            string_views(entries@) == history_entries(pv.take(i as int)),
        decreases items@.len() - i,
    {
        assert(pv.take(i + 1).drop_last() =~= pv.take(i as int));
        assert(pv.take(i + 1).last() == view_value(items@[i as int]));
        let ghost before = string_views(entries@);
        match history_entry_exec(&items[i]) {
            Some(e) => {
                entries.push(e);
                assert(string_views(entries@) =~= before.push(entries@.last()@));
            },
            None => {},
        }
        i = i + 1;
    }
    assert(pv.take(i as int) =~= pv);
    let n = entries.len();
    let start = if n > 10 {
        n - 10
    } else {
        0
    };
    let mut last: Vec<String> = Vec::new();
    let mut j = start;
    while j < n
        invariant
            start <= j <= n,
            n == entries@.len(),
            string_views(last@) == string_views(entries@).subrange(start as int, j as int),
        decreases n - j,
    {
        let ghost before = string_views(last@);
        last.push(owned(entries[j].as_str()));
        assert(string_views(last@) =~= before.push(entries@[j as int]@));
        assert(string_views(last@) =~= string_views(entries@).subrange(start as int, j + 1));
        j = j + 1;
    }
    assert(string_views(last@) =~= last_ten(string_views(entries@)));
    Ok(Some(last))
}

/// The document id that `Metadata/DocumentIdentifier` gives: its text,
/// trimmed, when not empty.
pub open spec fn document_id_spec(b: Seq<u8>) -> Option<Seq<char>> {
    let t = trim(utf8_lossy(b));
    if t.len() > 0 {
        Some(t)
    } else {
        None
    }
}

/// The document id stored in `Metadata/DocumentIdentifier`.
pub fn read_document_id(bytes: &[u8]) -> (r: Option<String>)
    ensures
        opt_view(r) == document_id_spec(bytes@),
{
    let text = string_from_utf8_lossy(bytes);
    let v = chars_of(text.as_str());
    let (a, b) = trim_range(&v);
    if a == b {
        return None;
    }
    Some(string_of(v.as_slice(), a, b))
}

} // verus!

verus! {

/// The fields of object `id` among the loaded records, when it walked.
pub open spec fn loaded_msg(records: Map<u64, RecordView>, id: u64) -> Option<Seq<(u32, WireSpec)>> {
    if records.contains_key(id) {
        records[id].msg
    } else {
        None
    }
}

/// Field `f` of `m` as a nested message, or else as a reference to a
/// loaded object.
pub open spec fn inline_or_ref(records: Map<u64, RecordView>, m: Seq<(u32, WireSpec)>, f: u32) -> Option<
    Seq<(u32, WireSpec)>,
> {
    match vmsg(m, f) {
        Some(x) => Some(x),
        None => match vget(m, f) {
            Some(v) => match deep_ref_spec(v) {
                Some(id) => loaded_msg(records, id),
                None => None,
            },
            None => None,
        },
    }
}

/// A string field of a viewed message: its bytes read as UTF-8, ill-formed
/// sequences replaced.
pub open spec fn vstring(m: Seq<(u32, WireSpec)>, n: u32) -> Option<Seq<char>> {
    match vget(m, n) {
        Some(WireSpec::Bytes(b)) => Some(utf8_lossy(b)),
        _ => None,
    }
}

/// The locale the document archive under field `f` of the root gives: the
/// locale identifier (field 4) of its inner document archive (field 1),
/// or else its document language (field 3) when that reads as a locale.
pub open spec fn locale_via(records: Map<u64, RecordView>, root: Seq<(u32, WireSpec)>, f: u32) -> Option<
    Seq<char>,
> {
    match inline_or_ref(records, root, f) {
        None => None,
        Some(tsa) => {
            let from_tsk = match inline_or_ref(records, tsa, 1) {
                Some(tsk) => vstring(tsk, 4),
                None => None,
            };
            match from_tsk {
                Some(loc) => Some(loc),
                None => match vstring(tsa, 3) {
                    Some(loc) => if is_locale_token_spec(loc) {
                        Some(loc)
                    } else {
                        None
                    },
                    None => None,
                },
            }
        },
    }
}

/// The document locale: tried through the root's fields 15 (Pages), 8
/// (Keynote and Numbers) and 3, in that order.
pub open spec fn resolve_locale_spec(records: Map<u64, RecordView>, root: Seq<(u32, WireSpec)>) -> Option<
    Seq<char>,
> {
    match locale_via(records, root, 15) {
        Some(l) => Some(l),
        None => match locale_via(records, root, 8) {
            Some(l) => Some(l),
            None => locale_via(records, root, 3),
        },
    }
}

/// Field `f` of `m` as a nested message, or else the loaded object it
/// refers to.
fn inline_or_ref_exec(loaded: &Loaded, m: &Msg, f: u32) -> (r: Option<Msg>)
    ensures
        match inline_or_ref(loaded_view(*loaded).records, fields_view(m.fields@), f) {
            Some(x) => r matches Some(y) && fields_view(y.fields@) == x,
            None => r is None,
        },
{
    match m.msg(f) {
        Some(x) => Some(x),
        None => {
            proof {
                lemma_vall(m.fields@, f);
            }
            match m.reference(f) {
                Some(id) => match loaded.msg(id) {
                    Some(x) => Some(Msg { fields: clone_fields(&x.fields) }),
                    None => None,
                },
                None => None,
            }
        },
    }
}

fn string_of_msg(m: &Msg, n: u32) -> (r: Option<String>)
    ensures
        r matches Some(s) ==> vstring(fields_view(m.fields@), n) == Some(s@),
        r is None ==> vstring(fields_view(m.fields@), n) is None,
{
    proof {
        lemma_vall(m.fields@, n);
    }
    m.string(n)
}

/// The locale through one field of the root.
fn locale_via_exec(loaded: &Loaded, root: &Msg, f: u32) -> (r: Option<String>)
    ensures
        r matches Some(s) ==> locale_via(loaded_view(*loaded).records, fields_view(root.fields@), f)
            == Some(s@),
        r is None ==> locale_via(loaded_view(*loaded).records, fields_view(root.fields@), f) is None,
{
    let tsa = match inline_or_ref_exec(loaded, root, f) {
        Some(t) => t,
        None => {
            return None;
        },
    };
    let from_tsk = match inline_or_ref_exec(loaded, &tsa, 1) {
        Some(tsk) => string_of_msg(&tsk, 4),
        None => None,
    };
    match from_tsk {
        Some(loc) => Some(loc),
        None => match string_of_msg(&tsa, 3) {
            Some(loc) => {
                if is_locale_token(loc.as_str()) {
                    Some(loc)
                } else {
                    None
                }
            },
            None => None,
        },
    }
}

/// The document locale: the locale identifier of the document archive
/// under the root's field 15 (Pages), 8 (Keynote, Numbers) or 3, held
/// inline or referenced, with the archive's own document language as a
/// fallback when it reads as a locale.
pub fn resolve_locale(loaded: &Loaded, root: &Msg) -> (r: Option<String>)
    ensures
        r matches Some(s) ==> resolve_locale_spec(loaded_view(*loaded).records, fields_view(root.fields@))
            == Some(s@),
        r is None ==> resolve_locale_spec(loaded_view(*loaded).records, fields_view(root.fields@))
            is None,
{
    match locale_via_exec(loaded, root, 15) {
        Some(l) => Some(l),
        None => match locale_via_exec(loaded, root, 8) {
            Some(l) => Some(l),
            None => locale_via_exec(loaded, root, 3),
        },
    }
}

} // verus!

verus! {

/// The warning for objects of a type the registry does not name.
pub open spec fn unknown_type_warning(id: u32, count: u64) -> WarningView {
    WarningView {
        code: WarningCode::UnknownObjectType,
        message: dec(count as nat) + " object(s) with type id "@ + dec(id as nat) + " (0x"@ + hex(
            id as nat,
        ) + ") have no trusted registry entry; payloads skipped"@,
        path: None,
        detail: Some("0x"@ + hex(id as nat)),
        count: None,
        paths: None,
    }
}

/// The warning for incremental-save patches that could not be applied.
pub open spec fn dropped_patches_warning(n: u64) -> WarningView {
    WarningView {
        code: WarningCode::UnsupportedFeature,
        message: dec(n as nat)
            + " incremental-save patch(es) could not be applied; affected objects may show pre-edit content"@,
        path: None,
        detail: Some("incremental-save"@),
        count: None,
        paths: None,
    }
}

/// A type as warnings name it: its registry name, or its id in hex.
pub open spec fn type_label(table: Seq<(u32, String)>, id: u32) -> Seq<char> {
    match name_in(table, id) {
        Some(n) => n,
        None => "unknown:0x"@ + hex(id as nat),
    }
}

/// The warning for objects whose payload did not walk.
pub open spec fn undecodable_warning(table: Seq<(u32, String)>, id: u32, count: u64) -> WarningView {
    WarningView {
        code: WarningCode::UndecodableObject,
        message: dec(count as nat) + " object(s) of type "@ + type_label(table, id)
            + " failed to decode structurally; payloads skipped by declared length"@,
        path: None,
        detail: Some(type_label(table, id)),
        count: None,
        paths: None,
    }
}

/// The warnings loading calls for: one per unnamed type, in increasing
/// type order; one for dropped patches, when there are any; one per type
/// with payloads that did not walk, in increasing type order.
pub open spec fn loader_warnings_spec(l: Loaded, table: Seq<(u32, String)>) -> Seq<WarningView> {
    sorted_entries(l.unknown_ids@).map_values(|e: (u32, u64)| unknown_type_warning(e.0, e.1)) + (
    if l.patches_dropped > 0 {
        seq![dropped_patches_warning(l.patches_dropped)]
    } else {
        Seq::empty()
    }) + sorted_entries(l.undecodable_ids@).map_values(
        |e: (u32, u64)| undecodable_warning(table, e.0, e.1),
    )
}

fn plain_warning(code: WarningCode, message: String, detail: String) -> (w: Warning)
    ensures
        view_warning(w) == (WarningView {
            code,
            message: message@,
            path: None,
            detail: Some(detail@),
            count: None,
            paths: None,
        }),
{
    Warning { code, message, path: None, detail: Some(detail), count: None, paths: None }
}

/// The loader's findings appended to `warnings` as envelope warnings (see
/// `loader_warnings_spec`): unknown ids are named in hex, never by a
/// guessed name; `table` is the registry's names for the document's
/// application.
pub fn drain_loader_warnings(loaded: &Loaded, table: &Vec<(u32, String)>, warnings: &mut Vec<Warning>)
    ensures
        view_warnings(final(warnings)@) == view_warnings(old(warnings)@) + loader_warnings_spec(
            *loaded,
            table@,
        ),
{
    let ghost start = view_warnings(warnings@);
    let unknown = sorted_counts(&loaded.unknown_ids);
    let ghost uw = unknown@.map_values(|e: (u32, u64)| unknown_type_warning(e.0, e.1));
    let mut i: usize = 0;
    while i < unknown.len()
        invariant
            i <= unknown@.len(),
            uw == unknown@.map_values(|e: (u32, u64)| unknown_type_warning(e.0, e.1)),
            view_warnings(warnings@) == start + uw.take(i as int),
        decreases unknown@.len() - i,
    {
        let (id, count) = unknown[i];
        let mut m = String::new();
        push_decimal(&mut m, count);
        push_str(&mut m, " object(s) with type id ");
        push_decimal(&mut m, id as u64);
        push_str(&mut m, " (0x");
        push_hex(&mut m, id as u64);
        push_str(&mut m, ") have no trusted registry entry; payloads skipped");
        let mut d = owned("0x");
        push_hex(&mut d, id as u64);
        let w = plain_warning(WarningCode::UnknownObjectType, m, d);
        proof {
            assert(m@ =~= unknown_type_warning(id, count).message);
            assert(d@ =~= "0x"@ + hex(id as nat));
        }
        let ghost before = warnings@;
        assert(view_warning(w) == uw[i as int]);
        warnings.push(w);
        assert(view_warnings(warnings@) =~= view_warnings(before).push(view_warning(w)));
        assert(uw.take(i + 1) =~= uw.take(i as int).push(uw[i as int]));
        assert(view_warnings(warnings@) =~= start + uw.take(i + 1));
        i = i + 1;
    }
    assert(uw.take(i as int) =~= uw);
    let ghost after_unknown = view_warnings(warnings@);
    if loaded.patches_dropped > 0 {
        let n = loaded.patches_dropped;
        let mut m = String::new();
        push_decimal(&mut m, n);
        push_str(
            &mut m,
            " incremental-save patch(es) could not be applied; affected objects may show pre-edit content",
        );
        let w = plain_warning(WarningCode::UnsupportedFeature, m, owned("incremental-save"));
        assert(m@ =~= dropped_patches_warning(n).message);
        warnings.push(w);
        assert(view_warnings(warnings@) =~= after_unknown + seq![dropped_patches_warning(n)]);
    } else {
        assert(after_unknown + Seq::<WarningView>::empty() =~= after_unknown);
    }
    let ghost mid = view_warnings(warnings@);
    let undecodable = sorted_counts(&loaded.undecodable_ids);
    let ghost dw = undecodable@.map_values(|e: (u32, u64)| undecodable_warning(table@, e.0, e.1));
    let mut i: usize = 0;
    assert(mid + dw.take(0) =~= mid);
    while i < undecodable.len()
        invariant
            i <= undecodable@.len(),
            dw == undecodable@.map_values(|e: (u32, u64)| undecodable_warning(table@, e.0, e.1)),
            view_warnings(warnings@) == mid + dw.take(i as int),
        decreases undecodable@.len() - i,
    {
        let (id, count) = undecodable[i];
        let label = match crate::loader::lookup_name(table, id) {
            Some(n) => n,
            None => {
                let mut l = owned("unknown:0x");
                push_hex(&mut l, id as u64);
                l
            },
        };
        assert(label@ =~= type_label(table@, id));
        let mut m = String::new();
        push_decimal(&mut m, count);
        push_str(&mut m, " object(s) of type ");
        push_str(&mut m, label.as_str());
        push_str(&mut m, " failed to decode structurally; payloads skipped by declared length");
        let w = plain_warning(WarningCode::UndecodableObject, m, label);
        assert(m@ =~= undecodable_warning(table@, id, count).message);
        let ghost before = warnings@;
        assert(view_warning(w) == dw[i as int]);
        warnings.push(w);
        assert(view_warnings(warnings@) =~= view_warnings(before).push(view_warning(w)));
        assert(dw.take(i + 1) =~= dw.take(i as int).push(dw[i as int]));
        assert(view_warnings(warnings@) =~= mid + dw.take(i + 1));
        i = i + 1;
    }
    assert(dw.take(i as int) =~= dw);
    assert(view_warnings(warnings@) =~= start + loader_warnings_spec(*loaded, table@));
}

} // verus!

verus! {

/// The application the root object (id 1) shows: type 10000 is the Pages
/// document archive; otherwise its name in the current application's
/// registry table tells a Keynote or Numbers document archive.
pub open spec fn root_app(records: Map<u64, RecordView>, table: Seq<(u32, String)>) -> Option<AppKind> {
    if records.contains_key(1) {
        let t = records[1].type_id;
        if t == 10000 {
            Some(AppKind::Pages)
        } else {
            match name_in(table, t) {
                Some(n) => if n == "KN.DocumentArchive"@ {
                    Some(AppKind::Keynote)
                } else if n == "TN.DocumentArchive"@ {
                    Some(AppKind::Numbers)
                } else {
                    None
                },
                None => None,
            }
        }
    } else {
        None
    }
}

/// The application an object's type shows through its unambiguous
/// registry name.
pub open spec fn evidence(unambiguous: Seq<(u32, String)>, type_id: u32) -> Option<AppKind> {
    match name_in(unambiguous, type_id) {
        Some(n) => app_of_name(n),
        None => None,
    }
}

/// The application kind, cross-checked against the loaded objects: the
/// root object's type decides when it can (`root_app`); otherwise the
/// first object met whose unambiguous registry name carries an application
/// prefix. Objects are met in the record map's own order, which is not
/// fixed, so when several objects disagree any of their applications may
/// come out; with no evidence at all the current kind stays.
pub fn refine_app(
    loaded: &Loaded,
    table: &Vec<(u32, String)>,
    unambiguous: &Vec<(u32, String)>,
    current: AppKind,
) -> (r: AppKind)
    ensures
        match root_app(loaded_view(*loaded).records, table@) {
            Some(k) => r == k,
            None => if exists|id: u64| #[trigger]
                loaded.records@.contains_key(id) && evidence(
                    unambiguous@,
                    loaded.records@[id].type_id,
                ) is Some {
                exists|id: u64| #[trigger]
                    loaded.records@.contains_key(id) && evidence(
                        unambiguous@,
                        loaded.records@[id].type_id,
                    ) == Some(r)
            } else {
                r == current
            },
        },
{
    match loaded.record(1) {
        Some(rec) => {
            if rec.type_id == 10000 {
                return AppKind::Pages;
            }
            match lookup_name(table, rec.type_id) {
                Some(n) => {
                    if str_eq(n.as_str(), "KN.DocumentArchive") {
                        return AppKind::Keynote;
                    }
                    if str_eq(n.as_str(), "TN.DocumentArchive") {
                        return AppKind::Numbers;
                    }
                },
                None => {},
            }
        },
        None => {},
    }
    let ghost m = loaded.records@;
    let ghost v = vstd::std_specs::hash::spec_values_iter(&loaded.records).remaining();
    for rec in it: loaded.records.values()
        invariant
            it.seq() == v,
            m == loaded.records@,
            root_app(loaded_view(*loaded).records, table@) is None,
            v.unref().to_set() == m.values(),
            forall|i: int| 0 <= i < it.index() ==> evidence(unambiguous@, (#[trigger] v[i]).type_id) is None,
    {
        match lookup_name(unambiguous, rec.type_id) {
            Some(n) => match crate::loader::app_of_exec(n.as_str()) {
                Some(k) => {
                    proof {
                        let i = it.index();
                        assert(v.unref().to_set().contains(*v[i]));
                        assert(m.values().contains(*v[i]));
                        let id = choose|id: u64| m.contains_key(id) && m[id] == *v[i];
                        assert(loaded.records@.contains_key(id) && evidence(
                            unambiguous@,
                            loaded.records@[id].type_id,
                        ) == Some(k));
                    }
                    return k;
                },
                None => {},
            },
            None => {},
        }
    }
    proof {
        assert forall|id: u64| #[trigger] loaded.records@.contains_key(id) implies evidence(
            unambiguous@,
            loaded.records@[id].type_id,
        ) is None by {
            assert(m.values().contains(m[id]));
            assert(v.unref().to_set().contains(m[id]));
            let i = choose|i: int| 0 <= i < v.unref().len() && v.unref()[i] == m[id];
            assert(*v[i] == m[id]);
        }
    }
    current
}

/// Occurrences of `q` in `ks`.
pub open spec fn occurrences(ks: Seq<Seq<char>>, q: Seq<char>) -> nat
    decreases ks.len(),
{
    if ks.len() == 0 {
        0
    } else {
        occurrences(ks.drop_last(), q) + if ks.last() == q {
            1nat
        } else {
            0nat
        }
    }
}

/// `b` is `a` after one bump of `k` (what `Counter::bump` ensures).
pub open spec fn bumped(a: Counter, b: Counter, k: Seq<char>) -> bool {
    &&& forall|q: Seq<char>| #[trigger] b.count(q) == if q == k {
        a.count(q) + 1
    } else {
        a.count(q)
    }
    &&& b.total() == a.total() + 1
}

/// A counter that starts new and is bumped with the keys `ks` in turn
/// counts each key as often as it occurs in `ks`, and `ks.len()` bumps in
/// all.
pub proof fn lemma_counts_after_bumps(states: Seq<Counter>, ks: Seq<Seq<char>>)
    requires
        states.len() == ks.len() + 1,
        forall|q: Seq<char>| #[trigger] states[0].count(q) == 0,
        states[0].total() == 0,
        forall|i: int| 0 <= i < ks.len() ==> #[trigger] bumped(states[i], states[i + 1], ks[i]),
    ensures
        forall|q: Seq<char>| #[trigger] states.last().count(q) == occurrences(ks, q),
        states.last().total() == ks.len(),
    decreases ks.len(),
{
    if ks.len() > 0 {
        let n = ks.len() as int;
        assert forall|i: int| 0 <= i < ks.drop_last().len() implies #[trigger] bumped(
            states.drop_last()[i],
            states.drop_last()[i + 1],
            ks.drop_last()[i],
        ) by {
            assert(bumped(states[i], states[i + 1], ks[i]));
        }
        lemma_counts_after_bumps(states.drop_last(), ks.drop_last());
        assert(bumped(states[n - 1], states[n], ks[n - 1]));
        assert(states.drop_last().last() == states[n - 1]);
    }
}

/// `v` is what `drain` hands out for `c`.
pub open spec fn drained(c: Counter, v: Seq<(String, u64)>) -> bool {
    &&& entries_sorted(v)
    &&& forall|i: int| 0 <= i < v.len() ==> (#[trigger] v[i]).1 >= 1
    &&& forall|q: Seq<char>| #[trigger] tally(v, q) == c.count(q)
    &&& counts_sum(v) == c.total()
}

/// Draining a counter that starts new and is bumped with the keys `ks` in
/// turn gives each key of `ks` once, in strictly ascending order, paired
/// with the number of times it occurs in `ks`, and no other key; the
/// counts add up to `ks.len()` (so a counter never bumped drains empty).
pub proof fn lemma_drain_after_bumps(states: Seq<Counter>, ks: Seq<Seq<char>>, v: Seq<(String, u64)>)
    requires
        states.len() == ks.len() + 1,
        forall|q: Seq<char>| #[trigger] states[0].count(q) == 0,
        states[0].total() == 0,
        forall|i: int| 0 <= i < ks.len() ==> #[trigger] bumped(states[i], states[i + 1], ks[i]),
        drained(states.last(), v),
    ensures
        entries_sorted(v),
        forall|i: int| 0 <= i < v.len() ==> (#[trigger] v[i]).1 >= 1,
        forall|q: Seq<char>| #[trigger] tally(v, q) == occurrences(ks, q),
        counts_sum(v) == ks.len(),
{
    lemma_counts_after_bumps(states, ks);
}

/// `b` is the pool `a` after interning `item` under `key` (what
/// `StylePool::intern` ensures).
pub open spec fn interned<T>(a: StylePool<T>, b: StylePool<T>, key: Seq<char>, item: T) -> bool {
    &&& b.wf()
    &&& (key == "{}"@ || a.index_of(key) is Some) ==> b.pooled() == a.pooled() && forall|k: Seq<char>|
        #[trigger] b.index_of(k) == a.index_of(k)
    &&& (key != "{}"@ && a.index_of(key) is None) ==> b.pooled() == a.pooled().push(item) && forall|
        k: Seq<char>,
    | #[trigger] b.index_of(k) == if k == key {
        Some(a.pooled().len() as u32)
    } else {
        a.index_of(k)
    }
}

/// Item `j` of `p` is the item of some intern `i` whose key indexes `j`.
pub open spec fn item_source<T>(p: StylePool<T>, keys: Seq<Seq<char>>, items: Seq<T>, j: int) -> bool {
    exists|i: int| 0 <= i < keys.len() && #[trigger] p.index_of(keys[i]) == Some(j as u32) && p.pooled()[j] == items[i]
}

/// A pool that starts empty and interns `keys` in turn stays well formed:
/// every key other than `{}` that was interned has an index, every index
/// belongs to an interned key, no two keys share one, and the pool holds
/// no more items than interns. Each pooled item is the item first interned
/// under a key that indexes it, so interning that key again gives the
/// item's index back and leaves the pool as it is (see `intern`).
pub proof fn lemma_pool_after_interns<T>(states: Seq<StylePool<T>>, keys: Seq<Seq<char>>, items: Seq<T>)
    requires
        states.len() == keys.len() + 1,
        items.len() == keys.len(),
        states[0].wf(),
        states[0].pooled().len() == 0,
        forall|k: Seq<char>| #[trigger] states[0].index_of(k) is None,
        forall|i: int| 0 <= i < keys.len() ==> #[trigger] interned(states[i], states[i + 1], keys[i], items[i]),
    ensures
        states.last().wf(),
        states.last().pooled().len() <= keys.len(),
        forall|i: int| 0 <= i < keys.len() && keys[i] != "{}"@ ==> #[trigger] states.last().index_of(keys[i]) is Some,
        forall|k: Seq<char>| #[trigger] states.last().index_of(k) is Some ==> keys.contains(k) && k != "{}"@,
        forall|k1: Seq<char>, k2: Seq<char>|
            #[trigger] states.last().index_of(k1) is Some && states.last().index_of(k1) == #[trigger] states.last().index_of(k2) ==> k1 == k2,
        forall|j: int| 0 <= j < states.last().pooled().len() ==> #[trigger] item_source(states.last(), keys, items, j),
    decreases keys.len(),
{
    if keys.len() > 0 {
        let n = keys.len() as int;
        let ps = states.drop_last();
        let ks = keys.drop_last();
        assert forall|i: int| 0 <= i < ks.len() implies #[trigger] interned(ps[i], ps[i + 1], ks[i], items.drop_last()[i]) by {
            assert(interned(states[i], states[i + 1], keys[i], items[i]));
        }
        lemma_pool_after_interns(ps, ks, items.drop_last());
        let a = states[n - 1];
        let b = states[n];
        assert(ps.last() == a);
        assert(interned(a, b, keys[n - 1], items[n - 1]));
        a.lemma_pool_index();
        b.lemma_pool_index();
        assert forall|i: int| 0 <= i < keys.len() && keys[i] != "{}"@ implies #[trigger] b.index_of(keys[i]) is Some by {
            if i < n - 1 {
                assert(ks[i] == keys[i]);
                assert(a.index_of(ks[i]) is Some);
            }
        }
        assert(states.last() == b);
        assert forall|j: int| 0 <= j < states.last().pooled().len() implies #[trigger] item_source(states.last(), keys, items, j) by {
            if j < a.pooled().len() {
                assert(item_source(ps.last(), ks, items.drop_last(), j));
                let i = choose|i: int|
                    0 <= i < ks.len() && #[trigger] a.index_of(ks[i]) == Some(j as u32) && #[trigger] a.pooled()[j] == items.drop_last()[i];
                assert(keys[i] == ks[i]);
                assert(items[i] == items.drop_last()[i]);
                assert(states.last().index_of(keys[i]) == Some(j as u32));
                assert(states.last().pooled()[j] == items[i]);
            } else {
                assert(states.last().index_of(keys[n - 1]) == Some(j as u32));
                assert(states.last().pooled()[j] == items[n - 1]);
                assert(item_source(states.last(), keys, items, j));
            }
        }
        assert forall|k: Seq<char>| #[trigger] b.index_of(k) is Some implies keys.contains(k) && k != "{}"@ by {
            if k == keys[n - 1] {
                assert(keys[n - 1] == k);
            } else {
                assert(a.index_of(k) is Some);
                assert(ks.contains(k));
                let j = choose|j: int| 0 <= j < ks.len() && ks[j] == k;
                assert(keys[j] == k);
            }
        }
    } else {
        assert(states.last() == states[0]);
    }
}

} // verus!
