//! Field-list edits that incremental-save patches make on a base message:
//! clearing every occurrence of a field, and replacing a field's
//! occurrences in place.
use vstd::prelude::*;
use crate::pb::{Field, clone_value, clone_fields};
use crate::wire::{WireSpec, value_view, fields_view, lemma_fields_view_len, lemma_fields_view_push};

verus! {

/// The entries of `fs` not numbered `n`, in order.
pub open spec fn drop_num(fs: Seq<(u32, WireSpec)>, n: u32) -> Seq<(u32, WireSpec)>
    decreases fs.len(),
{
    if fs.len() == 0 {
        Seq::empty()
    } else if fs.last().0 == n {
        drop_num(fs.drop_last(), n)
    } else {
        drop_num(fs.drop_last(), n).push(fs.last())
    }
}

/// The entries of `fs` numbered `n`, in order.
pub open spec fn keep_num(fs: Seq<(u32, WireSpec)>, n: u32) -> Seq<(u32, WireSpec)>
    decreases fs.len(),
{
    if fs.len() == 0 {
        Seq::empty()
    } else if fs.last().0 == n {
        keep_num(fs.drop_last(), n).push(fs.last())
    } else {
        keep_num(fs.drop_last(), n)
    }
}

/// The position of the first entry numbered `n` among the first `k`.
pub open spec fn vfirst(fs: Seq<(u32, WireSpec)>, n: u32, k: int) -> Option<int>
    decreases k,
{
    if k <= 0 {
        None
    } else {
        match vfirst(fs, n, k - 1) {
            Some(i) => Some(i),
            None => if fs[k - 1].0 == n {
                Some(k - 1)
            } else {
                None
            },
        }
    }
}

/// Field `n`'s occurrences in `base` replaced by `group`: the group takes
/// the place of the first old occurrence, or goes to the end when there
/// was none.
pub open spec fn set_one(base: Seq<(u32, WireSpec)>, n: u32, group: Seq<(u32, WireSpec)>) -> Seq<
    (u32, WireSpec),
> {
    match vfirst(base, n, base.len() as int) {
        Some(i) => {
            let rest = drop_num(base, n);
            let at = if i < rest.len() {
                i
            } else {
                rest.len() as int
            };
            rest.take(at) + group + rest.skip(at)
        },
        None => base + group,
    }
}

/// `base` with each field number of the first `k` replacements set in
/// turn, in the order the numbers first appear.
pub open spec fn set_fields_upto(
    base: Seq<(u32, WireSpec)>,
    repl: Seq<(u32, WireSpec)>,
    k: int,
) -> Seq<(u32, WireSpec)>
    decreases k,
{
    if k <= 0 {
        base
    } else {
        let b = set_fields_upto(base, repl, k - 1);
        let n = repl[k - 1].0;
        if vfirst(repl, n, k - 1) is None {
            set_one(b, n, keep_num(repl, n))
        } else {
            b
        }
    }
}

/// `base` with every field number of `repl` replaced by its occurrences
/// in `repl` (proto2 merge of singular fields, keeping field order).
pub open spec fn set_fields_spec(base: Seq<(u32, WireSpec)>, repl: Seq<(u32, WireSpec)>) -> Seq<
    (u32, WireSpec),
> {
    set_fields_upto(base, repl, repl.len() as int)
}

/// Deep copies of `src[from..to]` appended to `out`.
fn append_clones(out: &mut Vec<Field>, src: &Vec<Field>, from: usize, to: usize)
    requires
        from <= to <= src@.len(),
    ensures
        fields_view(final(out)@) == fields_view(old(out)@) + fields_view(src@).subrange(
            from as int,
            to as int,
        ),
{
    let ghost start = fields_view(out@);
    proof {
        lemma_fields_view_len(src@);
        assert(start + fields_view(src@).subrange(from as int, from as int) =~= start);
    }
    let mut i = from;
    while i < to
        invariant
            from <= i <= to <= src@.len(),
            fields_view(src@).len() == src@.len(),
            forall|j: int|
                0 <= j < src@.len() ==> #[trigger] fields_view(src@)[j] == (
                    src@[j].number,
                    value_view(src@[j].value),
                ),
            fields_view(out@) == start + fields_view(src@).subrange(from as int, i as int),
        decreases to - i,
    {
        let f = Field { number: src[i].number, value: clone_value(&src[i].value) };
        proof {
            lemma_fields_view_push(out@, f);
            assert(start + fields_view(src@).subrange(from as int, i as int) + seq![
                (f.number, value_view(f.value)),
            ] =~= start + fields_view(src@).subrange(from as int, i + 1));
        }
        out.push(f);
        i = i + 1;
    }
}

/// Deep copies of the entries numbered `n` (`keep`) or of all the others.
pub fn filter_numbered(fs: &Vec<Field>, n: u32, keep: bool) -> (r: Vec<Field>)
    ensures
        fields_view(r@) == if keep {
            keep_num(fields_view(fs@), n)
        } else {
            drop_num(fields_view(fs@), n)
        },
{
    let mut out: Vec<Field> = Vec::new();
    let mut i: usize = 0;
    let ghost v = fields_view(fs@);
    proof {
        lemma_fields_view_len(fs@);
        assert(fields_view(out@) =~= Seq::empty());
        assert(v.take(0) =~= Seq::<(u32, WireSpec)>::empty());
    }
    while i < fs.len()
        invariant
            i <= fs@.len(),
            v == fields_view(fs@),
            v.len() == fs@.len(),
            forall|j: int|
                0 <= j < fs@.len() ==> #[trigger] v[j] == (fs@[j].number, value_view(fs@[j].value)),
            fields_view(out@) == if keep {
                keep_num(v.take(i as int), n)
            } else {
                drop_num(v.take(i as int), n)
            },
        decreases fs@.len() - i,
    {
        proof {
            assert(v.take(i + 1).drop_last() =~= v.take(i as int));
            assert(v.take(i + 1).last() == v[i as int]);
        }
        if (fs[i].number == n) == keep {
            let f = Field { number: fs[i].number, value: clone_value(&fs[i].value) };
            proof {
                lemma_fields_view_push(out@, f);
            }
            out.push(f);
        }
        i = i + 1;
    }
    assert(v.take(i as int) =~= v);
    out
}

/// The position of the first field numbered `n`.
pub fn first_numbered(fs: &Vec<Field>, n: u32) -> (r: Option<usize>)
    ensures
        match r {
            Some(i) => vfirst(fields_view(fs@), n, fs@.len() as int) == Some(i as int) && i
                < fs@.len(),
            None => vfirst(fields_view(fs@), n, fs@.len() as int) is None,
        },
{
    let ghost v = fields_view(fs@);
    proof {
        lemma_fields_view_len(fs@);
    }
    let mut i: usize = 0;
    while i < fs.len()
        invariant
            i <= fs@.len(),
            v == fields_view(fs@),
            v.len() == fs@.len(),
            forall|j: int|
                0 <= j < fs@.len() ==> #[trigger] v[j] == (fs@[j].number, value_view(fs@[j].value)),
            vfirst(v, n, i as int) is None,
        decreases fs@.len() - i,
    {
        if fs[i].number == n {
            assert(v[i as int].0 == n);
            proof {
                lemma_vfirst_stable(v, n, i + 1, fs@.len() as int);
            }
            return Some(i);
        }
        i = i + 1;
    }
    None
}

/// Once found among the first `k`, the first occurrence stays first.
proof fn lemma_vfirst_stable(fs: Seq<(u32, WireSpec)>, n: u32, k: int, k2: int)
    requires
        k <= k2,
        vfirst(fs, n, k) is Some,
    ensures
        vfirst(fs, n, k2) == vfirst(fs, n, k),
    decreases k2 - k,
{
    if k2 > k {
        lemma_vfirst_stable(fs, n, k, k2 - 1);
    }
}

/// Whether a field numbered `n` occurs among the first `k`.
fn numbered_before(fs: &Vec<Field>, n: u32, k: usize) -> (r: bool)
    requires
        k <= fs@.len(),
    ensures
        r == (vfirst(fields_view(fs@), n, k as int) is Some),
{
    let ghost v = fields_view(fs@);
    proof {
        lemma_fields_view_len(fs@);
    }
    let mut i: usize = 0;
    while i < k
        invariant
            i <= k <= fs@.len(),
            v == fields_view(fs@),
            v.len() == fs@.len(),
            forall|j: int|
                0 <= j < fs@.len() ==> #[trigger] v[j] == (fs@[j].number, value_view(fs@[j].value)),
            vfirst(v, n, i as int) is None,
        decreases k - i,
    {
        if fs[i].number == n {
            assert(v[i as int].0 == n);
            proof {
                lemma_vfirst_stable(v, n, i + 1, k as int);
            }
            return true;
        }
        i = i + 1;
    }
    false
}

/// Field `n`'s occurrences in `base` replaced by `group`.
fn set_one_exec(base: &Vec<Field>, n: u32, group: &Vec<Field>) -> (r: Vec<Field>)
    ensures
        fields_view(r@) == set_one(fields_view(base@), n, fields_view(group@)),
{
    proof {
        lemma_fields_view_len(group@);
        lemma_fields_view_len(base@);
    }
    match first_numbered(base, n) {
        Some(i) => {
            let rest = filter_numbered(base, n, false);
            proof {
                lemma_fields_view_len(rest@);
            }
            let at = if i < rest.len() {
                i
            } else {
                rest.len()
            };
            let mut out: Vec<Field> = Vec::new();
            let ghost rv = fields_view(rest@);
            let ghost gv = fields_view(group@);
            assert(fields_view(out@) =~= Seq::empty());
            append_clones(&mut out, &rest, 0, at);
            assert(fields_view(out@) =~= rv.take(at as int));
            append_clones(&mut out, group, 0, group.len());
            assert(fields_view(out@) =~= rv.take(at as int) + gv);
            append_clones(&mut out, &rest, at, rest.len());
            assert(fields_view(out@) =~= rv.take(at as int) + gv + rv.skip(at as int));
            out
        },
        None => {
            let mut out: Vec<Field> = Vec::new();
            proof {
                lemma_fields_view_len(base@);
            }
            assert(fields_view(out@) =~= Seq::empty());
            append_clones(&mut out, base, 0, base.len());
            append_clones(&mut out, group, 0, group.len());
            proof {
                assert(fields_view(base@).subrange(0, base@.len() as int) =~= fields_view(base@));
                assert(fields_view(group@).subrange(0, group@.len() as int) =~= fields_view(
                    group@,
                ));
                assert(Seq::<(u32, WireSpec)>::empty() + fields_view(base@) =~= fields_view(
                    base@,
                ));
            }
            out
        },
    }
}

/// `base` with every field number of `repl` replaced by its occurrences in
/// `repl`: each number takes the place of its first old occurrence, or goes
/// to the end when it had none.
pub fn set_fields(base: &Vec<Field>, repl: &Vec<Field>) -> (r: Vec<Field>)
    ensures
        fields_view(r@) == set_fields_spec(fields_view(base@), fields_view(repl@)),
{
    let mut cur = clone_fields(base);
    let ghost bv = fields_view(base@);
    let ghost rv = fields_view(repl@);
    proof {
        lemma_fields_view_len(repl@);
    }
    let mut k: usize = 0;
    while k < repl.len()
        invariant
            k <= repl@.len(),
            bv == fields_view(base@),
            rv == fields_view(repl@),
            rv.len() == repl@.len(),
            forall|j: int|
                0 <= j < repl@.len() ==> #[trigger] rv[j] == (
                    repl@[j].number,
                    value_view(repl@[j].value),
                ),
            fields_view(cur@) == set_fields_upto(bv, rv, k as int),
        decreases repl@.len() - k,
    {
        let n = repl[k].number;
        assert(rv[k as int].0 == n);
        if !numbered_before(repl, n, k) {
            let group = filter_numbered(repl, n, true);
            cur = set_one_exec(&cur, n, &group);
        }
        k = k + 1;
    }
    cur
}

} // verus!

verus! {

proof fn lemma_keep_concat(x: Seq<(u32, WireSpec)>, y: Seq<(u32, WireSpec)>, n: u32)
    ensures
        keep_num(x + y, n) == keep_num(x, n) + keep_num(y, n),
    decreases y.len(),
{
    if y.len() == 0 {
        assert(x + y =~= x);
        assert(keep_num(x, n) + keep_num(y, n) =~= keep_num(x, n));
    } else {
        assert((x + y).drop_last() =~= x + y.drop_last());
        assert((x + y).last() == y.last());
        lemma_keep_concat(x, y.drop_last(), n);
        if y.last().0 == n {
            assert(keep_num(x, n) + keep_num(y.drop_last(), n).push(y.last()) =~= (keep_num(x, n)
                + keep_num(y.drop_last(), n)).push(y.last()));
        }
    }
}

proof fn lemma_keep_drop(b: Seq<(u32, WireSpec)>, m: u32, n: u32)
    ensures
        keep_num(drop_num(b, m), n) == if n == m {
            Seq::<(u32, WireSpec)>::empty()
        } else {
            keep_num(b, n)
        },
    decreases b.len(),
{
    if b.len() > 0 {
        lemma_keep_drop(b.drop_last(), m, n);
        if b.last().0 != m {
            assert(drop_num(b, m).drop_last() =~= drop_num(b.drop_last(), m));
        }
    } else {
        assert(keep_num(drop_num(b, m), n) =~= Seq::<(u32, WireSpec)>::empty());
    }
}

proof fn lemma_keep_keep(s: Seq<(u32, WireSpec)>, m: u32, n: u32)
    ensures
        keep_num(keep_num(s, m), n) == if n == m {
            keep_num(s, m)
        } else {
            Seq::<(u32, WireSpec)>::empty()
        },
    decreases s.len(),
{
    if s.len() > 0 {
        lemma_keep_keep(s.drop_last(), m, n);
        if s.last().0 == m {
            assert(keep_num(s, m).drop_last() =~= keep_num(s.drop_last(), m));
        }
    } else {
        assert(keep_num(keep_num(s, m), n) =~= Seq::<(u32, WireSpec)>::empty());
    }
}

/// Field `n` occurs among the first `k` exactly when keeping field `n` of
/// those leaves something.
proof fn lemma_vfirst_keep(s: Seq<(u32, WireSpec)>, n: u32, k: int)
    requires
        0 <= k <= s.len(),
    ensures
        (vfirst(s, n, k) is Some) == (keep_num(s.take(k), n).len() > 0),
    decreases k,
{
    if k > 0 {
        lemma_vfirst_keep(s, n, k - 1);
        assert(s.take(k).drop_last() =~= s.take(k - 1));
        assert(s.take(k).last() == s[k - 1]);
    } else {
        assert(s.take(0) =~= Seq::<(u32, WireSpec)>::empty());
    }
}

proof fn lemma_vfirst_bounds(s: Seq<(u32, WireSpec)>, n: u32, k: int)
    ensures
        vfirst(s, n, k) matches Some(i) ==> 0 <= i < k,
    decreases k,
{
    if k > 0 {
        lemma_vfirst_bounds(s, n, k - 1);
    }
}

proof fn lemma_keep_set_one(b: Seq<(u32, WireSpec)>, repl: Seq<(u32, WireSpec)>, m: u32, n: u32)
    ensures
        keep_num(set_one(b, m, keep_num(repl, m)), n) == if n == m {
            keep_num(repl, m)
        } else {
            keep_num(b, n)
        },
{
    let g = keep_num(repl, m);
    lemma_keep_keep(repl, m, n);
    lemma_vfirst_bounds(b, m, b.len() as int);
    match vfirst(b, m, b.len() as int) {
        Some(i) => {
            let rest = drop_num(b, m);
            let at = if i < rest.len() {
                i
            } else {
                rest.len() as int
            };
            let a = rest.take(at);
            let z = rest.skip(at);
            assert(a + z =~= rest);
            lemma_keep_concat(a, z, n);
            lemma_keep_concat(a + g, z, n);
            lemma_keep_concat(a, g, n);
            lemma_keep_drop(b, m, n);
            if n == m {
                assert(keep_num(a, n) + keep_num(z, n) =~= Seq::<(u32, WireSpec)>::empty());
                assert(keep_num(a, n).len() == 0);
                assert(keep_num(a, n) =~= Seq::<(u32, WireSpec)>::empty());
                assert(keep_num(z, n) =~= Seq::<(u32, WireSpec)>::empty());
                assert(keep_num(a, n) + keep_num(g, n) + keep_num(z, n) =~= g);
            } else {
                assert(keep_num(a, n) + keep_num(g, n) + keep_num(z, n) =~= keep_num(a, n)
                    + keep_num(z, n));
            }
        },
        None => {
            lemma_keep_concat(b, g, n);
            if n == m {
                lemma_vfirst_keep(b, m, b.len() as int);
                assert(b.take(b.len() as int) =~= b);
                assert(keep_num(b, n) =~= Seq::<(u32, WireSpec)>::empty());
                assert(keep_num(b, n) + g =~= g);
            } else {
                assert(keep_num(b, n) + Seq::<(u32, WireSpec)>::empty() =~= keep_num(b, n));
            }
        },
    }
}

proof fn lemma_set_fields_upto_keep(
    base: Seq<(u32, WireSpec)>,
    repl: Seq<(u32, WireSpec)>,
    n: u32,
    k: int,
)
    requires
        0 <= k <= repl.len(),
    ensures
        keep_num(set_fields_upto(base, repl, k), n) == if vfirst(repl, n, k) is Some {
            keep_num(repl, n)
        } else {
            keep_num(base, n)
        },
    decreases k,
{
    if k > 0 {
        lemma_set_fields_upto_keep(base, repl, n, k - 1);
        let b = set_fields_upto(base, repl, k - 1);
        let m = repl[k - 1].0;
        if vfirst(repl, m, k - 1) is None {
            lemma_keep_set_one(b, repl, m, n);
        } else if n == m {
            assert(vfirst(repl, n, k - 1) is Some);
        }
    }
}

/// Setting fields replaces them: afterwards field `n` holds exactly its
/// occurrences in the replacement when the replacement has any, and its
/// old occurrences otherwise (proto2 merge of a partial message).
pub proof fn lemma_set_fields_replaces(base: Seq<(u32, WireSpec)>, repl: Seq<(u32, WireSpec)>, n: u32)
    ensures
        keep_num(set_fields_spec(base, repl), n) == if keep_num(repl, n).len() > 0 {
            keep_num(repl, n)
        } else {
            keep_num(base, n)
        },
{
    lemma_set_fields_upto_keep(base, repl, n, repl.len() as int);
    lemma_vfirst_keep(repl, n, repl.len() as int);
    assert(repl.take(repl.len() as int) =~= repl);
}

/// Clearing a field removes every occurrence of it and keeps every other
/// field's occurrences.
pub proof fn lemma_clear_keeps_others(b: Seq<(u32, WireSpec)>, m: u32, n: u32)
    ensures
        keep_num(drop_num(b, m), n) == if n == m {
            Seq::<(u32, WireSpec)>::empty()
        } else {
            keep_num(b, n)
        },
{
    lemma_keep_drop(b, m, n);
}

} // verus!
