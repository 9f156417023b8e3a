//! pnk2json — reading Apple iWork '13+ documents (.pages/.numbers/.key)
//! into the pnk JSON document model: the verified core.
pub mod text_util;
pub mod plist_lite;
pub mod model;
pub mod formulas;
pub mod formula_decode;
pub mod text;
pub mod ctx;
pub mod styles;
pub mod charts;
pub mod loader;
pub mod tables;
pub mod pages;
pub mod dumptext;
pub mod cli;
pub mod members;
pub mod colors;
pub mod cell_storage;
pub mod numbers;
pub mod pb;
pub mod wire;
pub mod patch;
pub mod counts;
pub mod media;
pub mod keynote;
pub mod categories;
pub mod cell_formats;
pub mod container;
pub mod cells;
pub mod table_shape;
pub mod attachments;
pub mod shapes;
pub mod formula_nodes;
pub mod table_grid;
pub mod text_runs;
pub mod chart_grid;
pub mod chart_model;
pub mod documents;
pub mod convert;
pub mod builds;

use vstd::prelude::*;
use crate::formulas::{hex_fixed, push_hex_fixed};
use crate::text_util::{push_char, push_str, chars_of, owned, str_eq};
use crate::model::{Warning, WarningCode};

verus! {

/// A code point that JSON allows raw but that misleads a human reader: the
/// line and paragraph separators U+2028/U+2029, the Unicode space
/// separators (Zs) other than the ASCII space, and the format characters
/// (Cf) that are invisible or width-ambiguous.
pub open spec fn needs_escape(c: char) -> bool {
    ||| c == '\u{2028}' || c == '\u{2029}'
    ||| c == '\u{a0}' || c == '\u{1680}' || ('\u{2000}' <= c <= '\u{200a}') || c == '\u{202f}'
        || c == '\u{205f}' || c == '\u{3000}'
    ||| c == '\u{ad}' || ('\u{200b}' <= c <= '\u{200f}') || ('\u{202a}' <= c <= '\u{202e}') || (
    '\u{2060}' <= c <= '\u{2064}') || ('\u{2066}' <= c <= '\u{206f}') || c == '\u{feff}'
}

/// A character as the reader-safe JSON text writes it: `\uXXXX` (four
/// lower-case hex digits) when it needs escaping, itself otherwise.
pub open spec fn escaped(c: char) -> Seq<char> {
    if needs_escape(c) {
        seq!['\\', 'u'] + hex_fixed(c as u32 as nat, 4)
    } else {
        seq![c]
    }
}

/// A text with every such hazard escaped.
pub open spec fn escape_hazards(s: Seq<char>) -> Seq<char>
    decreases s.len(),
{
    if s.len() == 0 {
        Seq::empty()
    } else {
        escape_hazards(s.drop_last()) + escaped(s.last())
    }
}

fn needs_escape_exec(c: char) -> (r: bool)
    ensures
        r == needs_escape(c),
{
    c == '\u{2028}' || c == '\u{2029}' || c == '\u{a0}' || c == '\u{1680}' || ('\u{2000}' <= c && c
        <= '\u{200a}') || c == '\u{202f}' || c == '\u{205f}' || c == '\u{3000}' || c == '\u{ad}' || (
    '\u{200b}' <= c && c <= '\u{200f}') || ('\u{202a}' <= c && c <= '\u{202e}') || ('\u{2060}' <= c
        && c <= '\u{2064}') || ('\u{2066}' <= c && c <= '\u{206f}') || c == '\u{feff}'
}

/// Escape code points that JSON allows raw but that mislead a human reader
/// (line/paragraph separators, space separators, format characters) as
/// `\uXXXX`. Semantically a no-op on JSON text: these code points only
/// occur inside string literals. Regular space and tab stay raw.
pub fn escape_review_hazards(json: &str) -> (r: String)
    ensures
        r@ == escape_hazards(json@),
{
    let v = chars_of(json);
    let mut out = String::new();
    let mut i: usize = 0;
    while i < v.len()
        invariant
            i <= v@.len(),
            v@ == json@,
            out@ == escape_hazards(json@.take(i as int)),
        decreases v@.len() - i,
    {
        let c = v[i];
        assert(json@.take(i + 1).drop_last() =~= json@.take(i as int));
        if needs_escape_exec(c) {
            push_char(&mut out, '\\');
            push_char(&mut out, 'u');
            push_hex_fixed(&mut out, c as u32 as u128, 4);
        } else {
            push_char(&mut out, c);
        }
        assert(out@ =~= escape_hazards(json@.take(i + 1)));
        i = i + 1;
    }
    assert(json@.take(i as int) =~= json@);
    out
}

/// A warning as plain values.
pub struct WarningView {
    pub code: WarningCode,
    pub message: Seq<char>,
    pub path: Option<Seq<char>>,
    pub detail: Option<Seq<char>>,
    pub count: Option<int>,
    pub paths: Option<Seq<Seq<char>>>,
}

pub open spec fn opt_str(o: Option<String>) -> Option<Seq<char>> {
    match o {
        Some(s) => Some(s@),
        None => None,
    }
}

pub open spec fn strs(v: Seq<String>) -> Seq<Seq<char>> {
    v.map_values(|s: String| s@)
}

pub open spec fn view_warning(w: Warning) -> WarningView {
    WarningView {
        code: w.code,
        message: w.message@,
        path: opt_str(w.path),
        detail: opt_str(w.detail),
        count: match w.count {
            Some(c) => Some(c as int),
            None => None,
        },
        paths: match w.paths {
            Some(v) => Some(strs(v@)),
            None => None,
        },
    }
}

pub open spec fn view_warnings(ws: Seq<Warning>) -> Seq<WarningView> {
    ws.map_values(|w: Warning| view_warning(w))
}

/// Whether `c` is an ASCII digit.
pub open spec fn is_digit(c: char) -> bool {
    '0' <= c <= '9'
}

/// A message with every run of ASCII digits replaced by one `#`.
pub open spec fn normalize_digits(m: Seq<char>) -> Seq<char>
    decreases m.len(),
{
    if m.len() == 0 {
        Seq::empty()
    } else {
        let p = normalize_digits(m.drop_last());
        if !is_digit(m.last()) {
            p.push(m.last())
        } else if m.len() >= 2 && is_digit(m[m.len() - 2]) {
            p
        } else {
            p.push('#')
        }
    }
}

/// Codes whose detail is the warning's identity (a type id, an asset name).
pub open spec fn identity_coded(c: WarningCode) -> bool {
    c == WarningCode::UnknownObjectType || c == WarningCode::UndecodableObject || c
        == WarningCode::MediaMissing
}

/// The dedupe key of a warning: its code and its digit-normalized message,
/// followed by U+001F and the detail for identity-coded warnings.
pub open spec fn warning_key(w: WarningView) -> (WarningCode, Seq<char>) {
    (
        w.code,
        normalize_digits(w.message) + if identity_coded(w.code) && w.detail is Some {
            seq!['\u{1f}'] + w.detail->0
        } else {
            Seq::empty()
        },
    )
}

/// A count, absent meaning one.
pub open spec fn weight(c: Option<int>) -> int {
    match c {
        Some(n) => n,
        None => 1,
    }
}

/// The surviving row `first` after absorbing the later row `w`: its count
/// goes up by one, and `w`'s path joins the example paths (which start from
/// `first`'s own path) while there are fewer than 5 and it is new.
pub open spec fn absorb(first: WarningView, w: WarningView) -> WarningView {
    WarningView {
        count: Some(weight(first.count) + 1),
        paths: match w.path {
            Some(p) => {
                let base = match first.paths {
                    Some(ps) => ps,
                    None => match first.path {
                        Some(q) => seq![q],
                        None => Seq::empty(),
                    },
                };
                Some(
                    if base.len() < 5 && !base.contains(p) {
                        base.push(p)
                    } else {
                        base
                    },
                )
            },
            None => first.paths,
        },
        ..first
    }
}

/// The first row of `rows` with dedupe key `k`.
pub open spec fn find_key(rows: Seq<WarningView>, k: (WarningCode, Seq<char>)) -> Option<int>
    decreases rows.len(),
{
    if rows.len() == 0 {
        None
    } else {
        match find_key(rows.drop_last(), k) {
            Some(i) => Some(i),
            None => if warning_key(rows.last()) == k {
                Some(rows.len() - 1)
            } else {
                None
            },
        }
    }
}

/// Warning floods collapsed: each warning merges into the first earlier
/// row with its dedupe key, or starts a new row.
pub open spec fn aggregate(ws: Seq<WarningView>) -> Seq<WarningView>
    decreases ws.len(),
{
    if ws.len() == 0 {
        Seq::empty()
    } else {
        let prev = aggregate(ws.drop_last());
        let w = ws.last();
        match find_key(prev, warning_key(w)) {
            Some(i) => prev.update(i, absorb(prev[i], w)),
            None => prev.push(w),
        }
    }
}

/// Every row's count fits in a `u32`.
pub open spec fn counts_fit(rows: Seq<WarningView>) -> bool {
    forall|i: int| 0 <= i < rows.len() ==> weight(#[trigger] rows[i].count) <= u32::MAX
}

proof fn lemma_find_key(rows: Seq<WarningView>, k: (WarningCode, Seq<char>))
    ensures
        match find_key(rows, k) {
            Some(i) => 0 <= i < rows.len() && warning_key(rows[i]) == k && forall|j: int|
                0 <= j < i ==> warning_key(rows[j]) != k,
            None => forall|j: int| 0 <= j < rows.len() ==> warning_key(rows[j]) != k,
        },
    decreases rows.len(),
{
    if rows.len() > 0 {
        lemma_find_key(rows.drop_last(), k);
        assert forall|j: int| 0 <= j < rows.len() - 1 implies rows[j] == rows.drop_last()[j] by {}
    }
}

/// Rows only grow: aggregating a prefix gives no more rows, and no larger
/// counts, than aggregating the whole.
proof fn lemma_aggregate_grows(ws: Seq<WarningView>, k: int)
    requires
        0 <= k <= ws.len(),
    ensures
        aggregate(ws.take(k)).len() <= aggregate(ws).len(),
        forall|i: int|
            0 <= i < aggregate(ws.take(k)).len() ==> weight(#[trigger] aggregate(ws.take(k))[i].count)
                <= weight(aggregate(ws)[i].count),
    decreases ws.len(),
{
    if k == ws.len() {
        assert(ws.take(k) =~= ws);
    } else {
        let d = ws.drop_last();
        assert(d.take(k) =~= ws.take(k));
        lemma_aggregate_grows(d, k);
        let prev = aggregate(d);
        let w = ws.last();
        assert(ws.drop_last() == d);
        match find_key(prev, warning_key(w)) {
            Some(f) => {
                lemma_find_key(prev, warning_key(w));
                assert forall|i: int| 0 <= i < prev.len() implies weight(prev[i].count) <= weight(
                    aggregate(ws)[i].count,
                ) by {
                    if i == f {
                        assert(aggregate(ws)[i] == absorb(prev[f], w));
                    }
                }
            },
            None => {
                assert forall|i: int| 0 <= i < prev.len() implies weight(prev[i].count) <= weight(
                    aggregate(ws)[i].count,
                ) by {
                    assert(aggregate(ws)[i] == prev[i]);
                }
            },
        }
    }
}

fn is_digit_exec(c: char) -> (r: bool)
    ensures
        r == is_digit(c),
{
    '0' <= c && c <= '9'
}

fn normalize_exec(m: &str) -> (r: String)
    ensures
        r@ == normalize_digits(m@),
{
    let v = chars_of(m);
    let mut out = String::new();
    let mut in_digits = false;
    let mut i: usize = 0;
    while i < v.len()
        invariant
            i <= v@.len(),
            v@ == m@,
            out@ == normalize_digits(m@.take(i as int)),
            in_digits == (i > 0 && is_digit(m@[i - 1])),
        decreases v@.len() - i,
    {
        let c = v[i];
        assert(m@.take(i + 1).drop_last() =~= m@.take(i as int));
        assert(m@.take(i + 1).last() == c);
        if is_digit_exec(c) {
            if !in_digits {
                push_char(&mut out, '#');
                in_digits = true;
            }
        } else {
            in_digits = false;
            push_char(&mut out, c);
        }
        assert(i >= 1 ==> m@.take(i + 1)[i - 1] == m@[i - 1]);
        i = i + 1;
    }
    assert(m@.take(i as int) =~= m@);
    out
}

fn key_text(w: &Warning) -> (r: String)
    ensures
        r@ == warning_key(view_warning(*w)).1,
{
    let mut k = normalize_exec(w.message.as_str());
    let ic = w.code == WarningCode::UnknownObjectType || w.code == WarningCode::UndecodableObject
        || w.code == WarningCode::MediaMissing;
    if ic {
        match &w.detail {
            Some(d) => {
                push_char(&mut k, '\u{1f}');
                push_str(&mut k, d.as_str());
                assert(k@ =~= warning_key(view_warning(*w)).1);
            },
            None => {
                assert(k@ =~= warning_key(view_warning(*w)).1);
            },
        }
    } else {
        assert(k@ =~= warning_key(view_warning(*w)).1);
    }
    k
}

fn copy_opt(o: &Option<String>) -> (r: Option<String>)
    ensures
        opt_str(r) == opt_str(*o),
{
    match o {
        Some(s) => Some(owned(s.as_str())),
        None => None,
    }
}

fn copy_strings(v: &Vec<String>) -> (r: Vec<String>)
    ensures
        strs(r@) == strs(v@),
{
    let mut out: Vec<String> = Vec::new();
    let mut i: usize = 0;
    while i < v.len()
        invariant
            i <= v@.len(),
            strs(out@) == strs(v@.take(i as int)),
        decreases v@.len() - i,
    {
        out.push(owned(v[i].as_str()));
        assert(strs(v@.take(i + 1)) =~= strs(v@.take(i as int)).push(v@[i as int]@));
        assert(strs(out@) =~= strs(v@.take(i as int)).push(v@[i as int]@));
        i = i + 1;
    }
    assert(v@.take(i as int) =~= v@);
    out
}

fn contains_str(v: &Vec<String>, p: &str) -> (r: bool)
    ensures
        r == strs(v@).contains(p@),
{
    let mut i: usize = 0;
    while i < v.len()
        invariant
            i <= v@.len(),
            forall|j: int| 0 <= j < i ==> v@[j]@ != p@,
        decreases v@.len() - i,
    {
        if str_eq(v[i].as_str(), p) {
            assert(strs(v@)[i as int] == p@);
            return true;
        }
        i = i + 1;
    }
    assert forall|j: int| 0 <= j < strs(v@).len() implies strs(v@)[j] != p@ by {
        assert(strs(v@)[j] == v@[j]@);
    }
    false
}

/// The row `first` after absorbing `w`.
fn absorb_exec(first: &Warning, w: &Warning) -> (r: Warning)
    requires
        weight(view_warning(*first).count) < u32::MAX,
    ensures
        view_warning(r) == absorb(view_warning(*first), view_warning(*w)),
{
    let count = match first.count {
        Some(c) => c + 1,
        None => 2,
    };
    let paths = match &w.path {
        Some(p) => {
            let mut base: Vec<String> = match &first.paths {
                Some(ps) => copy_strings(ps),
                None => match &first.path {
                    Some(q) => {
                        let mut b: Vec<String> = Vec::new();
                        b.push(owned(q.as_str()));
                        assert(strs(b@) =~= seq![q@]);
                        b
                    },
                    None => {
                        let b: Vec<String> = Vec::new();
                        assert(strs(b@) =~= Seq::<Seq<char>>::empty());
                        b
                    },
                },
            };
            let ghost b0 = strs(base@);
            if base.len() < 5 && !contains_str(&base, p.as_str()) {
                base.push(owned(p.as_str()));
                assert(strs(base@) =~= b0.push(p@));
            }
            Some(base)
        },
        None => match &first.paths {
            Some(ps) => Some(copy_strings(ps)),
            None => None,
        },
    };
    let r = Warning {
        code: first.code,
        message: owned(first.message.as_str()),
        path: copy_opt(&first.path),
        detail: copy_opt(&first.detail),
        count: Some(count),
        paths,
    };
    assert(view_warning(r) =~= absorb(view_warning(*first), view_warning(*w)));
    r
}

/// The largest weight among `ws` (0 for none).
pub open spec fn max_weight(ws: Seq<WarningView>) -> int
    decreases ws.len(),
{
    if ws.len() == 0 {
        0
    } else if weight(ws.last().count) > max_weight(ws.drop_last()) {
        weight(ws.last().count)
    } else {
        max_weight(ws.drop_last())
    }
}

/// Collapsing `ws` cannot push a count past `u32::MAX`: no row can count
/// more than the largest weight plus one per warning.
pub open spec fn aggregation_fits(ws: Seq<WarningView>) -> bool {
    max_weight(ws) + ws.len() <= u32::MAX
}

proof fn lemma_max_weight(ws: Seq<WarningView>)
    ensures
        forall|i: int| 0 <= i < ws.len() ==> weight(#[trigger] ws[i].count) <= max_weight(ws),
        max_weight(ws) >= 0 || ws.len() == 0,
    decreases ws.len(),
{
    if ws.len() > 0 {
        lemma_max_weight(ws.drop_last());
        assert forall|i: int| 0 <= i < ws.len() implies weight(#[trigger] ws[i].count) <= max_weight(ws) by {
            if i < ws.len() - 1 {
                assert(ws[i] == ws.drop_last()[i]);
            }
        }
    }
}

proof fn lemma_aggregate_bound(ws: Seq<WarningView>, c: int)
    requires
        forall|i: int| 0 <= i < ws.len() ==> weight(#[trigger] ws[i].count) <= c,
    ensures
        forall|j: int| 0 <= j < aggregate(ws).len() ==> weight(#[trigger] aggregate(ws)[j].count) <= c + ws.len(),
    decreases ws.len(),
{
    if ws.len() > 0 {
        let prev = aggregate(ws.drop_last());
        assert forall|i: int| 0 <= i < ws.drop_last().len() implies weight(#[trigger] ws.drop_last()[i].count) <= c by {
            assert(ws.drop_last()[i] == ws[i]);
        }
        lemma_aggregate_bound(ws.drop_last(), c);
        let w = ws.last();
        assert(weight(ws[ws.len() - 1].count) <= c);
        lemma_find_key(prev, warning_key(w));
        match find_key(prev, warning_key(w)) {
            Some(i) => {
                assert forall|j: int| 0 <= j < aggregate(ws).len() implies weight(#[trigger] aggregate(ws)[j].count) <= c + ws.len() by {
                    if j != i {
                        assert(aggregate(ws)[j] == prev[j]);
                    }
                }
            },
            None => {
                assert forall|j: int| 0 <= j < aggregate(ws).len() implies weight(#[trigger] aggregate(ws)[j].count) <= c + ws.len() by {
                    if j < prev.len() {
                        assert(aggregate(ws)[j] == prev[j]);
                    }
                }
            },
        }
    }
}

/// The warnings collapsed as `aggregate_warnings` collapses them when
/// `aggregation_fits`; otherwise (some row could count past `u32::MAX`)
/// as they are.
pub fn aggregate_if_fits(warnings: Vec<Warning>) -> (r: Vec<Warning>)
    ensures
        view_warnings(r@) == if aggregation_fits(view_warnings(warnings@)) {
            aggregate(view_warnings(warnings@))
        } else {
            view_warnings(warnings@)
        },
{
    let ghost ws = view_warnings(warnings@);
    let mut most: u64 = 0;
    let mut i: usize = 0;
    while i < warnings.len()
        invariant
            i <= warnings@.len(),
            ws == view_warnings(warnings@),
            most == max_weight(ws.take(i as int)),
            most <= 4294967295,
        decreases warnings@.len() - i,
    {
        assert(ws.take(i + 1).drop_last() =~= ws.take(i as int));
        assert(ws.take(i + 1).last() == ws[i as int]);
        let w: u64 = match warnings[i].count {
            Some(c) => c as u64,
            None => 1,
        };
        assert(w == weight(ws[i as int].count));
        if w > most {
            most = w;
        }
        i = i + 1;
    }
    assert(ws.take(i as int) =~= ws);
    if (warnings.len() as u64) <= 4294967295 - most {
        proof {
            lemma_max_weight(ws);
            lemma_aggregate_bound(ws, max_weight(ws));
        }
        aggregate_warnings(warnings)
    } else {
        warnings
    }
}

/// Collapse warning floods: rows sharing (code, message with digit runs
/// normalized) — plus the detail for codes whose detail is the identity —
/// merge into the first such row, with `count` = total and up to 5 distinct
/// example `paths`; the surviving row keeps its message verbatim.
pub fn aggregate_warnings(warnings: Vec<Warning>) -> (r: Vec<Warning>)
    requires
        counts_fit(aggregate(view_warnings(warnings@))),
    ensures
        view_warnings(r@) == aggregate(view_warnings(warnings@)),
{
    let ghost input = view_warnings(warnings@);
    let mut rev: Vec<Warning> = Vec::new();
    let mut src = warnings;
    let n = src.len();
    while src.len() > 0
        invariant
            src@.len() + rev@.len() == n,
            n == input.len(),
            forall|j: int| 0 <= j < src@.len() ==> view_warning(#[trigger] src@[j]) == input[j],
            forall|j: int| 0 <= j < rev@.len() ==> view_warning(#[trigger] rev@[j]) == input[n - 1 - j],
        decreases src@.len(),
    {
        let w = src.pop().unwrap();
        rev.push(w);
    }
    let mut order: Vec<Warning> = Vec::new();
    let mut keys: Vec<(WarningCode, String)> = Vec::new();
    let mut i: usize = 0;
    while rev.len() > 0
        invariant
            n == input.len(),
            i + rev@.len() == n,
            forall|j: int| 0 <= j < rev@.len() ==> view_warning(#[trigger] rev@[j]) == input[n - 1 - j],
            view_warnings(order@) == aggregate(input.take(i as int)),
            keys@.len() == order@.len(),
            forall|j: int| 0 <= j < keys@.len() ==> (#[trigger] keys@[j]).0 == warning_key(view_warning(order@[j])).0
                && keys@[j].1@ == warning_key(view_warning(order@[j])).1,
            counts_fit(aggregate(input)),
        decreases rev@.len(),
    {
        let w = rev.pop().unwrap();
        assert(view_warning(w) == input[i as int]);
        let ghost prev = aggregate(input.take(i as int));
        assert(input.take(i + 1).drop_last() =~= input.take(i as int));
        assert(input.take(i + 1).last() == input[i as int]);
        let kt = key_text(&w);
        let mut found: Option<usize> = None;
        let mut j: usize = 0;
        while j < keys.len()
            invariant_except_break
                found is None,
            invariant
                j <= keys@.len(),
                keys@.len() == order@.len(),
                forall|t: int| 0 <= t < keys@.len() ==> (#[trigger] keys@[t]).0 == warning_key(view_warning(order@[t])).0
                    && keys@[t].1@ == warning_key(view_warning(order@[t])).1,
                forall|t: int| 0 <= t < j ==> warning_key(view_warning(order@[t])) != warning_key(view_warning(w)),
                kt@ == warning_key(view_warning(w)).1,
            ensures
                j <= keys@.len(),
                forall|t: int| 0 <= t < j ==> warning_key(view_warning(order@[t])) != warning_key(view_warning(w)),
                found matches Some(f) ==> f == j && j < keys@.len() && warning_key(view_warning(order@[j as int])) == warning_key(view_warning(w)),
                found is None ==> j == keys@.len(),
            decreases keys@.len() - j,
        {
            if keys[j].0 == w.code && str_eq(keys[j].1.as_str(), kt.as_str()) {
                found = Some(j);
                break;
            }
            j = j + 1;
        }
        proof {
            lemma_find_key(prev, warning_key(view_warning(w)));
            assert forall|t: int| 0 <= t < order@.len() implies view_warning(order@[t]) == prev[t] by {
                assert(view_warnings(order@)[t] == view_warning(order@[t]));
            }
        }
        match found {
            Some(f) => {
                assert(find_key(prev, warning_key(view_warning(w))) == Some(f as int));
                let ghost next = prev.update(f as int, absorb(prev[f as int], view_warning(w)));
                assert(next == aggregate(input.take(i + 1)));
                proof {
                    lemma_aggregate_grows(input, i + 1);
                    assert(weight(aggregate(input)[f as int].count) <= u32::MAX);
                }
                assert(weight(next[f as int].count) <= u32::MAX);
                let merged = absorb_exec(&order[f], &w);
                order.set(f, merged);
                assert(view_warnings(order@) =~= next);
            },
            None => {
                assert(find_key(prev, warning_key(view_warning(w))) is None);
                let kc = w.code;
                order.push(w);
                keys.push((kc, kt));
                assert(view_warnings(order@) =~= aggregate(input.take(i + 1)));
            },
        }
        i = i + 1;
    }
    assert(input.take(n as int) =~= input);
    order
}

/// No two rows share a dedupe key.
pub open spec fn keys_distinct(rows: Seq<WarningView>) -> bool {
    forall|i: int, j: int|
        0 <= i < j < rows.len() ==> warning_key(#[trigger] rows[i]) != warning_key(#[trigger] rows[j])
}

/// After aggregation no two warning rows share a dedupe key.
pub proof fn lemma_aggregate_keys_distinct(ws: Seq<WarningView>)
    ensures
        keys_distinct(aggregate(ws)),
    decreases ws.len(),
{
    if ws.len() > 0 {
        let prev = aggregate(ws.drop_last());
        let w = ws.last();
        lemma_aggregate_keys_distinct(ws.drop_last());
        lemma_find_key(prev, warning_key(w));
        let r = aggregate(ws);
        match find_key(prev, warning_key(w)) {
            Some(f) => {
                assert(warning_key(absorb(prev[f], w)) == warning_key(prev[f]));
                assert forall|i: int, j: int| 0 <= i < j < r.len() implies warning_key(#[trigger] r[i])
                    != warning_key(#[trigger] r[j]) by {
                    assert(warning_key(r[i]) == warning_key(prev[i]));
                    assert(warning_key(r[j]) == warning_key(prev[j]));
                }
            },
            None => {
                assert forall|i: int, j: int| 0 <= i < j < r.len() implies warning_key(#[trigger] r[i])
                    != warning_key(#[trigger] r[j]) by {
                    assert(r[i] == prev[i]);
                    if j < prev.len() {
                        assert(r[j] == prev[j]);
                    }
                }
            },
        }
    }
}

/// The occurrences a list of rows stands for (a row without a count is one).
pub open spec fn total(rows: Seq<WarningView>) -> int
    decreases rows.len(),
{
    if rows.len() == 0 {
        0
    } else {
        total(rows.drop_last()) + weight(rows.last().count)
    }
}

proof fn lemma_total_update(rows: Seq<WarningView>, i: int, x: WarningView)
    requires
        0 <= i < rows.len(),
    ensures
        total(rows.update(i, x)) == total(rows) - weight(rows[i].count) + weight(x.count),
    decreases rows.len(),
{
    let t = rows.update(i, x);
    if i == rows.len() - 1 {
        assert(t.drop_last() =~= rows.drop_last());
    } else {
        assert(t.drop_last() =~= rows.drop_last().update(i, x));
        lemma_total_update(rows.drop_last(), i, x);
    }
}

/// Aggregating warnings that carry no counts loses none: the rows' counts
/// add up to the number of warnings.
pub proof fn lemma_aggregate_total(ws: Seq<WarningView>)
    requires
        forall|i: int| 0 <= i < ws.len() ==> (#[trigger] ws[i]).count is None,
    ensures
        total(aggregate(ws)) == ws.len(),
    decreases ws.len(),
{
    if ws.len() > 0 {
        let d = ws.drop_last();
        assert forall|i: int| 0 <= i < d.len() implies (#[trigger] d[i]).count is None by {
            assert(d[i] == ws[i]);
        }
        lemma_aggregate_total(d);
        let prev = aggregate(d);
        let w = ws.last();
        assert(w.count is None) by {
            assert(ws[ws.len() - 1] == w);
        }
        lemma_find_key(prev, warning_key(w));
        match find_key(prev, warning_key(w)) {
            Some(f) => {
                lemma_total_update(prev, f, absorb(prev[f], w));
            },
            None => {
                assert(prev.push(w).drop_last() =~= prev);
            },
        }
    }
}

/// Example paths: at most 5, none repeated.
pub open spec fn paths_ok(p: Option<Seq<Seq<char>>>) -> bool {
    match p {
        Some(ps) => ps.len() <= 5 && ps.no_duplicates(),
        None => true,
    }
}

/// Aggregating warnings that carry no example paths leaves every row with
/// at most 5 distinct example paths.
pub proof fn lemma_aggregate_paths_bounded(ws: Seq<WarningView>)
    requires
        forall|i: int| 0 <= i < ws.len() ==> (#[trigger] ws[i]).paths is None,
    ensures
        forall|i: int| 0 <= i < aggregate(ws).len() ==> paths_ok(#[trigger] aggregate(ws)[i].paths),
    decreases ws.len(),
{
    if ws.len() > 0 {
        let d = ws.drop_last();
        assert forall|i: int| 0 <= i < d.len() implies (#[trigger] d[i]).paths is None by {
            assert(d[i] == ws[i]);
        }
        lemma_aggregate_paths_bounded(d);
        let prev = aggregate(d);
        let w = ws.last();
        assert(w.paths is None) by {
            assert(ws[ws.len() - 1] == w);
        }
        let r = aggregate(ws);
        lemma_find_key(prev, warning_key(w));
        match find_key(prev, warning_key(w)) {
            Some(f) => {
                assert forall|i: int| 0 <= i < r.len() implies paths_ok(#[trigger] r[i].paths) by {
                    if i != f {
                        assert(r[i] == prev[i]);
                    } else {
                        assert(paths_ok(prev[f].paths));
                        let first = prev[f];
                        match w.path {
                            Some(p) => {
                                let base = match first.paths {
                                    Some(ps) => ps,
                                    None => match first.path {
                                        Some(q) => seq![q],
                                        None => Seq::<Seq<char>>::empty(),
                                    },
                                };
                                assert(base.len() <= 5 && base.no_duplicates());
                                if base.len() < 5 && !base.contains(p) {
                                    assert(base.push(p).no_duplicates()) by {
                                        assert forall|a: int, b: int|
                                            0 <= a < base.push(p).len() && 0 <= b < base.push(p).len()
                                                && a != b implies base.push(p)[a] != base.push(p)[b] by {
                                            if a == base.len() {
                                                assert(base.push(p)[b] == base[b]);
                                            } else if b == base.len() {
                                                assert(base.push(p)[a] == base[a]);
                                            }
                                        }
                                    }
                                }
                            },
                            None => {},
                        }
                    }
                }
            },
            None => {
                assert forall|i: int| 0 <= i < r.len() implies paths_ok(#[trigger] r[i].paths) by {
                    if i < prev.len() {
                        assert(r[i] == prev[i]);
                    }
                }
            },
        }
    }
}

proof fn lemma_hex_fixed_plain(u: nat, n: nat)
    ensures
        forall|i: int| 0 <= i < hex_fixed(u, n).len() ==> !needs_escape(#[trigger] hex_fixed(u, n)[i]),
        hex_fixed(u, n).len() == n,
    decreases n,
{
    if n > 0 {
        lemma_hex_fixed_plain(u / 16, (n - 1) as nat);
        let p = hex_fixed(u / 16, (n - 1) as nat);
        let d = (u % 16) as int;
        assert forall|i: int| 0 <= i < hex_fixed(u, n).len() implies !needs_escape(
            #[trigger] hex_fixed(u, n)[i],
        ) by {
            if i < p.len() {
                assert(hex_fixed(u, n)[i] == p[i]);
            } else {
                assert(hex_fixed(u, n)[i] == crate::formulas::hex_char(d));
            }
        }
    }
}

/// The escaped text holds no hazard: every such code point was
/// written as an escape.
pub proof fn lemma_escape_removes_hazards(s: Seq<char>)
    ensures
        forall|i: int| 0 <= i < escape_hazards(s).len() ==> !needs_escape(#[trigger] escape_hazards(s)[i]),
    decreases s.len(),
{
    if s.len() > 0 {
        lemma_escape_removes_hazards(s.drop_last());
        let p = escape_hazards(s.drop_last());
        let e = escaped(s.last());
        let c = s.last();
        if needs_escape(c) {
            lemma_hex_fixed_plain(c as u32 as nat, 4);
        }
        assert forall|i: int| 0 <= i < escape_hazards(s).len() implies !needs_escape(
            #[trigger] escape_hazards(s)[i],
        ) by {
            if i < p.len() {
                assert(escape_hazards(s)[i] == p[i]);
            } else {
                assert(escape_hazards(s)[i] == e[i - p.len()]);
                if needs_escape(c) {
                    let h = hex_fixed(c as u32 as nat, 4);
                    if i - p.len() >= 2 {
                        assert(e[i - p.len()] == h[i - p.len() - 2]);
                    }
                }
            }
        }
    }
}

/// Row `r` is, in its code, message, detail and path, the first warning
/// of `ws` with its dedupe key.
pub open spec fn keeps_first(ws: Seq<WarningView>, r: WarningView) -> bool {
    match find_key(ws, warning_key(r)) {
        Some(j) => r.code == ws[j].code && r.message == ws[j].message && r.detail == ws[j].detail
            && r.path == ws[j].path,
        None => false,
    }
}

/// Every aggregated row is, in its code, message, detail and path, the
/// first warning with its dedupe key: the surviving row keeps its message
/// verbatim.
pub proof fn lemma_aggregate_rows_are_first(ws: Seq<WarningView>)
    ensures
        forall|i: int| 0 <= i < aggregate(ws).len() ==> keeps_first(ws, #[trigger] aggregate(ws)[i]),
    decreases ws.len(),
{
    if ws.len() > 0 {
        let d = ws.drop_last();
        lemma_aggregate_rows_are_first(d);
        let prev = aggregate(d);
        let w = ws.last();
        lemma_find_key(prev, warning_key(w));
        assert forall|i: int| 0 <= i < aggregate(ws).len() implies keeps_first(
            ws,
            #[trigger] aggregate(ws)[i],
        ) by {
            let r = aggregate(ws)[i];
            if i < prev.len() {
                assert(keeps_first(d, prev[i]));
                assert(warning_key(r) == warning_key(prev[i]));
                let j = find_key(d, warning_key(prev[i]))->0;
                lemma_find_key(d, warning_key(prev[i]));
                assert(find_key(ws, warning_key(r)) == Some(j));
                assert(d[j] == ws[j]);
            } else {
                assert(find_key(prev, warning_key(w)) is None);
                assert(r == w);
                if find_key(d, warning_key(w)) is Some {
                    let k = find_key(d, warning_key(w))->0;
                    lemma_find_key(d, warning_key(w));
                    lemma_aggregate_covers(d, k);
                }
                assert(find_key(d, warning_key(w)) is None);
                assert(find_key(ws, warning_key(r)) == Some(ws.len() - 1));
            }
        }
    }
}

/// Every warning's key is the key of some aggregated row.
proof fn lemma_aggregate_covers(ws: Seq<WarningView>, k: int)
    requires
        0 <= k < ws.len(),
    ensures
        exists|i: int| 0 <= i < aggregate(ws).len() && warning_key(#[trigger] aggregate(ws)[i]) == warning_key(ws[k]),
    decreases ws.len(),
{
    let d = ws.drop_last();
    let prev = aggregate(d);
    let w = ws.last();
    let r = aggregate(ws);
    lemma_find_key(prev, warning_key(w));
    if k < ws.len() - 1 {
        lemma_aggregate_covers(d, k);
        assert(d[k] == ws[k]);
        let i = choose|i: int| 0 <= i < prev.len() && warning_key(#[trigger] prev[i]) == warning_key(d[k]);
        assert(warning_key(r[i]) == warning_key(prev[i]));
    } else {
        match find_key(prev, warning_key(w)) {
            Some(f) => {
                assert(warning_key(r[f]) == warning_key(prev[f]));
            },
            None => {
                assert(r[prev.len() as int] == w);
            },
        }
    }
}

} // verus!
