//! Text-storage helpers: language tags, UTF-16 offsets of the character
//! buffer, attribute-table lookups, paragraph list data and link targets.
use vstd::prelude::*;
use vstd::utf8::*;
use crate::text_util::{push_char, chars_of, owned};
use crate::pb::{Msg, vall, vget, vvarint, nested_all, deep_ref_spec, lemma_vall};
use crate::wire::{WireSpec, fields_view};
use crate::loader::{Loaded, loaded_view};
use crate::ctx::{vstring, loaded_msg};
use crate::model::{Warning, WarningCode};
use crate::{WarningView, view_warning, view_warnings};

verus! {

/// A character allowed in a language tag.
pub open spec fn tag_char(c: char) -> bool {
    ('a' <= c <= 'z') || ('A' <= c <= 'Z') || ('0' <= c <= '9') || c == '_' || c == '-'
}

/// A plausible language tag: Apple also stores the marker "__multilingual"
/// for mixed runs, which is not a language.
pub open spec fn is_language_tag_spec(t: Seq<char>) -> bool {
    t.len() > 0 && t[0] != '_' && forall|i: int| 0 <= i < t.len() ==> tag_char(#[trigger] t[i])
}

/// A plausible language tag: non-empty, not starting with `_`, and made of
/// ASCII letters, digits, `_` and `-`.
pub fn is_language_tag(tag: &str) -> (r: bool)
    ensures
        r == is_language_tag_spec(tag@),
{
    let v = chars_of(tag);
    if v.len() == 0 || v[0] == '_' {
        return false;
    }
    let mut i: usize = 0;
    while i < v.len()
        invariant
            i <= v@.len(),
            v@ == tag@,
            forall|j: int| 0 <= j < i ==> tag_char(#[trigger] v@[j]),
        decreases v@.len() - i,
    {
        let c = v[i];
        if !(('a' <= c && c <= 'z') || ('A' <= c && c <= 'Z') || ('0' <= c && c <= '9') || c == '_'
            || c == '-') {
            assert(!tag_char(v@[i as int]));
            return false;
        }
        i = i + 1;
    }
    true
}

/// ASCII upper-case letters made lower-case; everything else kept.
pub open spec fn ascii_lower(c: char) -> char {
    if 'A' <= c <= 'Z' {
        ((c as u32) + 32) as char
    } else {
        c
    }
}

/// `to_ascii_lowercase` of a string.
pub open spec fn lower(s: Seq<char>) -> Seq<char> {
    s.map_values(|c: char| ascii_lower(c))
}

pub fn ascii_lower_exec(c: char) -> (r: char)
    ensures
        r == ascii_lower(c),
{
    if 'A' <= c && c <= 'Z' {
        let u = (c as u32) + 32;
        assert(('a' as u32) <= u <= ('z' as u32));
        let b = u as u8;
        b as char
    } else {
        c
    }
}

/// The position of the first `_` or `-` in `t`.
pub open spec fn first_sep(t: Seq<char>) -> int
    decreases t.len(),
{
    if t.len() == 0 {
        0
    } else if t[0] == '_' || t[0] == '-' {
        0
    } else {
        1 + first_sep(t.drop_first())
    }
}

proof fn lemma_first_sep(t: Seq<char>)
    ensures
        0 <= first_sep(t) <= t.len(),
        forall|j: int| 0 <= j < first_sep(t) ==> t[j] != '_' && t[j] != '-',
        first_sep(t) < t.len() ==> t[first_sep(t)] == '_' || t[first_sep(t)] == '-',
    decreases t.len(),
{
    if t.len() > 0 && !(t[0] == '_' || t[0] == '-') {
        lemma_first_sep(t.drop_first());
        assert forall|j: int| 0 <= j < first_sep(t) implies t[j] != '_' && t[j] != '-' by {
            if j > 0 {
                assert(t[j] == t.drop_first()[j - 1]);
            }
        }
    }
}

/// Primary language subtag of a locale or language tag ("en_US" → "en"):
/// the part before the first `_` or `-`, in ASCII lower case.
pub fn primary_subtag(tag: &str) -> (r: String)
    ensures
        r@ == lower(tag@.take(first_sep(tag@))),
{
    let v = chars_of(tag);
    proof {
        lemma_first_sep(tag@);
    }
    let mut out = String::new();
    let mut i: usize = 0;
    while i < v.len() && v[i] != '_' && v[i] != '-'
        invariant
            i <= v@.len(),
            v@ == tag@,
            i <= first_sep(tag@),
            0 <= first_sep(tag@) <= tag@.len(),
            forall|j: int| 0 <= j < first_sep(tag@) ==> tag@[j] != '_' && tag@[j] != '-',
            first_sep(tag@) < tag@.len() ==> tag@[first_sep(tag@)] == '_' || tag@[first_sep(tag@)]
                == '-',
            out@ == lower(tag@.take(i as int)),
        decreases v@.len() - i,
    {
        push_char(&mut out, ascii_lower_exec(v[i]));
        assert(lower(tag@.take(i + 1)) =~= lower(tag@.take(i as int)).push(ascii_lower(v@[i as int])));
        i = i + 1;
    }
    assert(i == first_sep(tag@));
    out
}

/// UTF-16 code units of one character.
pub open spec fn utf16_len(c: char) -> nat {
    if c as u32 >= 0x10000 {
        2
    } else {
        1
    }
}

/// UTF-16 code units of a string.
pub open spec fn utf16_units(s: Seq<char>) -> nat
    decreases s.len(),
{
    if s.len() == 0 {
        0
    } else {
        utf16_len(s[0]) + utf16_units(s.drop_first())
    }
}

proof fn lemma_units_push(s: Seq<char>, c: char)
    ensures
        utf16_units(s.push(c)) == utf16_units(s) + utf16_len(c),
    decreases s.len(),
{
    if s.len() > 0 {
        assert(s.push(c).drop_first() =~= s.drop_first().push(c));
        lemma_units_push(s.drop_first(), c);
    } else {
        assert(s.push(c).drop_first() =~= Seq::<char>::empty());
        assert(utf16_units(Seq::<char>::empty()) == 0);
        assert(s.push(c)[0] == c);
    }
}

proof fn lemma_units_prefix(s: Seq<char>, i: int)
    requires
        0 <= i <= s.len(),
    ensures
        utf16_units(s.take(i)) <= utf16_units(s),
    decreases s.len(),
{
    if i < s.len() {
        let d = s.drop_last();
        assert(s =~= d.push(s.last()));
        assert(d.take(i) =~= s.take(i));
        lemma_units_prefix(d, i);
        lemma_units_push(d, s.last());
    } else {
        assert(s.take(i) =~= s);
    }
}

proof fn lemma_units_le_bytes(s: Seq<char>)
    ensures
        utf16_units(s) <= encode_utf8(s).len(),
    decreases s.len(),
{
    if s.len() > 0 {
        lemma_units_le_bytes(s.drop_first());
        char_is_scalar(s[0]);
    }
}

/// UTF-16 offset → char-index map of a text: entry `i` is the UTF-16
/// offset where char `i` begins; the last entry is the total length.
pub fn utf16_map(text: &str) -> (map: Vec<usize>)
    ensures
        map@.len() == text@.len() + 1,
        forall|i: int| 0 <= i <= text@.len() ==> #[trigger] map@[i] == utf16_units(text@.take(i)),
{
    let v = chars_of(text);
    let nbytes = text.as_bytes().len();
    proof {
        lemma_units_le_bytes(text@);
    }
    let mut map: Vec<usize> = Vec::new();
    let mut acc: usize = 0;
    let mut i: usize = 0;
    assert(text@.take(0) =~= Seq::<char>::empty());
    while i < v.len()
        invariant
            i <= v@.len(),
            v@ == text@,
            nbytes == encode_utf8(text@).len(),
            utf16_units(text@) <= nbytes,
            map@.len() == i,
            acc == utf16_units(text@.take(i as int)),
            forall|j: int| 0 <= j < i ==> #[trigger] map@[j] == utf16_units(text@.take(j)),
        decreases v@.len() - i,
    {
        map.push(acc);
        let c = v[i];
        proof {
            assert(text@.take(i + 1) =~= text@.take(i as int).push(c));
            lemma_units_push(text@.take(i as int), c);
            lemma_units_prefix(text@, i + 1);
        }
        let w: usize = if (c as u32) >= 0x10000 {
            2
        } else {
            1
        };
        acc = acc + w;
        i = i + 1;
    }
    assert(text@.take(i as int) =~= text@);
    map.push(acc);
    map
}

/// Strictly increasing entries.
pub open spec fn strictly_increasing(m: Seq<usize>) -> bool {
    forall|i: int, j: int| 0 <= i < j < m.len() ==> m[i] < m[j]
}

/// The last position of `m` whose entry is at most `off`.
pub open spec fn last_at_most(m: Seq<usize>, off: usize) -> Option<int>
    decreases m.len(),
{
    if m.len() == 0 {
        None
    } else if m.last() <= off {
        Some(m.len() - 1)
    } else {
        last_at_most(m.drop_last(), off)
    }
}

proof fn lemma_last_at_most(m: Seq<usize>, off: usize)
    ensures
        match last_at_most(m, off) {
            Some(i) => 0 <= i < m.len() && m[i] <= off && forall|j: int| i < j < m.len() ==> m[j] > off,
            None => forall|j: int| 0 <= j < m.len() ==> m[j] > off,
        },
    decreases m.len(),
{
    if m.len() > 0 && m.last() > off {
        lemma_last_at_most(m.drop_last(), off);
        assert forall|j: int| 0 <= j < m.len() - 1 implies m[j] == m.drop_last()[j] by {}
    }
}

/// Convert a UTF-16 offset to a char index with a map from `utf16_map`
/// (nearest lower bound): the last entry at or before `off`, or 0.
/// For a map that is not strictly increasing the result is unspecified.
pub fn u16_to_char_index(map: &[usize], off: usize) -> (r: usize)
    ensures
        strictly_increasing(map@) ==> r == match last_at_most(map@, off) {
            Some(i) => i,
            None => 0,
        },
{
    let mut lo: usize = 0;
    let mut hi: usize = map.len();
    while lo < hi
        invariant
            lo <= hi <= map@.len(),
            strictly_increasing(map@) ==> forall|j: int| 0 <= j < lo ==> map@[j] <= off,
            strictly_increasing(map@) ==> forall|j: int| hi <= j < map@.len() ==> map@[j] > off,
        decreases hi - lo,
    {
        let mid = lo + (hi - lo) / 2;
        if map[mid] <= off {
            lo = mid + 1;
        } else {
            hi = mid;
        }
    }
    proof {
        lemma_last_at_most(map@, off);
        if strictly_increasing(map@) {
            match last_at_most(map@, off) {
                Some(i) => {
                    assert(map@[i] <= off);
                    assert(i < lo);
                    if lo > 0 {
                        assert(map@[lo - 1] <= off);
                    }
                },
                None => {
                    if lo > 0 {
                        assert(map@[lo - 1] <= off);
                    }
                },
            }
        }
    }
    if lo == 0 {
        0
    } else {
        lo - 1
    }
}

/// One attribute-table entry keyed by a UTF-16 offset.
#[derive(Debug, Clone, Copy)]
pub struct Entry {
    pub utf16_off: usize,
    pub object_id: Option<u64>,
}

/// Entries in order of their offsets.
pub open spec fn entries_sorted(s: Seq<Entry>) -> bool {
    forall|i: int, j: int| 0 <= i < j < s.len() ==> s[i].utf16_off <= s[j].utf16_off
}

/// The last entry whose offset is at most `off`.
pub open spec fn last_entry_at(s: Seq<Entry>, off: usize) -> Option<int>
    decreases s.len(),
{
    if s.len() == 0 {
        None
    } else if s.last().utf16_off <= off {
        Some(s.len() - 1)
    } else {
        last_entry_at(s.drop_last(), off)
    }
}

proof fn lemma_last_entry_at(s: Seq<Entry>, off: usize)
    ensures
        match last_entry_at(s, off) {
            Some(i) => 0 <= i < s.len() && s[i].utf16_off <= off && forall|j: int|
                i < j < s.len() ==> s[j].utf16_off > off,
            None => forall|j: int| 0 <= j < s.len() ==> s[j].utf16_off > off,
        },
    decreases s.len(),
{
    if s.len() > 0 && s.last().utf16_off > off {
        lemma_last_entry_at(s.drop_last(), off);
        assert forall|j: int| 0 <= j < s.len() - 1 implies s[j] == s.drop_last()[j] by {}
    }
}

/// The entry with the largest offset at or before `off`, for entries
/// sorted by offset (for unsorted entries the result is unspecified).
pub fn entry_at(entries: &[Entry], off: usize) -> (r: Option<&Entry>)
    ensures
        entries_sorted(entries@) ==> match last_entry_at(entries@, off) {
            Some(i) => r == Some(&entries@[i]),
            None => r is None,
        },
{
    if entries.len() == 0 {
        return None;
    }
    let mut lo: usize = 0;
    let mut hi: usize = entries.len();
    while lo < hi
        invariant
            lo <= hi <= entries@.len(),
            entries_sorted(entries@) ==> forall|j: int| 0 <= j < lo ==> entries@[j].utf16_off <= off,
            entries_sorted(entries@) ==> forall|j: int|
                hi <= j < entries@.len() ==> entries@[j].utf16_off > off,
        decreases hi - lo,
    {
        let mid = lo + (hi - lo) / 2;
        if entries[mid].utf16_off <= off {
            lo = mid + 1;
        } else {
            hi = mid;
        }
    }
    proof {
        lemma_last_entry_at(entries@, off);
    }
    if lo == 0 {
        None
    } else {
        Some(&entries[lo - 1])
    }
}

/// The length of the leading run of entries at or before `off`.
pub open spec fn run_at_most(s: Seq<(usize, u64, u64)>, off: usize) -> int
    decreases s.len(),
{
    if s.len() == 0 || s[0].0 > off {
        0
    } else {
        1 + run_at_most(s.drop_first(), off)
    }
}

proof fn lemma_run_at_most(s: Seq<(usize, u64, u64)>, off: usize)
    ensures
        0 <= run_at_most(s, off) <= s.len(),
        forall|j: int| 0 <= j < run_at_most(s, off) ==> s[j].0 <= off,
        run_at_most(s, off) < s.len() ==> s[run_at_most(s, off)].0 > off,
    decreases s.len(),
{
    if s.len() > 0 && s[0].0 <= off {
        lemma_run_at_most(s.drop_first(), off);
        assert forall|j: int| 0 <= j < run_at_most(s, off) implies s[j].0 <= off by {
            if j > 0 {
                assert(s[j] == s.drop_first()[j - 1]);
            }
        }
    }
}

/// The `.first` value of the last entry of the leading run at or before
/// `off`, or 0.
pub open spec fn run_first(s: Seq<(usize, u64, u64)>, off: usize) -> u64 {
    let k = run_at_most(s, off);
    if k == 0 {
        0
    } else {
        s[k - 1].1
    }
}

fn run_first_exec(s: &[(usize, u64, u64)], off: usize) -> (r: u64)
    ensures
        r == run_first(s@, off),
{
    proof {
        lemma_run_at_most(s@, off);
    }
    let mut n: u64 = 0;
    let mut i: usize = 0;
    while i < s.len() && s[i].0 <= off
        invariant
            i <= s@.len(),
            i <= run_at_most(s@, off),
            0 <= run_at_most(s@, off) <= s@.len(),
            forall|j: int| 0 <= j < run_at_most(s@, off) ==> s@[j].0 <= off,
            run_at_most(s@, off) < s@.len() ==> s@[run_at_most(s@, off)].0 > off,
            n == (if i == 0 {
                0
            } else {
                s@[i - 1].1
            }),
        decreases s@.len() - i,
    {
        n = s[i].1;
        i = i + 1;
    }
    assert(i == run_at_most(s@, off));
    n
}

/// List level of the paragraph starting at `utf16_off`: the last
/// paragraph-data entry at or before it carries `.first` (0-based level),
/// capped at 8.
pub fn para_level(para_data: &[(usize, u64, u64)], utf16_off: usize) -> (r: u32)
    ensures
        r == (if (run_first(para_data@, utf16_off) as u32) < 8 {
            run_first(para_data@, utf16_off) as u32
        } else {
            8
        }),
{
    let level = run_first_exec(para_data, utf16_off) as u32;
    if level < 8 {
        level
    } else {
        8
    }
}

/// List item number of a paragraph: the last paragraph-starts entry at or
/// before the paragraph start carries `.first`, the number Apple prints;
/// 0 = no explicit number, so numbering continues.
pub fn para_list_number(para_starts: &[(usize, u64, u64)], utf16_off: usize) -> (r: u64)
    ensures
        r == run_first(para_starts@, utf16_off),
{
    run_first_exec(para_starts, utf16_off)
}

/// `lit` starts `lower(s)`.
pub open spec fn lower_starts_with(s: Seq<char>, lit: Seq<char>) -> bool {
    lit.len() <= s.len() && lower(s).take(lit.len() as int) == lit
}

/// A link target that may become clickable: not empty, no control
/// character or U+FFFD, and either a same-document fragment (`#…`) or an
/// `https://`, `http://` or `mailto:` URL (scheme in any case).
pub open spec fn valid_url_spec(u: Seq<char>) -> bool {
    &&& u.len() > 0
    &&& forall|i: int| 0 <= i < u.len() ==> !((#[trigger] u[i] as u32) < 0x20 || u[i] == '\u{FFFD}')
    &&& (u[0] == '#' || lower_starts_with(u, "https://"@) || lower_starts_with(u, "http://"@)
        || lower_starts_with(u, "mailto:"@))
}

fn lower_prefix_exec(v: &Vec<char>, lit: &str) -> (r: bool)
    ensures
        r == lower_starts_with(v@, lit@),
{
    let w = chars_of(lit);
    if w.len() > v.len() {
        return false;
    }
    let mut i: usize = 0;
    while i < w.len()
        invariant
            w@ == lit@,
            w@.len() <= v@.len(),
            i <= w@.len(),
            forall|j: int| 0 <= j < i ==> ascii_lower(v@[j]) == w@[j],
        decreases w@.len() - i,
    {
        if ascii_lower_exec(v[i]) != w[i] {
            assert(lower(v@).take(w@.len() as int)[i as int] != w@[i as int]);
            return false;
        }
        i = i + 1;
    }
    assert(lower(v@).take(w@.len() as int) =~= w@);
    true
}

/// Whether a link target may become clickable: a security boundary, not
/// just junk filtering — `javascript:`, `file:` and custom schemes from an
/// untrusted document never pass.
pub fn valid_url(u: &str) -> (r: bool)
    ensures
        r == valid_url_spec(u@),
{
    let v = chars_of(u);
    if v.len() == 0 {
        return false;
    }
    let mut i: usize = 0;
    while i < v.len()
        invariant
            v@ == u@,
            i <= v@.len(),
            forall|j: int| 0 <= j < i ==> !((#[trigger] v@[j] as u32) < 0x20 || v@[j] == '\u{FFFD}'),
        decreases v@.len() - i,
    {
        if (v[i] as u32) < 0x20 || v[i] == '\u{FFFD}' {
            return false;
        }
        i = i + 1;
    }
    if v[0] == '#' {
        return true;
    }
    lower_prefix_exec(&v, "https://") || lower_prefix_exec(&v, "http://") || lower_prefix_exec(
        &v,
        "mailto:",
    )
}

} // verus!

verus! {

/// `ord` lists the positions of `keys` ordered by key, equal keys keeping
/// their order (a stable sort).
pub open spec fn stable_order_of(ord: Seq<int>, keys: Seq<usize>) -> bool {
    &&& ord.len() == keys.len()
    &&& forall|t: int| 0 <= t < ord.len() ==> 0 <= #[trigger] ord[t] < keys.len()
    &&& forall|a: int, b: int|
        0 <= a < b < ord.len() ==> keys[#[trigger] ord[a]] < keys[#[trigger] ord[b]] || (keys[ord[a]]
            == keys[ord[b]] && ord[a] < ord[b])
}

/// The positions of `keys` in stable key order.
fn stable_order(keys: &Vec<usize>) -> (r: Vec<usize>)
    ensures
        stable_order_of(r@.map_values(|i: usize| i as int), keys@),
{
    let mut out: Vec<usize> = Vec::new();
    let mut i: usize = 0;
    while i < keys.len()
        invariant
            i <= keys@.len(),
            out@.len() == i,
            forall|t: int| 0 <= t < out@.len() ==> #[trigger] out@[t] < i,
            forall|a: int, b: int|
                0 <= a < b < out@.len() ==> keys@[#[trigger] out@[a] as int] < keys@[#[trigger] out@[b] as int]
                    || (keys@[out@[a] as int] == keys@[out@[b] as int] && out@[a] < out@[b]),
        decreases keys@.len() - i,
    {
        let k = keys[i];
        let mut p: usize = 0;
        while p < out.len() && keys[out[p]] <= k
            invariant
                p <= out@.len(),
                i < keys@.len(),
                k == keys@[i as int],
                forall|t: int| 0 <= t < out@.len() ==> #[trigger] out@[t] < i,
                forall|t: int| 0 <= t < p ==> keys@[#[trigger] out@[t] as int] <= k,
            decreases out@.len() - p,
        {
            p = p + 1;
        }
        let ghost before = out@;
        out.insert(p, i);
        assert forall|a: int, b: int| 0 <= a < b < out@.len() implies keys@[#[trigger] out@[a] as int]
            < keys@[#[trigger] out@[b] as int] || (keys@[out@[a] as int] == keys@[out@[b] as int]
            && out@[a] < out@[b]) by {
            if b == p {
                assert(out@[a] == before[a]);
            } else if a == p {
                assert(out@[b] == before[b - 1]);
                if b - 1 > p {
                    assert(keys@[before[p as int] as int] > k);
                    assert(keys@[before[p as int] as int] < keys@[before[b - 1] as int] || keys@[before[p as int] as int]
                        == keys@[before[b - 1] as int]);
                }
            } else {
                let a0 = if a < p { a } else { a - 1 };
                let b0 = if b < p { b } else { b - 1 };
                assert(out@[a] == before[a0]);
                assert(out@[b] == before[b0]);
            }
        }
        i = i + 1;
    }
    let ghost ord = out@.map_values(|i: usize| i as int);
    assert forall|a: int, b: int| 0 <= a < b < ord.len() implies keys@[#[trigger] ord[a]]
        < keys@[#[trigger] ord[b]] || (keys@[ord[a]] == keys@[ord[b]] && ord[a] < ord[b]) by {
        assert(ord[a] == out@[a] as int);
        assert(ord[b] == out@[b] as int);
    }
    out
}

/// An attribute-table entry as stored: its offset (field 1) and the object
/// its reference (field 2) names.
pub open spec fn entry_spec(e: Seq<(u32, WireSpec)>) -> Entry {
    Entry {
        utf16_off: (match vvarint(e, 1) {
            Some(x) => x,
            None => 0,
        }) as usize,
        object_id: match vget(e, 2) {
            Some(v) => deep_ref_spec(v),
            None => None,
        },
    }
}

/// The entries of an attribute table (field 1, one message each), in table
/// order.
pub open spec fn table_entries(table: Option<Seq<(u32, WireSpec)>>) -> Seq<Entry> {
    match table {
        Some(t) => nested_all(vall(t, 1)).map_values(|e: Seq<(u32, WireSpec)>| entry_spec(e)),
        None => Seq::empty(),
    }
}

/// The offsets of entries.
pub open spec fn entry_offsets(es: Seq<Entry>) -> Seq<usize> {
    es.map_values(|e: Entry| e.utf16_off)
}

pub open spec fn opt_fields(t: Option<Msg>) -> Option<Seq<(u32, WireSpec)>> {
    match t {
        Some(m) => Some(fields_view(m.fields@)),
        None => None,
    }
}

fn entry_of(e: &Msg) -> (r: Entry)
    ensures
        r == entry_spec(fields_view(e.fields@)),
{
    proof {
        lemma_vall(e.fields@, 1);
        lemma_vall(e.fields@, 2);
    }
    let off = match e.varint(1) {
        Some(x) => x,
        None => 0,
    };
    Entry { utf16_off: off as usize, object_id: e.reference(2) }
}

/// The (offset, object) entries of an attribute table, sorted by offset,
/// entries at one offset keeping their table order.
pub fn entries_of(table: Option<Msg>) -> (r: Vec<Entry>)
    ensures
        exists|ord: Seq<int>|
            #[trigger] stable_order_of(ord, entry_offsets(table_entries(opt_fields(table)))) && r@
                == ord.map_values(|i: int| table_entries(opt_fields(table))[i]),
        entries_sorted(r@),
{
    let ghost es = table_entries(opt_fields(table));
    let t = match table {
        Some(t) => t,
        None => {
            let r: Vec<Entry> = Vec::new();
            assert(stable_order_of(Seq::<int>::empty(), entry_offsets(es)));
            assert(r@ =~= Seq::<int>::empty().map_values(|i: int| es[i]));
            return r;
        },
    };
    let rows = t.msgs(1);
    let mut all: Vec<Entry> = Vec::new();
    let mut keys: Vec<usize> = Vec::new();
    let mut i: usize = 0;
    let ghost ns = nested_all(vall(fields_view(t.fields@), 1));
    while i < rows.len()
        invariant
            i <= rows@.len(),
            rows@.len() == ns.len(),
            es == ns.map_values(|e: Seq<(u32, WireSpec)>| entry_spec(e)),
            forall|j: int| 0 <= j < rows@.len() ==> fields_view(#[trigger] rows@[j].fields@) == ns[j],
            all@.len() == i,
            keys@.len() == i,
            forall|j: int| 0 <= j < i ==> #[trigger] all@[j] == es[j] && keys@[j] == es[j].utf16_off,
        decreases rows@.len() - i,
    {
        let e = entry_of(&rows[i]);
        all.push(e);
        keys.push(e.utf16_off);
        i = i + 1;
    }
    let ord = stable_order(&keys);
    let ghost ordv = ord@.map_values(|x: usize| x as int);
    assert(keys@ =~= entry_offsets(es)) by {
        assert forall|q: int| 0 <= q < keys@.len() implies keys@[q] == entry_offsets(es)[q] by {
            assert(all@[q] == es[q]);
        }
    }
    let mut out: Vec<Entry> = Vec::new();
    let mut j: usize = 0;
    while j < ord.len()
        invariant
            j <= ord@.len(),
            ordv == ord@.map_values(|x: usize| x as int),
            stable_order_of(ordv, keys@),
            all@.len() == keys@.len(),
            forall|q: int| 0 <= q < all@.len() ==> #[trigger] all@[q] == es[q],
            out@.len() == j,
            forall|q: int| 0 <= q < j ==> #[trigger] out@[q] == es[ordv[q]],
        decreases ord@.len() - j,
    {
        assert(0 <= ordv[j as int] < keys@.len());
        let x = all[ord[j]];
        out.push(x);
        j = j + 1;
    }
    assert(out@ =~= ordv.map_values(|q: int| es[q]));
    assert forall|a: int, b: int| 0 <= a < b < out@.len() implies out@[a].utf16_off <= out@[b].utf16_off by {
        assert(out@[a] == es[ordv[a]] && out@[b] == es[ordv[b]]);
        assert(keys@[ordv[a]] == es[ordv[a]].utf16_off);
        assert(keys@[ordv[b]] == es[ordv[b]].utf16_off);
    }
    out
}

/// A paragraph-data attribute table's entries (offset, first, second), in
/// table order.
pub open spec fn para_entry_spec(e: Seq<(u32, WireSpec)>) -> (usize, u64, u64) {
    (
        (match vvarint(e, 1) {
            Some(x) => x,
            None => 0,
        }) as usize,
        match vvarint(e, 2) {
            Some(x) => x,
            None => 0,
        },
        match vvarint(e, 3) {
            Some(x) => x,
            None => 0,
        },
    )
}

/// The entries of a paragraph-data attribute table (fields 6, 14 and 24 of
/// a storage): (offset, first, second), in table order.
pub fn para_table(table: Option<Msg>) -> (r: Vec<(usize, u64, u64)>)
    ensures
        r@ == match opt_fields(table) {
            Some(t) => nested_all(vall(t, 1)).map_values(|e: Seq<(u32, WireSpec)>| para_entry_spec(e)),
            None => Seq::empty(),
        },
{
    let t = match table {
        Some(t) => t,
        None => {
            let r: Vec<(usize, u64, u64)> = Vec::new();
            assert(r@ =~= Seq::<(usize, u64, u64)>::empty());
            return r;
        },
    };
    let rows = t.msgs(1);
    let ghost ns = nested_all(vall(fields_view(t.fields@), 1));
    let mut out: Vec<(usize, u64, u64)> = Vec::new();
    let mut i: usize = 0;
    while i < rows.len()
        invariant
            i <= rows@.len(),
            rows@.len() == ns.len(),
            forall|j: int| 0 <= j < rows@.len() ==> fields_view(#[trigger] rows@[j].fields@) == ns[j],
            out@.len() == i,
            forall|j: int| 0 <= j < i ==> #[trigger] out@[j] == para_entry_spec(ns[j]),
        decreases rows@.len() - i,
    {
        let e = &rows[i];
        proof {
            lemma_vall(e.fields@, 1);
            lemma_vall(e.fields@, 2);
            lemma_vall(e.fields@, 3);
        }
        let a = match e.varint(1) {
            Some(x) => x,
            None => 0,
        };
        let b = match e.varint(2) {
            Some(x) => x,
            None => 0,
        };
        let c = match e.varint(3) {
            Some(x) => x,
            None => 0,
        };
        out.push((a as usize, b, c));
        i = i + 1;
    }
    assert(out@ =~= ns.map_values(|e: Seq<(u32, WireSpec)>| para_entry_spec(e)));
    out
}

} // verus!

verus! {

/// A language-table entry as stored: its offset (field 1) and its tag
/// (field 2), kept only when it reads as a language tag.
pub open spec fn lang_entry_spec(e: Seq<(u32, WireSpec)>) -> (usize, Option<Seq<char>>) {
    (
        (match vvarint(e, 1) {
            Some(x) => x,
            None => 0,
        }) as usize,
        match vstring(e, 2) {
            Some(l) => if is_language_tag_spec(l) {
                Some(l)
            } else {
                None
            },
            None => None,
        },
    )
}

pub open spec fn lang_entries(table: Option<Seq<(u32, WireSpec)>>) -> Seq<(usize, Option<Seq<char>>)> {
    match table {
        Some(t) => nested_all(vall(t, 1)).map_values(|e: Seq<(u32, WireSpec)>| lang_entry_spec(e)),
        None => Seq::empty(),
    }
}

pub open spec fn lang_offsets(es: Seq<(usize, Option<Seq<char>>)>) -> Seq<usize> {
    es.map_values(|e: (usize, Option<Seq<char>>)| e.0)
}

pub open spec fn lang_view(e: (usize, Option<String>)) -> (usize, Option<Seq<char>>) {
    (
        e.0,
        match e.1 {
            Some(s) => Some(s@),
            None => None,
        },
    )
}

fn lang_entry_of(e: &Msg) -> (r: (usize, Option<String>))
    ensures
        lang_view(r) == lang_entry_spec(fields_view(e.fields@)),
{
    proof {
        lemma_vall(e.fields@, 1);
        lemma_vall(e.fields@, 2);
    }
    let off = match e.varint(1) {
        Some(x) => x,
        None => 0,
    };
    let tag = match e.string(2) {
        Some(l) => {
            if is_language_tag(l.as_str()) {
                Some(l)
            } else {
                None
            }
        },
        None => None,
    };
    (off as usize, tag)
}

fn copy_lang(e: &(usize, Option<String>)) -> (r: (usize, Option<String>))
    ensures
        lang_view(r) == lang_view(*e),
{
    match &e.1 {
        Some(s) => (e.0, Some(owned(s.as_str()))),
        None => (e.0, None),
    }
}

/// The language table's (offset, tag) entries, sorted by offset, entries
/// at one offset keeping their table order; a stored string that is no
/// language tag reads as none (it ends the span).
pub fn language_entries_of(table: Option<Msg>) -> (r: Vec<(usize, Option<String>)>)
    ensures
        exists|ord: Seq<int>|
            #[trigger] stable_order_of(ord, lang_offsets(lang_entries(opt_fields(table)))) && r@.map_values(
                |e: (usize, Option<String>)| lang_view(e),
            ) == ord.map_values(|i: int| lang_entries(opt_fields(table))[i]),
{
    let ghost es = lang_entries(opt_fields(table));
    let t = match table {
        Some(t) => t,
        None => {
            let r: Vec<(usize, Option<String>)> = Vec::new();
            assert(stable_order_of(Seq::<int>::empty(), lang_offsets(es)));
            assert(r@.map_values(|e: (usize, Option<String>)| lang_view(e)) =~= Seq::<int>::empty().map_values(
                |i: int| es[i],
            ));
            return r;
        },
    };
    let rows = t.msgs(1);
    let mut all: Vec<(usize, Option<String>)> = Vec::new();
    let mut keys: Vec<usize> = Vec::new();
    let mut i: usize = 0;
    let ghost ns = nested_all(vall(fields_view(t.fields@), 1));
    while i < rows.len()
        invariant
            i <= rows@.len(),
            rows@.len() == ns.len(),
            es == ns.map_values(|e: Seq<(u32, WireSpec)>| lang_entry_spec(e)),
            forall|j: int| 0 <= j < rows@.len() ==> fields_view(#[trigger] rows@[j].fields@) == ns[j],
            all@.len() == i,
            keys@.len() == i,
            forall|j: int| 0 <= j < i ==> lang_view(#[trigger] all@[j]) == es[j] && keys@[j] == es[j].0,
        decreases rows@.len() - i,
    {
        let e = lang_entry_of(&rows[i]);
        keys.push(e.0);
        all.push(e);
        i = i + 1;
    }
    let ord = stable_order(&keys);
    let ghost ordv = ord@.map_values(|x: usize| x as int);
    assert(keys@ =~= lang_offsets(es)) by {
        assert forall|q: int| 0 <= q < keys@.len() implies keys@[q] == lang_offsets(es)[q] by {
            assert(lang_view(all@[q]) == es[q]);
        }
    }
    let mut out: Vec<(usize, Option<String>)> = Vec::new();
    let mut j: usize = 0;
    while j < ord.len()
        invariant
            j <= ord@.len(),
            ordv == ord@.map_values(|x: usize| x as int),
            stable_order_of(ordv, keys@),
            all@.len() == keys@.len(),
            forall|q: int| 0 <= q < all@.len() ==> lang_view(#[trigger] all@[q]) == es[q],
            out@.len() == j,
            forall|q: int| 0 <= q < j ==> lang_view(#[trigger] out@[q]) == es[ordv[q]],
        decreases ord@.len() - j,
    {
        assert(0 <= ordv[j as int] < keys@.len());
        let x = copy_lang(&all[ord[j]]);
        out.push(x);
        j = j + 1;
    }
    assert(out@.map_values(|e: (usize, Option<String>)| lang_view(e)) =~= ordv.map_values(
        |q: int| es[q],
    ));
    out
}

/// The kind (field 1) of a loaded change object, 0 when there is none.
pub open spec fn change_kind(records: Map<u64, crate::loader::RecordView>, oid: u64) -> u64 {
    match loaded_msg(records, oid) {
        Some(m) => match vvarint(m, 1) {
            Some(k) => k,
            None => 0,
        },
        None => 0,
    }
}

/// The ranges the first `k` entries open for changes of kind `want`: an
/// entry whose object is such a change opens a range the next entry closes
/// (the last one runs to the end), empty ranges left out.
pub open spec fn change_ranges_spec(
    records: Map<u64, crate::loader::RecordView>,
    es: Seq<Entry>,
    want: u64,
    k: int,
) -> Seq<(usize, usize)>
    decreases k,
{
    if k <= 0 {
        Seq::empty()
    } else {
        let h = change_ranges_spec(records, es, want, k - 1);
        let e = es[k - 1];
        match e.object_id {
            Some(oid) => {
                let end: usize = if k < es.len() {
                    es[k].utf16_off
                } else {
                    usize::MAX
                };
                if change_kind(records, oid) == want && end > e.utf16_off {
                    h.push((e.utf16_off, end))
                } else {
                    h
                }
            },
            None => h,
        }
    }
}

/// Tracked-change ranges (UTF-16) of kind `want_kind` (1 insertion, 2
/// deletion) from an insertion or deletion table's sorted entries.
pub fn change_ranges(loaded: &Loaded, entries: &[Entry], want_kind: u64) -> (r: Vec<(usize, usize)>)
    ensures
        r@ == change_ranges_spec(loaded_view(*loaded).records, entries@, want_kind, entries@.len() as int),
{
    let ghost records = loaded_view(*loaded).records;
    let mut out: Vec<(usize, usize)> = Vec::new();
    let mut i: usize = 0;
    while i < entries.len()
        invariant
            i <= entries@.len(),
            records == loaded_view(*loaded).records,
            out@ == change_ranges_spec(records, entries@, want_kind, i as int),
        decreases entries@.len() - i,
    {
        let e = entries[i];
        match e.object_id {
            Some(oid) => {
                let kind = match loaded.msg(oid) {
                    Some(m) => {
                        proof {
                            lemma_vall(m.fields@, 1);
                        }
                        match m.varint(1) {
                            Some(k) => k,
                            None => 0,
                        }
                    },
                    None => 0,
                };
                assert(kind == change_kind(records, oid));
                if kind == want_kind {
                    let end = if i + 1 < entries.len() {
                        entries[i + 1].utf16_off
                    } else {
                        usize::MAX
                    };
                    if end > e.utf16_off {
                        out.push((e.utf16_off, end));
                    }
                }
            },
            None => {},
        }
        i = i + 1;
    }
    out
}

} // verus!

verus! {

/// The entries `entries_of` reads come out in offset order: they are the
/// sorted input the offset lookup (`entry_at`) expects.
pub proof fn lemma_entries_of_sorted(es: Seq<Entry>, ord: Seq<int>)
    requires
        stable_order_of(ord, entry_offsets(es)),
    ensures
        entries_sorted(ord.map_values(|i: int| es[i])),
{
    let r = ord.map_values(|i: int| es[i]);
    assert forall|i: int, j: int| 0 <= i < j < r.len() implies r[i].utf16_off <= r[j].utf16_off by {
        assert(entry_offsets(es)[ord[i]] == es[ord[i]].utf16_off);
        assert(entry_offsets(es)[ord[j]] == es[ord[j]].utf16_off);
    }
}

} // verus!

verus! {

/// A character that ends a paragraph: a newline, the section-break marker
/// U+0004 or the page-break marker U+0005.
pub open spec fn is_para_break(c: char) -> bool {
    c == '\n' || c == '\u{4}' || c == '\u{5}'
}

/// The positions of the paragraph-ending characters of a text, in order.
pub open spec fn break_positions(t: Seq<char>) -> Seq<int>
    decreases t.len(),
{
    if t.len() == 0 {
        Seq::empty()
    } else if is_para_break(t.last()) {
        break_positions(t.drop_last()).push(t.len() - 1)
    } else {
        break_positions(t.drop_last())
    }
}

/// Paragraph `k` of a text with break positions `bp`: from just after
/// break `k - 1` (or the start) up to break `k` (or the end), the break
/// itself left out.
pub open spec fn para_range(t: Seq<char>, bp: Seq<int>, k: int) -> (int, int) {
    (if k == 0 { 0 } else { bp[k - 1] + 1 }, if k < bp.len() { bp[k] } else { t.len() as int })
}

pub proof fn lemma_break_positions(t: Seq<char>)
    ensures
        forall|k: int| 0 <= k < break_positions(t).len() ==> 0 <= #[trigger] break_positions(t)[k] < t.len()
            && is_para_break(t[break_positions(t)[k]]),
        forall|a: int, b: int|
            0 <= a < b < break_positions(t).len() ==> #[trigger] break_positions(t)[a]
                < #[trigger] break_positions(t)[b],
        forall|i: int| 0 <= i < t.len() && is_para_break(#[trigger] t[i]) ==> break_positions(t).contains(i),
    decreases t.len(),
{
    if t.len() > 0 {
        let d = t.drop_last();
        lemma_break_positions(d);
        assert forall|i: int| 0 <= i < d.len() implies #[trigger] t[i] == d[i] by {}
        let bd = break_positions(d);
        if is_para_break(t.last()) {
            assert forall|i: int| 0 <= i < t.len() && is_para_break(#[trigger] t[i]) implies break_positions(
                t,
            ).contains(i) by {
                if i < d.len() {
                    assert(t[i] == d[i]);
                    let j = choose|j: int| 0 <= j < bd.len() && bd[j] == i;
                    assert(break_positions(t)[j] == i);
                } else {
                    assert(break_positions(t)[bd.len() as int] == i);
                }
            }
        } else {
            assert forall|i: int| 0 <= i < t.len() && is_para_break(#[trigger] t[i]) implies break_positions(
                t,
            ).contains(i) by {
                assert(i < d.len());
                assert(t[i] == d[i]);
            }
        }
    }
}

/// The break positions are those of the paragraph-ending characters: as
/// many as the text has.
pub proof fn lemma_break_count(t: Seq<char>)
    ensures
        break_positions(t).len() == t.filter(|c: char| is_para_break(c)).len(),
    decreases t.len(),
{
    reveal(Seq::filter);
    if t.len() > 0 {
        lemma_break_count(t.drop_last());
    }
}

/// The paragraphs of a text, as char-index ranges, and for each whether a
/// page break (U+0005) ends the one before it: one paragraph more than
/// the text has breaks.
pub fn paragraph_ranges(text: &str) -> (r: (Vec<(usize, usize)>, Vec<bool>))
    ensures
        r.0@.len() == break_positions(text@).len() + 1,
        r.0@.len() == text@.filter(|c: char| is_para_break(c)).len() + 1,
        r.1@.len() == r.0@.len(),
        forall|k: int|
            0 <= k < r.0@.len() ==> (#[trigger] r.0@[k]).0 == para_range(text@, break_positions(text@), k).0
                && r.0@[k].1 == para_range(text@, break_positions(text@), k).1,
        forall|k: int|
            0 <= k < r.1@.len() ==> #[trigger] r.1@[k] == (k > 0 && text@[break_positions(text@)[k - 1]]
                == '\u{5}'),
{
    let v = chars_of(text);
    let mut ranges: Vec<(usize, usize)> = Vec::new();
    let mut page_break_before: Vec<bool> = Vec::new();
    page_break_before.push(false);
    let mut start: usize = 0;
    let mut i: usize = 0;
    while i < v.len()
        invariant
            i <= v@.len(),
            v@ == text@,
            start <= i,
            ranges@.len() == break_positions(text@.take(i as int)).len(),
            page_break_before@.len() == ranges@.len() + 1,
            start == if ranges@.len() == 0 {
                0
            } else {
                break_positions(text@.take(i as int)).last() + 1
            },
            forall|k: int|
                0 <= k < ranges@.len() ==> (#[trigger] ranges@[k]).0 == para_range(
                    text@,
                    break_positions(text@.take(i as int)),
                    k,
                ).0 && ranges@[k].1 == break_positions(text@.take(i as int))[k],
            forall|k: int|
                0 <= k < page_break_before@.len() ==> #[trigger] page_break_before@[k] == (k > 0
                    && text@[break_positions(text@.take(i as int))[k - 1]] == '\u{5}'),
            forall|k: int|
                0 <= k < break_positions(text@.take(i as int)).len() ==> #[trigger] break_positions(
                    text@.take(i as int),
                )[k] < i,
        decreases v@.len() - i,
    {
        let ghost t0 = text@.take(i as int);
        let ghost t1 = text@.take(i + 1);
        proof {
            assert(t1.drop_last() =~= t0);
            assert(t1.last() == text@[i as int]);
            lemma_break_positions(t0);
        }
        let c = v[i];
        if c == '\n' || c == '\u{4}' || c == '\u{5}' {
            assert(break_positions(t1) == break_positions(t0).push(i as int));
            ranges.push((start, i));
            page_break_before.push(c == '\u{5}');
            start = i + 1;
        } else {
            assert(break_positions(t1) == break_positions(t0));
        }
        i = i + 1;
    }
    assert(text@.take(i as int) =~= text@);
    ranges.push((start, i));
    proof {
        lemma_break_count(text@);
    }
    (ranges, page_break_before)
}

/// The first paragraph, from `k` on, whose range ends at or after char
/// index `ci`.
pub open spec fn first_ending_from(rs: Seq<(usize, usize)>, ci: usize, k: int) -> Option<int>
    decreases rs.len() - k,
{
    if k < 0 || k >= rs.len() {
        None
    } else if ci <= rs[k].1 {
        Some(k)
    } else {
        first_ending_from(rs, ci, k + 1)
    }
}

/// The paragraph holding char index `ci`: the first whose range ends at or
/// after it, else the last (0 when there is none), cut to 32 bits.
pub open spec fn paragraph_index(rs: Seq<(usize, usize)>, ci: usize) -> u32 {
    match first_ending_from(rs, ci, 0) {
        Some(k) => k as u32,
        None => if rs.len() == 0 {
            0
        } else {
            (rs.len() - 1) as u32
        },
    }
}

/// The paragraph of `ranges` (from `paragraph_ranges`) that holds char
/// index `ci` (see `paragraph_index`).
pub fn paragraph_at(ranges: &Vec<(usize, usize)>, ci: usize) -> (r: u32)
    ensures
        r == paragraph_index(ranges@, ci),
{
    let mut k: usize = 0;
    while k < ranges.len()
        invariant
            k <= ranges@.len(),
            first_ending_from(ranges@, ci, 0) == first_ending_from(ranges@, ci, k as int),
        decreases ranges@.len() - k,
    {
        if ci <= ranges[k].1 {
            return k as u32;
        }
        k = k + 1;
    }
    if ranges.len() == 0 {
        0
    } else {
        (ranges.len() - 1) as u32
    }
}

/// How deep text storages may nest (a footnote body is one level).
pub const MAX_TEXT_NEST: u32 = 8;

/// The warning for text storages nested past `MAX_TEXT_NEST`.
pub open spec fn nest_warning() -> WarningView {
    WarningView {
        code: WarningCode::UnsupportedFeature,
        message: "text storages nest deeper than 8 levels; inner content dropped"@,
        path: None,
        detail: None,
        count: None,
        paths: None,
    }
}

/// Whether a text storage at nesting `depth` may be read: below
/// `MAX_TEXT_NEST` it may; at or past it, it is not, and the warning of
/// `nest_warning` is pushed.
pub fn enter_text_storage(depth: u32, warnings: &mut Vec<Warning>) -> (r: bool)
    ensures
        r == (depth < MAX_TEXT_NEST),
        r ==> final(warnings)@ == old(warnings)@,
        !r ==> view_warnings(final(warnings)@) == view_warnings(old(warnings)@).push(nest_warning()),
{
    if depth < MAX_TEXT_NEST {
        return true;
    }
    let w = Warning {
        code: WarningCode::UnsupportedFeature,
        message: owned("text storages nest deeper than 8 levels; inner content dropped"),
        path: None,
        detail: None,
        count: None,
        paths: None,
    };
    warnings.push(w);
    assert(view_warnings(final(warnings)@) =~= view_warnings(old(warnings)@).push(nest_warning()));
    false
}

/// The run boundaries of a paragraph spanning UTF-16 offsets `start` to
/// `end`: its two ends and every cut strictly inside, ascending, each once.
pub open spec fn boundary_set(start: usize, end: usize, cuts: Seq<usize>) -> Set<usize> {
    set![start, end].union(cuts.to_set().filter(|o: usize| start < o && o < end))
}

fn insert_sorted(v: &mut Vec<usize>, x: usize)
    requires
        strictly_increasing(old(v)@),
    ensures
        strictly_increasing(final(v)@),
        final(v)@.to_set() == old(v)@.to_set().insert(x),
{
    let mut p: usize = 0;
    while p < v.len() && v[p] < x
        invariant
            p <= v@.len(),
            strictly_increasing(v@),
            v@ == old(v)@,
            forall|j: int| 0 <= j < p ==> v@[j] < x,
        decreases v@.len() - p,
    {
        p = p + 1;
    }
    if p < v.len() && v[p] == x {
        assert(old(v)@.to_set().insert(x) =~= old(v)@.to_set()) by {
            assert(old(v)@.to_set().contains(old(v)@[p as int]));
        }
        return;
    }
    let ghost before = v@;
    v.insert(p, x);
    assert forall|i: int, j: int| 0 <= i < j < v@.len() implies v@[i] < v@[j] by {
        if j < p {
            assert(v@[i] == before[i] && v@[j] == before[j]);
        } else if j == p {
            assert(v@[i] == before[i]);
        } else if i == p {
            assert(v@[j] == before[j - 1]);
            assert(before[p as int] > x) by {
                assert(before[p as int] >= x);
            }
            if j - 1 > p {
                assert(before[p as int] < before[j - 1]);
            }
        } else if i < p {
            assert(v@[i] == before[i] && v@[j] == before[j - 1]);
            assert(before[i] < x);
        } else {
            assert(v@[i] == before[i - 1] && v@[j] == before[j - 1]);
        }
    }
    assert(v@.to_set() =~= before.to_set().insert(x)) by {
        assert forall|y: usize| v@.to_set().contains(y) implies before.to_set().insert(x).contains(y) by {
            let i = choose|i: int| 0 <= i < v@.len() && v@[i] == y;
            if i < p {
                assert(v@[i] == before[i]);
            } else if i > p {
                assert(v@[i] == before[i - 1]);
            }
        }
        assert forall|y: usize| before.to_set().insert(x).contains(y) implies v@.to_set().contains(y) by {
            if y == x {
                assert(v@[p as int] == x);
            } else {
                let i = choose|i: int| 0 <= i < before.len() && before[i] == y;
                if i < p {
                    assert(v@[i] == y);
                } else {
                    assert(v@[i + 1] == y);
                }
            }
        }
    }
}

/// The run boundaries of a paragraph spanning UTF-16 offsets `start` to
/// `end`, given the cuts its attribute tables and anchors make (see
/// `boundary_set`), ascending and each once.
pub fn run_boundaries(start: usize, end: usize, cuts: &Vec<usize>) -> (r: Vec<usize>)
    ensures
        strictly_increasing(r@),
        r@.to_set() == boundary_set(start, end, cuts@),
{
    let mut out: Vec<usize> = Vec::new();
    assert(out@.to_set() =~= Set::<usize>::empty());
    insert_sorted(&mut out, start);
    let mut i: usize = 0;
    while i < cuts.len()
        invariant
            i <= cuts@.len(),
            strictly_increasing(out@),
            out@.to_set() == set![start].union(cuts@.take(i as int).to_set().filter(|o: usize| start < o && o < end)),
        decreases cuts@.len() - i,
    {
        let o = cuts[i];
        proof {
            assert(cuts@.take(i + 1) =~= cuts@.take(i as int).push(o));
            cuts@.take(i as int).lemma_push_to_set_commute(o);
        }
        if start < o && o < end {
            insert_sorted(&mut out, o);
            assert(out@.to_set() =~= set![start].union(cuts@.take(i + 1).to_set().filter(|x: usize| start < x && x < end)));
        } else {
            assert(out@.to_set() =~= set![start].union(cuts@.take(i + 1).to_set().filter(|x: usize| start < x && x < end)));
        }
        i = i + 1;
    }
    assert(cuts@.take(i as int) =~= cuts@);
    insert_sorted(&mut out, end);
    assert(out@.to_set() =~= boundary_set(start, end, cuts@));
    out
}

/// The list counters once an item at level `lv` is met: deeper levels
/// dropped, missing ones started at 0.
pub open spec fn counters_at(c: Seq<u32>, lv: int) -> Seq<u32> {
    Seq::new((lv + 1) as nat, |i: int| if i < c.len() { c[i] } else { 0 })
}

/// The number a numbered list item prints: its stored number when it has
/// one, else one past the last number printed at its level.
pub open spec fn item_number(c: Seq<u32>, lv: int, number: u64) -> u32 {
    if number > 0 {
        number as u32
    } else {
        (counters_at(c, lv)[lv] + 1) as u32
    }
}

/// Meet a list item at `level` with stored number `number` (0: none):
/// the levels below it restart, and when its marker is a number
/// (`numbered`) it prints `item_number`, which its level then holds.
pub fn advance_list(counters: &mut Vec<u32>, level: u32, number: u64, numbered: bool) -> (r: Option<u32>)
    requires
        numbered && number == 0 ==> counters_at(old(counters)@, level as int)[level as int] < u32::MAX,
    ensures
        numbered ==> r == Some(item_number(old(counters)@, level as int, number)) && final(counters)@
            == counters_at(old(counters)@, level as int).update(
            level as int,
            item_number(old(counters)@, level as int, number),
        ),
        !numbered ==> r is None && final(counters)@ == counters_at(old(counters)@, level as int),
{
    let ghost c0 = old(counters)@;
    let lv = level as usize;
    while counters.len() <= lv
        invariant
            c0.len() <= counters@.len(),
            counters@.len() <= lv + 1 || counters@.len() == c0.len(),
            forall|i: int| 0 <= i < counters@.len() ==> #[trigger] counters@[i] == if i < c0.len() {
                c0[i]
            } else {
                0
            },
        decreases lv + 1 - counters@.len(),
    {
        counters.push(0);
    }
    counters.truncate(lv + 1);
    assert(counters@ =~= counters_at(c0, level as int));
    if numbered {
        let n = if number > 0 {
            number as u32
        } else {
            counters[lv] + 1
        };
        counters.set(lv, n);
        Some(n)
    } else {
        None
    }
}

/// The style of a paragraph starting at UTF-16 offset `start`, after a
/// paragraph styled `last`: the style entry at or before the start sets it
/// when it sits exactly at the start, or when nothing is carried yet; a
/// null entry, or none, carries `last` forward.
pub open spec fn paragraph_style_spec(entries: Seq<Entry>, start: usize, last: Option<u64>) -> Option<u64> {
    match last_entry_at(entries, start) {
        Some(i) => match entries[i].object_id {
            Some(oid) => if entries[i].utf16_off == start || last is None {
                Some(oid)
            } else {
                last
            },
            None => last,
        },
        None => last,
    }
}

/// The style of the paragraph starting at `start` (see
/// `paragraph_style_spec`), for style entries sorted by offset.
pub fn paragraph_style(entries: &[Entry], start: usize, last: Option<u64>) -> (r: Option<u64>)
    requires
        entries_sorted(entries@),
    ensures
        r == paragraph_style_spec(entries@, start, last),
{
    match entry_at(entries, start) {
        Some(e) => match e.object_id {
            Some(oid) => if e.utf16_off == start || last.is_none() {
                Some(oid)
            } else {
                last
            },
            None => last,
        },
        None => last,
    }
}

/// The first entry exactly at `start`, when there is one.
pub open spec fn entry_exactly_at(entries: Seq<Entry>, start: usize, k: int) -> Option<int>
    decreases entries.len() - k,
{
    if k < 0 || k >= entries.len() {
        None
    } else if entries[k].utf16_off == start {
        Some(k)
    } else {
        entry_exactly_at(entries, start, k + 1)
    }
}

/// The drop-cap style of the paragraph starting at `start`: that of the
/// first drop-cap entry exactly at its start, when it names one; later
/// paragraphs do not inherit it.
pub fn drop_cap_at(entries: &[Entry], start: usize) -> (r: Option<u64>)
    ensures
        r == match entry_exactly_at(entries@, start, 0) {
            Some(k) => entries@[k].object_id,
            None => None,
        },
{
    let mut k: usize = 0;
    while k < entries.len()
        invariant
            k <= entries@.len(),
            entry_exactly_at(entries@, start, 0) == entry_exactly_at(entries@, start, k as int),
        decreases entries@.len() - k,
    {
        if entries[k].utf16_off == start {
            return entries[k].object_id;
        }
        k = k + 1;
    }
    None
}

/// The note a storage with tracked changes gets: the accepted view is
/// shown, insertions kept and deletions left out.
pub open spec fn tracked_changes_warning(inserted: nat, deleted: nat) -> WarningView {
    WarningView {
        code: WarningCode::UnsupportedFeature,
        message: "tracked changes: "@ + crate::text_util::dec(inserted) + " insertion(s) kept, "@
            + crate::text_util::dec(deleted) + " deletion(s) omitted; text is the accepted view"@,
        path: None,
        detail: None,
        count: None,
        paths: None,
    }
}

/// Note tracked changes once, when a storage has any insertion or deletion
/// ranges.
pub fn note_tracked_changes(inserted: &Vec<(usize, usize)>, deleted: &Vec<(usize, usize)>, warnings: &mut Vec<Warning>)
    ensures
        inserted@.len() == 0 && deleted@.len() == 0 ==> final(warnings)@ == old(warnings)@,
        inserted@.len() > 0 || deleted@.len() > 0 ==> view_warnings(final(warnings)@) == view_warnings(
            old(warnings)@,
        ).push(tracked_changes_warning(inserted@.len(), deleted@.len())),
{
    if inserted.len() == 0 && deleted.len() == 0 {
        return;
    }
    let mut m = owned("tracked changes: ");
    crate::text_util::push_decimal(&mut m, inserted.len() as u64);
    crate::text_util::push_str(&mut m, " insertion(s) kept, ");
    crate::text_util::push_decimal(&mut m, deleted.len() as u64);
    crate::text_util::push_str(&mut m, " deletion(s) omitted; text is the accepted view");
    warnings.push(Warning { code: WarningCode::UnsupportedFeature, message: m, path: None, detail: None, count: None, paths: None });
    assert(view_warnings(final(warnings)@) =~= view_warnings(old(warnings)@).push(
        tracked_changes_warning(inserted@.len(), deleted@.len()),
    ));
}

/// Whether a UTF-16 offset falls in a deleted range (start included, end
/// not).
pub open spec fn in_deleted_spec(deleted: Seq<(usize, usize)>, off: usize) -> bool {
    exists|i: int| 0 <= i < deleted.len() && deleted[i].0 <= off && off < #[trigger] deleted[i].1
}

/// Whether the run starting at `off` was deleted (see `in_deleted_spec`);
/// such runs are left out of the accepted view.
pub fn in_deleted(deleted: &Vec<(usize, usize)>, off: usize) -> (r: bool)
    ensures
        r == in_deleted_spec(deleted@, off),
{
    let mut i: usize = 0;
    while i < deleted.len()
        invariant
            i <= deleted@.len(),
            forall|j: int| 0 <= j < i ==> !(deleted@[j].0 <= off && off < #[trigger] deleted@[j].1),
        decreases deleted@.len() - i,
    {
        let (a, b) = deleted[i];
        if a <= off && off < b {
            assert(deleted@[i as int].0 <= off && off < deleted@[i as int].1);
            return true;
        }
        i = i + 1;
    }
    false
}

/// The list a paragraph starting at `start` belongs to: that of the last
/// list entry at or before its start (a null entry clears membership).
pub open spec fn list_at(entries: Seq<Entry>, start: usize) -> Option<u64> {
    match last_entry_at(entries, start) {
        Some(i) => entries[i].object_id,
        None => None,
    }
}

/// A paragraph's level: the paragraph-data entry's first value, capped
/// at 8.
pub open spec fn level_at(para_data: Seq<(usize, u64, u64)>, start: usize) -> u32 {
    if (run_first(para_data, start) as u32) < 8 {
        run_first(para_data, start) as u32
    } else {
        8
    }
}

/// Starts that never go back.
pub open spec fn nondecreasing(s: Seq<usize>) -> bool {
    forall|i: int, j: int| 0 <= i < j < s.len() ==> s[i] <= s[j]
}

/// The list membership of each paragraph, given their start offsets in
/// order: its list (see `list_at`), level (see `level_at`) and stored item
/// number, or none outside lists.
pub fn list_membership(
    list_entries: &[Entry],
    starts: &Vec<usize>,
    para_data: &[(usize, u64, u64)],
    para_starts: &[(usize, u64, u64)],
) -> (r: Vec<Option<(u64, u32, u64)>>)
    requires
        entries_sorted(list_entries@),
        nondecreasing(starts@),
    ensures
        r@.len() == starts@.len(),
        forall|p: int|
            0 <= p < r@.len() ==> #[trigger] r@[p] == match list_at(list_entries@, starts@[p]) {
                Some(lid) => Some((lid, level_at(para_data@, starts@[p]), run_first(para_starts@, starts@[p]))),
                None => None,
            },
{
    let ghost es = list_entries@;
    let mut out: Vec<Option<(u64, u32, u64)>> = Vec::new();
    let mut cur: Option<u64> = None;
    let mut ei: usize = 0;
    let mut p: usize = 0;
    while p < starts.len()
        invariant
            p <= starts@.len(),
            es == list_entries@,
            entries_sorted(es),
            nondecreasing(starts@),
            out@.len() == p,
            ei <= es.len(),
            cur == if ei == 0 { None } else { es[ei - 1].object_id },
            p > 0 ==> forall|j: int| 0 <= j < ei ==> es[j].utf16_off <= starts@[p - 1],
            p > 0 ==> forall|j: int| ei <= j < es.len() ==> es[j].utf16_off > starts@[p - 1],
            p == 0 ==> ei == 0,
            forall|q: int|
                0 <= q < p ==> #[trigger] out@[q] == match list_at(es, starts@[q]) {
                    Some(lid) => Some((lid, level_at(para_data@, starts@[q]), run_first(para_starts@, starts@[q]))),
                    None => None,
                },
        decreases starts@.len() - p,
    {
        let start = starts[p];
        proof {
            if p > 0 {
                assert(starts@[p - 1] <= starts@[p as int]);
            }
        }
        while ei < list_entries.len() && list_entries[ei].utf16_off <= start
            invariant
                ei <= es.len(),
                es == list_entries@,
                start == starts@[p as int],
                cur == if ei == 0 { None } else { es[ei - 1].object_id },
                forall|j: int| 0 <= j < ei ==> es[j].utf16_off <= start,
            decreases es.len() - ei,
        {
            cur = list_entries[ei].object_id;
            ei = ei + 1;
        }
        proof {
            lemma_last_entry_at(es, start);
            assert forall|j: int| ei <= j < es.len() implies es[j].utf16_off > start by {
                assert(es[ei as int].utf16_off > start);
                assert(es[ei as int].utf16_off <= es[j].utf16_off);
            }
            match last_entry_at(es, start) {
                Some(i) => {
                    assert(i == ei - 1);
                },
                None => {
                    assert(ei == 0);
                },
            }
        }
        let entry = match cur {
            Some(lid) => Some((lid, para_level(para_data, start), para_list_number(para_starts, start))),
            None => None,
        };
        out.push(entry);
        p = p + 1;
    }
    out
}

/// The UTF-16 offsets of a text's characters strictly increase.
pub proof fn lemma_units_increase(t: Seq<char>)
    ensures
        forall|i: int, j: int| 0 <= i < j <= t.len() ==> utf16_units(#[trigger] t.take(i)) < utf16_units(#[trigger] t.take(j)),
    decreases t.len(),
{
    if t.len() > 0 {
        let d = t.drop_last();
        lemma_units_increase(d);
        assert forall|i: int| 0 <= i <= d.len() implies #[trigger] t.take(i) == d.take(i) by {
            assert(t.take(i) =~= d.take(i));
        }
        assert(t.take(t.len() as int) =~= d.push(t.last()));
        lemma_units_push(d, t.last());
        assert(d.take(d.len() as int) =~= d);
        assert forall|i: int, j: int| 0 <= i < j <= t.len() implies utf16_units(#[trigger] t.take(i)) < utf16_units(
            #[trigger] t.take(j),
        ) by {
            if j == t.len() {
                assert(t.take(i) == d.take(i));
                if i < d.len() {
                    assert(utf16_units(d.take(i)) < utf16_units(d.take(d.len() as int)));
                }
            } else {
                assert(t.take(i) == d.take(i));
                assert(t.take(j) == d.take(j));
            }
        }
    }
}

/// Paragraph `k` starts no later than it ends, within the text, and
/// later paragraphs start later.
pub proof fn lemma_ranges_ordered(t: Seq<char>)
    ensures
        forall|k: int|
            0 <= k <= break_positions(t).len() ==> 0 <= #[trigger] para_range(t, break_positions(t), k).0 <= para_range(
                t,
                break_positions(t),
                k,
            ).1 <= t.len(),
        forall|k1: int, k2: int|
            0 <= k1 < k2 <= break_positions(t).len() ==> #[trigger] para_range(t, break_positions(t), k1).0 < #[trigger] para_range(
                t,
                break_positions(t),
                k2,
            ).0,
{
    lemma_break_positions(t);
    let bp = break_positions(t);
    assert forall|k: int| 0 <= k <= bp.len() implies 0 <= #[trigger] para_range(t, bp, k).0 <= para_range(t, bp, k).1 <= t.len() by {
        if k > 0 && k < bp.len() {
            assert(bp[k - 1] < bp[k]);
        }
        if k > 0 {
            assert(0 <= bp[k - 1] < t.len());
        }
    }
    assert forall|k1: int, k2: int| 0 <= k1 < k2 <= bp.len() implies #[trigger] para_range(t, bp, k1).0 < #[trigger] para_range(t, bp, k2).0 by {
        if k1 > 0 {
            assert(bp[k1 - 1] < bp[k2 - 1]);
        } else {
            assert(0 <= bp[k2 - 1]);
        }
    }
}

} // verus!
