//! The runs of a paragraph: the text between consecutive run boundaries,
//! each with the character style in force at its start and the anchors
//! that sit there.
use vstd::prelude::*;
use crate::text::{Entry, entries_sorted, last_entry_at, entry_at, last_at_most, u16_to_char_index, strictly_increasing,
    entry_exactly_at, drop_cap_at, in_deleted, in_deleted_spec};
use crate::text_util::push_char;
use crate::text::{
    break_positions, para_range, paragraph_ranges, paragraph_style, paragraph_style_spec, list_membership, list_at,
    level_at, run_first, run_boundaries, boundary_set, utf16_map, utf16_units, entry_offsets, lemma_units_increase,
    lemma_ranges_ordered, lemma_break_positions, nondecreasing, stable_order_of, table_entries, entries_of, para_table,
    para_entry_spec, change_ranges, change_ranges_spec, enter_text_storage, nest_warning, note_tracked_changes,
    tracked_changes_warning, MAX_TEXT_NEST,
};
use crate::pb::{Msg, vmsg, vall, nested_all};
use crate::wire::{WireSpec, fields_view};
use crate::loader::{Loaded, loaded_view};
use crate::ctx::vstring;
use crate::model::Warning;
use crate::view_warnings;

verus! {

/// One run of a paragraph: its text, the character style entry in force
/// at its start, and, when one sits exactly at its start, the footnote
/// anchor's object and (for a run opening with U+FFFC) the attachment's
/// object.
pub struct TextRun {
    pub text: String,
    pub char_style: Option<u64>,
    pub footnote: Option<Option<u64>>,
    pub attachment: Option<Option<u64>>,
}

pub struct RunView {
    pub text: Seq<char>,
    pub char_style: Option<u64>,
    pub footnote: Option<Option<u64>>,
    pub attachment: Option<Option<u64>>,
}

pub open spec fn run_view(r: TextRun) -> RunView {
    RunView { text: r.text@, char_style: r.char_style, footnote: r.footnote, attachment: r.attachment }
}

pub open spec fn runs_view(v: Seq<TextRun>) -> Seq<RunView> {
    v.map_values(|r: TextRun| run_view(r))
}

/// The char index of UTF-16 offset `off` (see `u16_to_char_index`).
pub open spec fn char_index(map: Seq<usize>, off: usize) -> int {
    match last_at_most(map, off) {
        Some(i) => i,
        None => 0,
    }
}

/// The text from char `a` to char `b`, as far as the text goes; empty when
/// `b` comes before `a`.
pub open spec fn text_between(text: Seq<char>, a: int, b: int) -> Seq<char> {
    if a <= b {
        let lo = if a < text.len() { a } else { text.len() as int };
        let hi = if b < text.len() { b } else { text.len() as int };
        text.subrange(lo, hi)
    } else {
        Seq::empty()
    }
}

/// The object of the first entry exactly at `off`, when there is one.
pub open spec fn anchor_at(es: Seq<Entry>, off: usize) -> Option<Option<u64>> {
    match entry_exactly_at(es, off, 0) {
        Some(k) => Some(es[k].object_id),
        None => None,
    }
}

/// The run from boundary `b0` to boundary `b1`.
pub open spec fn run_spec(
    text: Seq<char>,
    map: Seq<usize>,
    ce: Seq<Entry>,
    ae: Seq<Entry>,
    fe: Seq<Entry>,
    b0: usize,
    b1: usize,
) -> RunView {
    let t = text_between(text, char_index(map, b0), char_index(map, b1));
    RunView {
        text: t,
        char_style: match last_entry_at(ce, b0) {
            Some(i) => ce[i].object_id,
            None => None,
        },
        footnote: anchor_at(fe, b0),
        attachment: if t.len() > 0 && t[0] == '\u{FFFC}' {
            anchor_at(ae, b0)
        } else {
            None
        },
    }
}

/// The runs between consecutive boundaries among the first `n`, those
/// starting in a deleted range left out.
pub open spec fn runs_over(
    text: Seq<char>,
    map: Seq<usize>,
    ce: Seq<Entry>,
    ae: Seq<Entry>,
    fe: Seq<Entry>,
    deleted: Seq<(usize, usize)>,
    bounds: Seq<usize>,
    n: int,
) -> Seq<RunView>
    decreases n,
{
    if n <= 1 {
        Seq::empty()
    } else {
        let p = runs_over(text, map, ce, ae, fe, deleted, bounds, n - 1);
        let b0 = bounds[n - 2];
        let b1 = bounds[n - 1];
        if in_deleted_spec(deleted, b0) {
            p
        } else {
            p.push(run_spec(text, map, ce, ae, fe, b0, b1))
        }
    }
}

fn text_between_exec(text: &Vec<char>, a: usize, b: usize) -> (r: String)
    ensures
        r@ == text_between(text@, a as int, b as int),
{
    let mut s = String::new();
    if a > b {
        return s;
    }
    let lo = if a < text.len() { a } else { text.len() };
    let hi = if b < text.len() { b } else { text.len() };
    let mut i = lo;
    while i < hi
        invariant
            lo <= i <= hi <= text@.len(),
            s@ == text@.subrange(lo as int, i as int),
        decreases hi - i,
    {
        push_char(&mut s, text[i]);
        assert(s@ =~= text@.subrange(lo as int, i + 1));
        i = i + 1;
    }
    s
}

fn char_index_exec(map: &Vec<usize>, off: usize) -> (r: usize)
    requires
        strictly_increasing(map@),
    ensures
        r == char_index(map@, off),
{
    u16_to_char_index(map.as_slice(), off)
}

fn anchor_exec(es: &[Entry], off: usize) -> (r: Option<Option<u64>>)
    ensures
        r == anchor_at(es@, off),
{
    let mut k: usize = 0;
    while k < es.len()
        invariant
            k <= es@.len(),
            entry_exactly_at(es@, off, 0) == entry_exactly_at(es@, off, k as int),
        decreases es@.len() - k,
    {
        if es[k].utf16_off == off {
            return Some(es[k].object_id);
        }
        k = k + 1;
    }
    None
}

/// The runs between consecutive `bounds` (see `runs_over`).
pub fn runs_between(
    text: &Vec<char>,
    map: &Vec<usize>,
    char_entries: &[Entry],
    attach_entries: &[Entry],
    footnote_entries: &[Entry],
    deleted: &Vec<(usize, usize)>,
    bounds: &Vec<usize>,
) -> (r: Vec<TextRun>)
    requires
        strictly_increasing(map@),
        entries_sorted(char_entries@),
    ensures
        runs_view(r@) == runs_over(
            text@,
            map@,
            char_entries@,
            attach_entries@,
            footnote_entries@,
            deleted@,
            bounds@,
            bounds@.len() as int,
        ),
{
    let mut out: Vec<TextRun> = Vec::new();
    if bounds.len() < 2 {
        assert(runs_view(out@) =~= Seq::<RunView>::empty());
        return out;
    }
    let mut k: usize = 1;
    assert(runs_view(out@) =~= runs_over(text@, map@, char_entries@, attach_entries@, footnote_entries@, deleted@, bounds@, 1));
    while k < bounds.len()
        invariant
            1 <= k <= bounds@.len(),
            strictly_increasing(map@),
            entries_sorted(char_entries@),
            runs_view(out@) == runs_over(
                text@,
                map@,
                char_entries@,
                attach_entries@,
                footnote_entries@,
                deleted@,
                bounds@,
                k as int,
            ),
        decreases bounds@.len() - k,
    {
        let b0 = bounds[k - 1];
        let b1 = bounds[k];
        let ghost before = runs_view(out@);
        if !in_deleted(deleted, b0) {
            let t = text_between_exec(text, char_index_exec(map, b0), char_index_exec(map, b1));
            let style = match entry_at(char_entries, b0) {
                Some(e) => e.object_id,
                None => None,
            };
            let cs = crate::text_util::chars_of(t.as_str());
            let opens_with_anchor = cs.len() > 0 && cs[0] == '\u{FFFC}';
            let run = TextRun {
                text: t,
                char_style: style,
                footnote: anchor_exec(footnote_entries, b0),
                attachment: if opens_with_anchor {
                    anchor_exec(attach_entries, b0)
                } else {
                    None
                },
            };
            assert(run_view(run) == run_spec(text@, map@, char_entries@, attach_entries@, footnote_entries@, b0, b1));
            out.push(run);
            assert(runs_view(out@) =~= before.push(run_view(run)));
        }
        assert(bounds@[k - 1] == b0 && bounds@[k as int] == b1);
        k = k + 1;
    }
    out
}

/// The UTF-16 offset of each char of a text, then its length.
pub open spec fn utf16_map_spec(text: Seq<char>) -> Seq<usize> {
    Seq::new((text.len() + 1) as nat, |i: int| utf16_units(text.take(i)) as usize)
}

/// A paragraph: its style (the paragraph-style entry carried forward),
/// its runs, whether a page break comes before it, its list membership
/// (list, level, stored number) and its drop-cap style.
pub struct Paragraph {
    pub style: Option<u64>,
    pub runs: Vec<TextRun>,
    pub page_break_before: bool,
    pub list: Option<(u64, u32, u64)>,
    pub drop_cap: Option<u64>,
}

/// The attribute tables of a text storage, each sorted by offset: paragraph
/// styles, character styles, attachments, smart fields, footnotes, drop
/// caps, list styles; the paragraph data and starts tables; the deleted
/// ranges of tracked changes.
pub struct TextTables {
    pub paragraph_styles: Vec<Entry>,
    pub char_styles: Vec<Entry>,
    pub attachments: Vec<Entry>,
    pub smart_fields: Vec<Entry>,
    pub footnotes: Vec<Entry>,
    pub drop_caps: Vec<Entry>,
    pub lists: Vec<Entry>,
    pub para_data: Vec<(usize, u64, u64)>,
    pub para_starts: Vec<(usize, u64, u64)>,
    pub deleted: Vec<(usize, usize)>,
}

/// Both ends of each range, in order.
pub open spec fn range_ends(d: Seq<(usize, usize)>) -> Seq<usize>
    decreases d.len(),
{
    if d.len() == 0 {
        Seq::empty()
    } else {
        range_ends(d.drop_last()).push(d.last().0).push(d.last().1)
    }
}

/// The UTF-16 offsets of the U+FFFC anchors among chars `a` to `b`.
pub open spec fn anchor_offsets(text: Seq<char>, map: Seq<usize>, a: int, b: int) -> Seq<usize>
    decreases b - a,
{
    if b <= a {
        Seq::empty()
    } else if text[b - 1] == '\u{FFFC}' {
        anchor_offsets(text, map, a, b - 1).push(map[b - 1])
    } else {
        anchor_offsets(text, map, a, b - 1)
    }
}

/// The paragraph's UTF-16 start, for each paragraph.
pub open spec fn para_starts_u16(text: Seq<char>, map: Seq<usize>) -> Seq<usize> {
    Seq::new(
        (break_positions(text).len() + 1) as nat,
        |k: int| map[para_range(text, break_positions(text), k).0],
    )
}

/// The style of the first `n` paragraphs' last: each paragraph's style
/// entry, carried forward (see `paragraph_style_spec`).
pub open spec fn styles_fold(pe: Seq<Entry>, starts: Seq<usize>, n: int) -> Option<u64>
    decreases n,
{
    if n <= 0 {
        None
    } else {
        paragraph_style_spec(pe, starts[n - 1], styles_fold(pe, starts, n - 1))
    }
}

/// The offsets that may cut runs in paragraph `k`: every entry of the
/// character-style, attachment, footnote and smart-field tables, both ends
/// of every deleted range, and the anchors of its own text.
pub open spec fn cuts_spec(
    text: Seq<char>,
    map: Seq<usize>,
    ce: Seq<Entry>,
    ae: Seq<Entry>,
    fe: Seq<Entry>,
    se: Seq<Entry>,
    deleted: Seq<(usize, usize)>,
    k: int,
) -> Seq<usize> {
    let (a, b) = para_range(text, break_positions(text), k);
    entry_offsets(ce) + entry_offsets(ae) + entry_offsets(fe) + entry_offsets(se) + range_ends(deleted)
        + anchor_offsets(text, map, a, b)
}

pub open spec fn drop_cap_spec(dce: Seq<Entry>, start: usize) -> Option<u64> {
    match entry_exactly_at(dce, start, 0) {
        Some(j) => dce[j].object_id,
        None => None,
    }
}

/// Paragraph `k` of `text` as `assemble_paragraphs` builds it.
pub open spec fn paragraph_ok(p: Paragraph, text: Seq<char>, map: Seq<usize>, tb: TextTables, k: int) -> bool {
    let bp = break_positions(text);
    let (a, b) = para_range(text, bp, k);
    let start = map[a];
    let end = map[b];
    &&& p.style == styles_fold(tb.paragraph_styles@, para_starts_u16(text, map), k + 1)
    &&& p.page_break_before == (k > 0 && text[bp[k - 1]] == '\u{5}')
    &&& p.list == match list_at(tb.lists@, start) {
        Some(lid) => Some((lid, level_at(tb.para_data@, start), run_first(tb.para_starts@, start))),
        None => None,
    }
    &&& p.drop_cap == drop_cap_spec(tb.drop_caps@, start)
    &&& exists|bounds: Seq<usize>|
        #[trigger] strictly_increasing(bounds) && bounds.to_set() == boundary_set(
            start,
            end,
            cuts_spec(text, map, tb.char_styles@, tb.attachments@, tb.footnotes@, tb.smart_fields@, tb.deleted@, k),
        ) && runs_view(p.runs@) == runs_over(
            text,
            map,
            tb.char_styles@,
            tb.attachments@,
            tb.footnotes@,
            tb.deleted@,
            bounds,
            bounds.len() as int,
        )
}

/// The tables keep their entries in offset order.
pub open spec fn tables_sorted(tb: TextTables) -> bool {
    entries_sorted(tb.paragraph_styles@) && entries_sorted(tb.char_styles@) && entries_sorted(tb.lists@)
}

fn push_offsets(es: &Vec<Entry>, out: &mut Vec<usize>)
    ensures
        final(out)@ == old(out)@ + entry_offsets(es@),
{
    let mut i: usize = 0;
    while i < es.len()
        invariant
            i <= es@.len(),
            out@ == old(out)@ + entry_offsets(es@).take(i as int),
        decreases es@.len() - i,
    {
        out.push(es[i].utf16_off);
        assert(out@ =~= old(out)@ + entry_offsets(es@).take(i + 1));
        i = i + 1;
    }
    assert(entry_offsets(es@).take(i as int) =~= entry_offsets(es@));
}

fn push_range_ends(d: &Vec<(usize, usize)>, out: &mut Vec<usize>)
    ensures
        final(out)@ == old(out)@ + range_ends(d@),
{
    let mut i: usize = 0;
    while i < d.len()
        invariant
            i <= d@.len(),
            out@ == old(out)@ + range_ends(d@.take(i as int)),
        decreases d@.len() - i,
    {
        assert(d@.take(i + 1).drop_last() =~= d@.take(i as int));
        out.push(d[i].0);
        out.push(d[i].1);
        assert(out@ =~= old(out)@ + range_ends(d@.take(i + 1)));
        i = i + 1;
    }
    assert(d@.take(i as int) =~= d@);
}

fn push_anchor_offsets(text: &Vec<char>, map: &Vec<usize>, a: usize, b: usize, out: &mut Vec<usize>)
    requires
        a <= b <= text@.len(),
        map@.len() == text@.len() + 1,
    ensures
        final(out)@ == old(out)@ + anchor_offsets(text@, map@, a as int, b as int),
{
    let mut i = a;
    while i < b
        invariant
            a <= i <= b <= text@.len(),
            map@.len() == text@.len() + 1,
            out@ == old(out)@ + anchor_offsets(text@, map@, a as int, i as int),
        decreases b - i,
    {
        if text[i] == '\u{FFFC}' {
            out.push(map[i]);
        }
        assert(out@ =~= old(out)@ + anchor_offsets(text@, map@, a as int, i + 1));
        i = i + 1;
    }
}

/// The paragraphs of `text` under its attribute tables: one per
/// paragraph range of `paragraph_ranges` (so one more than the text has
/// breaks), each as `paragraph_ok` states.
pub fn assemble_paragraphs(text: &str, tb: &TextTables) -> (r: Vec<Paragraph>)
    requires
        tables_sorted(*tb),
    ensures
        r@.len() == break_positions(text@).len() + 1,
        forall|k: int| 0 <= k < r@.len() ==> paragraph_ok(#[trigger] r@[k], text@, utf16_map_spec(text@), *tb, k),
{
    let chars = crate::text_util::chars_of(text);
    let map = utf16_map(text);
    proof {
        lemma_units_increase(text@);
        lemma_ranges_ordered(text@);
        lemma_break_positions(text@);
    }
    assert(map@ =~= utf16_map_spec(text@));
    assert(strictly_increasing(map@));
    let (ranges, pbb) = paragraph_ranges(text);
    let ghost bp = break_positions(text@);
    let ghost starts = para_starts_u16(text@, map@);
    let mut start_offsets: Vec<usize> = Vec::new();
    let mut i: usize = 0;
    while i < ranges.len()
        invariant
            i <= ranges@.len(),
            ranges@.len() == bp.len() + 1,
            map@.len() == text@.len() + 1,
            forall|k: int| 0 <= k < ranges@.len() ==> (#[trigger] ranges@[k]).0 == para_range(text@, bp, k).0
                && ranges@[k].1 == para_range(text@, bp, k).1,
            forall|k: int| 0 <= k <= bp.len() ==> 0 <= #[trigger] para_range(text@, bp, k).0 <= para_range(text@, bp, k).1 <= text@.len(),
            starts == para_starts_u16(text@, map@),
            bp == break_positions(text@),
            start_offsets@ == starts.take(i as int),
        decreases ranges@.len() - i,
    {
        let ghost k = i as int;
        assert(0 <= para_range(text@, bp, k).0 <= text@.len());
        let v = map[ranges[i].0];
        assert(ranges@[k].0 == para_range(text@, bp, k).0);
        assert(v == map@[para_range(text@, bp, k).0]);
        assert(starts[k] == map@[para_range(text@, bp, k).0]);
        start_offsets.push(v);
        assert(start_offsets@ =~= starts.take(i + 1));
        i = i + 1;
    }
    assert(starts.take(i as int) =~= starts);
    assert(nondecreasing(start_offsets@)) by {
        assert forall|x: int, y: int| 0 <= x < y < start_offsets@.len() implies start_offsets@[x] <= start_offsets@[y] by {
            let ax = para_range(text@, bp, x).0;
            let ay = para_range(text@, bp, y).0;
            assert(ax < ay);
            assert(start_offsets@[x] == map@[ax]);
            assert(start_offsets@[y] == map@[ay]);
            assert(utf16_units(text@.take(ax)) < utf16_units(text@.take(ay)));
        }
    }
    let lists = list_membership(tb.lists.as_slice(), &start_offsets, tb.para_data.as_slice(), tb.para_starts.as_slice());
    let mut out: Vec<Paragraph> = Vec::new();
    let mut last: Option<u64> = None;
    let mut k: usize = 0;
    while k < ranges.len()
        invariant
            k <= ranges@.len(),
            ranges@.len() == bp.len() + 1,
            pbb@.len() == ranges@.len(),
            lists@.len() == ranges@.len(),
            chars@ == text@,
            map@ == utf16_map_spec(text@),
            map@.len() == text@.len() + 1,
            strictly_increasing(map@),
            tables_sorted(*tb),
            bp == break_positions(text@),
            starts == para_starts_u16(text@, map@),
            start_offsets@ == starts,
            forall|q: int| 0 <= q < ranges@.len() ==> (#[trigger] ranges@[q]).0 == para_range(text@, bp, q).0
                && ranges@[q].1 == para_range(text@, bp, q).1,
            forall|q: int| 0 <= q <= bp.len() ==> 0 <= #[trigger] para_range(text@, bp, q).0 <= para_range(text@, bp, q).1 <= text@.len(),
            forall|q: int| 0 <= q < pbb@.len() ==> #[trigger] pbb@[q] == (q > 0 && text@[bp[q - 1]] == '\u{5}'),
            forall|q: int| 0 <= q < lists@.len() ==> #[trigger] lists@[q] == match list_at(tb.lists@, starts[q]) {
                Some(lid) => Some((lid, level_at(tb.para_data@, starts[q]), run_first(tb.para_starts@, starts[q]))),
                None => None,
            },
            last == styles_fold(tb.paragraph_styles@, starts, k as int),
            out@.len() == k,
            forall|q: int| 0 <= q < k ==> paragraph_ok(#[trigger] out@[q], text@, map@, *tb, q),
        decreases ranges@.len() - k,
    {
        let (a, b) = ranges[k];
        let start = map[a];
        let end = map[b];
        assert(start == starts[k as int]);
        let style = paragraph_style(tb.paragraph_styles.as_slice(), start, last);
        let mut cuts: Vec<usize> = Vec::new();
        push_offsets(&tb.char_styles, &mut cuts);
        push_offsets(&tb.attachments, &mut cuts);
        push_offsets(&tb.footnotes, &mut cuts);
        push_offsets(&tb.smart_fields, &mut cuts);
        push_range_ends(&tb.deleted, &mut cuts);
        push_anchor_offsets(&chars, &map, a, b, &mut cuts);
        assert(cuts@ =~= cuts_spec(text@, map@, tb.char_styles@, tb.attachments@, tb.footnotes@, tb.smart_fields@, tb.deleted@, k as int));
        let bounds = run_boundaries(start, end, &cuts);
        let runs = runs_between(
            &chars,
            &map,
            tb.char_styles.as_slice(),
            tb.attachments.as_slice(),
            tb.footnotes.as_slice(),
            &tb.deleted,
            &bounds,
        );
        let p = Paragraph {
            style,
            runs,
            page_break_before: pbb[k],
            list: lists[k],
            drop_cap: drop_cap_at(tb.drop_caps.as_slice(), start),
        };
        assert(strictly_increasing(bounds@));
        assert(paragraph_ok(p, text@, map@, *tb, k as int));
        out.push(p);
        last = style;
        k = k + 1;
    }
    out
}

/// `r` is the attribute table `table` read by `entries_of`: its entries in
/// stable offset order.
pub open spec fn read_entries(table: Option<Seq<(u32, WireSpec)>>, r: Seq<Entry>) -> bool {
    exists|ord: Seq<int>|
        #[trigger] stable_order_of(ord, entry_offsets(table_entries(table))) && r == ord.map_values(
            |i: int| table_entries(table)[i],
        )
}

/// A paragraph-data table as `para_table` reads it.
pub open spec fn para_rows(table: Option<Seq<(u32, WireSpec)>>) -> Seq<(usize, u64, u64)> {
    match table {
        Some(t) => nested_all(vall(t, 1)).map_values(|e: Seq<(u32, WireSpec)>| para_entry_spec(e)),
        None => Seq::empty(),
    }
}

/// `tb` holds the attribute tables of `storage`: paragraph styles (field
/// 5), character styles (8), attachments (9), smart fields (11), footnotes
/// (16), drop caps (28), list styles (7), paragraph data (6) and starts
/// (14), and the deleted ranges of its deletion table (22).
pub open spec fn tables_of(loaded: Loaded, storage: Seq<(u32, WireSpec)>, tb: TextTables) -> bool {
    &&& read_entries(vmsg(storage, 5), tb.paragraph_styles@)
    &&& read_entries(vmsg(storage, 8), tb.char_styles@)
    &&& read_entries(vmsg(storage, 9), tb.attachments@)
    &&& read_entries(vmsg(storage, 11), tb.smart_fields@)
    &&& read_entries(vmsg(storage, 16), tb.footnotes@)
    &&& read_entries(vmsg(storage, 28), tb.drop_caps@)
    &&& read_entries(vmsg(storage, 7), tb.lists@)
    &&& tb.para_data@ == para_rows(vmsg(storage, 6))
    &&& tb.para_starts@ == para_rows(vmsg(storage, 14))
    &&& exists|de: Seq<Entry>|
        #[trigger] read_entries(vmsg(storage, 22), de) && tb.deleted@ == change_ranges_spec(
            loaded_view(loaded).records,
            de,
            2,
            de.len() as int,
        )
}

/// The number of inserted ranges of a storage's insertion table (21).
pub open spec fn insertions_of(loaded: Loaded, storage: Seq<(u32, WireSpec)>, n: nat) -> bool {
    exists|ie: Seq<Entry>|
        #[trigger] read_entries(vmsg(storage, 21), ie) && n == change_ranges_spec(
            loaded_view(loaded).records,
            ie,
            1,
            ie.len() as int,
        ).len()
}

/// The text of a storage (field 3), or empty.
pub open spec fn storage_text(storage: Seq<(u32, WireSpec)>) -> Seq<char> {
    match vstring(storage, 3) {
        Some(t) => t,
        None => Seq::empty(),
    }
}

/// The text a storage holds, paragraph by paragraph.
pub struct ExtractedText {
    pub paragraphs: Vec<Paragraph>,
}

fn entries_field(storage: &Msg, f: u32) -> (r: Vec<Entry>)
    ensures
        read_entries(vmsg(fields_view(storage.fields@), f), r@),
        entries_sorted(r@),
{
    let t = storage.msg(f);
    let r = entries_of(t);
    assert(crate::text::opt_fields(t) == vmsg(fields_view(storage.fields@), f));
    r
}

/// `x` is the text of `storage` read: one paragraph per paragraph range,
/// each as `paragraph_ok` states under the storage's tables.
pub open spec fn extracted_ok(loaded: Loaded, storage: Seq<(u32, WireSpec)>, x: ExtractedText) -> bool {
    &&& x.paragraphs@.len() == break_positions(storage_text(storage)).len() + 1
    &&& exists|tb: TextTables|
        #[trigger] tables_of(loaded, storage, tb) && forall|k: int|
            0 <= k < x.paragraphs@.len() ==> paragraph_ok(
                #[trigger] x.paragraphs@[k],
                storage_text(storage),
                utf16_map_spec(storage_text(storage)),
                tb,
                k,
            )
}

/// The note on tracked changes `extract_text` pushes: none without any
/// inserted or deleted range.
pub open spec fn change_note(old_ws: Seq<crate::WarningView>, new_ws: Seq<crate::WarningView>, inserted: nat, deleted: nat) -> bool {
    if inserted == 0 && deleted == 0 {
        new_ws == old_ws
    } else {
        new_ws == old_ws.push(tracked_changes_warning(inserted, deleted))
    }
}

/// The text of a storage at nesting `depth`: none, with a warning, at or
/// past `MAX_TEXT_NEST`. Otherwise its paragraphs (see
/// `assemble_paragraphs`) under its attribute tables, after a note on its
/// tracked changes when it has any (the accepted view is shown: runs
/// starting in deleted ranges are left out).
pub fn extract_text(loaded: &Loaded, storage: &Msg, depth: u32, warnings: &mut Vec<Warning>) -> (r: Option<ExtractedText>)
    ensures
        depth >= MAX_TEXT_NEST ==> r is None && view_warnings(final(warnings)@) == view_warnings(old(warnings)@).push(
            nest_warning(),
        ),
        depth < MAX_TEXT_NEST ==> (r matches Some(x) && extracted_ok(*loaded, fields_view(storage.fields@), x)),
        depth < MAX_TEXT_NEST ==> (r matches Some(x) && x.paragraphs@.len() == break_positions(
            storage_text(fields_view(storage.fields@)),
        ).len() + 1 && exists|tb: TextTables, n: nat|
            #[trigger] tables_of(*loaded, fields_view(storage.fields@), tb) && #[trigger] insertions_of(
                *loaded,
                fields_view(storage.fields@),
                n,
            ) && change_note(
                view_warnings(old(warnings)@),
                view_warnings(final(warnings)@),
                n,
                tb.deleted@.len(),
            ) && forall|k: int|
                0 <= k < x.paragraphs@.len() ==> paragraph_ok(
                    #[trigger] x.paragraphs@[k],
                    storage_text(fields_view(storage.fields@)),
                    utf16_map_spec(storage_text(fields_view(storage.fields@))),
                    tb,
                    k,
                )),
{
    if !enter_text_storage(depth, warnings) {
        return None;
    }
    let ghost sv = fields_view(storage.fields@);
    let text = match crate::cell_formats::string_of(storage, 3) {
        Some(t) => t,
        None => String::new(),
    };
    assert(text@ == storage_text(sv));
    let deletion_entries = entries_field(storage, 22);
    let insertion_entries = entries_field(storage, 21);
    let deleted = change_ranges(loaded, deletion_entries.as_slice(), 2);
    let inserted = change_ranges(loaded, insertion_entries.as_slice(), 1);
    note_tracked_changes(&inserted, &deleted, warnings);
    let p6 = storage.msg(6);
    let p14 = storage.msg(14);
    let tb = TextTables {
        paragraph_styles: entries_field(storage, 5),
        char_styles: entries_field(storage, 8),
        attachments: entries_field(storage, 9),
        smart_fields: entries_field(storage, 11),
        footnotes: entries_field(storage, 16),
        drop_caps: entries_field(storage, 28),
        lists: entries_field(storage, 7),
        para_data: para_table(p6),
        para_starts: para_table(p14),
        deleted,
    };
    assert(crate::text::opt_fields(p6) == vmsg(sv, 6));
    assert(crate::text::opt_fields(p14) == vmsg(sv, 14));
    assert(read_entries(vmsg(sv, 22), deletion_entries@));
    assert(tables_of(*loaded, sv, tb));
    assert(insertions_of(*loaded, sv, inserted@.len()));
    let paragraphs = assemble_paragraphs(text.as_str(), &tb);
    Some(ExtractedText { paragraphs })
}

} // verus!
