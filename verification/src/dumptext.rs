//! Fallback dumpers: readable plain-text and markdown renderings of a
//! converted document, from what its model holds.
use vstd::prelude::*;
use crate::model::{Warning, PagesFlavor};
use crate::text_util::{push_char, push_str, chars_of, dec, push_decimal};
use crate::text_runs::{Paragraph, TextRun, ExtractedText};
use crate::documents::{Document, PagesDocument, NumbersDocument, KeynoteDocument, SheetModel, SheetTable, SlideModel, Footnote};
use crate::table_grid::TableModel;
use crate::convert::Envelope;

verus! {

/// A character in a markdown table cell: `|` escaped, newline as a space.
pub open spec fn md_char(c: char) -> Seq<char> {
    if c == '|' {
        seq!['\\', '|']
    } else if c == '\n' {
        seq![' ']
    } else {
        seq![c]
    }
}

/// A text made safe for a markdown table cell.
pub open spec fn escape_md_spec(s: Seq<char>) -> Seq<char>
    decreases s.len(),
{
    if s.len() == 0 {
        Seq::empty()
    } else {
        escape_md_spec(s.drop_last()) + md_char(s.last())
    }
}

/// Escape `|` and flatten newlines for a markdown table cell.
pub fn escape_md(s: &str) -> (r: String)
    ensures
        r@ == escape_md_spec(s@),
{
    let v = chars_of(s);
    let mut out = String::new();
    let mut i: usize = 0;
    while i < v.len()
        invariant
            i <= v@.len(),
            v@ == s@,
            out@ == escape_md_spec(s@.take(i as int)),
        decreases v@.len() - i,
    {
        let c = v[i];
        assert(s@.take(i + 1).drop_last() =~= s@.take(i as int));
        if c == '|' {
            push_char(&mut out, '\\');
            push_char(&mut out, '|');
        } else if c == '\n' {
            push_char(&mut out, ' ');
        } else {
            push_char(&mut out, c);
        }
        assert(out@ =~= escape_md_spec(s@.take(i + 1)));
        i = i + 1;
    }
    assert(s@.take(i as int) =~= s@);
    out
}

/// The warnings note at the end of a dump: nothing without warnings; in
/// markdown a quoted line with their number and the first message; in plain
/// text their number.
pub open spec fn warnings_block_spec(ws: Seq<Warning>, markdown: bool) -> Seq<char> {
    if ws.len() == 0 {
        Seq::empty()
    } else if markdown {
        "\n> **Warnings ("@ + dec(ws.len()) + "):** "@ + dec(ws.len()) + " conversion note(s); first: "@
            + ws[0].message@ + "\n"@
    } else {
        "\nWarnings: "@ + dec(ws.len()) + " recorded.\n"@
    }
}

/// Append the warnings note of a dump.
pub fn warnings_block(doc_warnings: &[Warning], out: &mut String, markdown: bool)
    ensures
        final(out)@ == old(out)@ + warnings_block_spec(doc_warnings@, markdown),
{
    let n = doc_warnings.len();
    if n == 0 {
        assert(old(out)@ + warnings_block_spec(doc_warnings@, markdown) =~= old(out)@);
        return;
    }
    if markdown {
        push_str(out, "\n> **Warnings (");
        push_decimal(out, n as u64);
        push_str(out, "):** ");
        push_decimal(out, n as u64);
        push_str(out, " conversion note(s); first: ");
        push_str(out, doc_warnings[0].message.as_str());
        push_str(out, "\n");
    } else {
        push_str(out, "\nWarnings: ");
        push_decimal(out, n as u64);
        push_str(out, " recorded.\n");
    }
    assert(final(out)@ =~= old(out)@ + warnings_block_spec(doc_warnings@, markdown));
}

/// A character of a paragraph as the flat dumps show it: line and
/// paragraph separators and object placeholders as spaces (the paragraph
/// is one line).
pub open spec fn plain_char(c: char) -> char {
    if c == '\u{2028}' || c == '\u{2029}' || c == '\u{fffc}' {
        ' '
    } else {
        c
    }
}

/// The runs' text, run after run, each character as `plain_char` shows it.
pub open spec fn runs_plain(runs: Seq<TextRun>) -> Seq<char>
    decreases runs.len(),
{
    if runs.len() == 0 {
        Seq::empty()
    } else {
        runs_plain(runs.drop_last()) + runs.last().text@.map_values(|c: char| plain_char(c))
    }
}

/// Unicode white space.
pub open spec fn is_white(c: char) -> bool {
    let u = c as u32;
    (9 <= u && u <= 13) || u == 32 || u == 0x85 || u == 0xa0 || u == 0x1680 || (0x2000 <= u && u <= 0x200a) || u
        == 0x2028 || u == 0x2029 || u == 0x202f || u == 0x205f || u == 0x3000
}

/// `s` without its trailing white space.
pub open spec fn trim_end_spec(s: Seq<char>) -> Seq<char>
    decreases s.len(),
{
    if s.len() > 0 && is_white(s.last()) {
        trim_end_spec(s.drop_last())
    } else {
        s
    }
}

/// A paragraph as one line of plain text.
pub open spec fn para_plain_spec(p: Paragraph) -> Seq<char> {
    trim_end_spec(runs_plain(p.runs@))
}

fn is_white_exec(c: char) -> (b: bool)
    ensures
        b == is_white(c),
{
    let u = c as u32;
    (9 <= u && u <= 13) || u == 32 || u == 0x85 || u == 0xa0 || u == 0x1680 || (0x2000 <= u && u <= 0x200a) || u
        == 0x2028 || u == 0x2029 || u == 0x202f || u == 0x205f || u == 0x3000
}

/// A paragraph as one line of plain text (see `para_plain_spec`).
pub fn para_plain(p: &Paragraph) -> (r: String)
    ensures
        r@ == para_plain_spec(*p),
{
    let mut v: Vec<char> = Vec::new();
    let mut i: usize = 0;
    while i < p.runs.len()
        invariant
            i <= p.runs@.len(),
            v@ == runs_plain(p.runs@.take(i as int)),
        decreases p.runs@.len() - i,
    {
        assert(p.runs@.take(i + 1).drop_last() =~= p.runs@.take(i as int));
        let ghost start = v@;
        let cs = chars_of(p.runs[i].text.as_str());
        let mut j: usize = 0;
        while j < cs.len()
            invariant
                j <= cs@.len(),
                v@ == start + cs@.take(j as int).map_values(|c: char| plain_char(c)),
            decreases cs@.len() - j,
        {
            let c = cs[j];
            let d = if c == '\u{2028}' || c == '\u{2029}' || c == '\u{fffc}' {
                ' '
            } else {
                c
            };
            v.push(d);
            assert(cs@.take(j + 1).map_values(|c: char| plain_char(c)) =~= cs@.take(j as int).map_values(
                |c: char| plain_char(c),
            ).push(d));
            j = j + 1;
        }
        assert(cs@.take(j as int) =~= p.runs@[i as int].text@);
        i = i + 1;
    }
    assert(p.runs@.take(i as int) =~= p.runs@);
    let ghost full = v@;
    let mut n: usize = v.len();
    assert(full.take(n as int) =~= full);
    while n > 0 && is_white_exec(v[n - 1])
        invariant
            n <= v@.len(),
            v@ == full,
            trim_end_spec(full) == trim_end_spec(full.take(n as int)),
        decreases n,
    {
        assert(full.take(n as int).drop_last() =~= full.take(n - 1));
        n = n - 1;
    }
    let mut out = String::new();
    let mut k: usize = 0;
    while k < n
        invariant
            k <= n <= v@.len(),
            out@ == v@.take(k as int),
        decreases n - k,
    {
        push_char(&mut out, v[k]);
        assert(v@.take(k + 1) =~= v@.take(k as int).push(v@[k as int]));
        k = k + 1;
    }
    proof {
        if n > 0 {
            assert(!is_white(full.take(n as int).last()));
        }
    }
    out
}

/// The non-empty lines of the paragraphs, joined by newlines.
pub open spec fn styled_plain_spec(ps: Seq<Paragraph>) -> Seq<char>
    decreases ps.len(),
{
    if ps.len() == 0 {
        Seq::empty()
    } else {
        let prev = styled_plain_spec(ps.drop_last());
        let l = para_plain_spec(ps.last());
        if l.len() == 0 {
            prev
        } else if prev.len() == 0 {
            l
        } else {
            prev + "\n"@ + l
        }
    }
}

/// A text's paragraphs as lines joined by newlines, empty lines left out.
pub fn styled_plain(t: &ExtractedText) -> (r: String)
    ensures
        r@ == styled_plain_spec(t.paragraphs@),
{
    let mut out = String::new();
    let mut i: usize = 0;
    while i < t.paragraphs.len()
        invariant
            i <= t.paragraphs@.len(),
            out@ == styled_plain_spec(t.paragraphs@.take(i as int)),
        decreases t.paragraphs@.len() - i,
    {
        assert(t.paragraphs@.take(i + 1).drop_last() =~= t.paragraphs@.take(i as int));
        let l = para_plain(&t.paragraphs[i]);
        if !l.as_str().is_empty() {
            if !out.as_str().is_empty() {
                push_str(&mut out, "\n");
            }
            push_str(&mut out, l.as_str());
        }
        i = i + 1;
    }
    assert(t.paragraphs@.take(i as int) =~= t.paragraphs@);
    out
}

/// The non-empty lines of the paragraphs, each followed by `sep`.
pub open spec fn lines_spec(ps: Seq<Paragraph>, sep: Seq<char>) -> Seq<char>
    decreases ps.len(),
{
    if ps.len() == 0 {
        Seq::empty()
    } else {
        let l = para_plain_spec(ps.last());
        lines_spec(ps.drop_last(), sep) + if l.len() == 0 {
            Seq::empty()
        } else {
            l + sep
        }
    }
}

fn push_lines(out: &mut String, ps: &Vec<Paragraph>, sep: &str)
    ensures
        final(out)@ == old(out)@ + lines_spec(ps@, sep@),
{
    let ghost start = out@;
    let mut i: usize = 0;
    assert(start + lines_spec(ps@.take(0), sep@) =~= start);
    while i < ps.len()
        invariant
            i <= ps@.len(),
            out@ == start + lines_spec(ps@.take(i as int), sep@),
        decreases ps@.len() - i,
    {
        assert(ps@.take(i + 1).drop_last() =~= ps@.take(i as int));
        let l = para_plain(&ps[i]);
        let ghost before = out@;
        if !l.as_str().is_empty() {
            push_str(out, l.as_str());
            push_str(out, sep);
        }
        assert(out@ =~= start + lines_spec(ps@.take(i + 1), sep@));
        i = i + 1;
    }
    assert(ps@.take(i as int) =~= ps@);
}


/// The flavor as the plain dump names it.
pub open spec fn flavor_text(f: PagesFlavor) -> Seq<char> {
    match f {
        PagesFlavor::WordProcessing => "WordProcessing"@,
        PagesFlavor::PageLayout => "PageLayout"@,
    }
}

/// The flavor as the markdown dump names it.
pub open spec fn flavor_md(f: PagesFlavor) -> Seq<char> {
    match f {
        PagesFlavor::WordProcessing => "word-processing"@,
        PagesFlavor::PageLayout => "page-layout"@,
    }
}

/// A word-processing body's lines, each followed by `sep`; nothing for a
/// page-layout document or one without a body.
pub open spec fn body_lines(d: PagesDocument, sep: Seq<char>) -> Seq<char> {
    if d.flavor == PagesFlavor::WordProcessing {
        match d.body {
            Some(x) => lines_spec(x.paragraphs@, sep),
            None => Seq::empty(),
        }
    } else {
        Seq::empty()
    }
}

/// A Pages document as plain text: a heading line, then its body's lines.
pub open spec fn pages_text_spec(d: PagesDocument) -> Seq<char> {
    "Pages document ("@ + flavor_text(d.flavor) + ")\n"@ + body_lines(d, "\n"@)
}

/// Footnotes as markdown lines: the number of the paragraph holding the
/// mark (counting from 1) and the footnote's text.
pub open spec fn footnote_lines(fs: Seq<Footnote>) -> Seq<char>
    decreases fs.len(),
{
    if fs.len() == 0 {
        Seq::empty()
    } else {
        footnote_lines(fs.drop_last()) + "^"@ + dec((fs.last().anchor_paragraph_index + 1) as nat) + ": "@ + styled_plain_spec(
            fs.last().text.paragraphs@,
        ) + "\n\n"@
    }
}

/// A word-processing document's footnotes after a rule; nothing without.
pub open spec fn footnotes_md(d: PagesDocument) -> Seq<char> {
    if d.flavor == PagesFlavor::WordProcessing && d.footnotes@.len() > 0 {
        "---\n\n"@ + footnote_lines(d.footnotes@)
    } else {
        Seq::empty()
    }
}

/// A Pages document as markdown: a title, then its body's paragraphs, then
/// its footnotes.
pub open spec fn pages_md_spec(d: PagesDocument) -> Seq<char> {
    "# Pages Document ("@ + flavor_md(d.flavor) + ")\n\n"@ + body_lines(d, "\n\n"@) + footnotes_md(d)
}

fn push_footnotes(out: &mut String, fs: &Vec<Footnote>)
    ensures
        final(out)@ == old(out)@ + footnote_lines(fs@),
{
    let ghost start = out@;
    let mut i: usize = 0;
    assert(start + footnote_lines(fs@.take(0)) =~= start);
    while i < fs.len()
        invariant
            i <= fs@.len(),
            out@ == start + footnote_lines(fs@.take(i as int)),
        decreases fs@.len() - i,
    {
        assert(fs@.take(i + 1).drop_last() =~= fs@.take(i as int));
        let f = &fs[i];
        push_str(out, "^");
        push_decimal(out, f.anchor_paragraph_index as u64 + 1);
        push_str(out, ": ");
        let t = styled_plain(&f.text);
        push_str(out, t.as_str());
        push_str(out, "\n\n");
        assert(out@ =~= start + footnote_lines(fs@.take(i + 1)));
        i = i + 1;
    }
    assert(fs@.take(i as int) =~= fs@);
}

fn push_pages(out: &mut String, d: &PagesDocument, markdown: bool)
    ensures
        final(out)@ == old(out)@ + if markdown {
            pages_md_spec(*d)
        } else {
            pages_text_spec(*d)
        },
{
    let ghost start = out@;
    if markdown {
        push_str(out, "# Pages Document (");
        match d.flavor {
            PagesFlavor::WordProcessing => push_str(out, "word-processing"),
            PagesFlavor::PageLayout => push_str(out, "page-layout"),
        }
        push_str(out, ")\n\n");
    } else {
        push_str(out, "Pages document (");
        match d.flavor {
            PagesFlavor::WordProcessing => push_str(out, "WordProcessing"),
            PagesFlavor::PageLayout => push_str(out, "PageLayout"),
        }
        push_str(out, ")\n");
    }
    let ghost head = out@;
    match d.flavor {
        PagesFlavor::WordProcessing => match &d.body {
            Some(x) => {
                if markdown {
                    push_lines(out, &x.paragraphs, "\n\n");
                } else {
                    push_lines(out, &x.paragraphs, "\n");
                }
            },
            None => {},
        },
        PagesFlavor::PageLayout => {},
    }
    if markdown && d.flavor == PagesFlavor::WordProcessing && d.footnotes.len() > 0 {
        push_str(out, "---\n\n");
        push_footnotes(out, &d.footnotes);
    }
    assert(out@ =~= start + if markdown {
        pages_md_spec(*d)
    } else {
        pages_text_spec(*d)
    });
}

/// A table's name as the dumps show it ("Table" when it has none).
pub open spec fn table_name(t: TableModel) -> Seq<char> {
    match t.name {
        Some(n) => n@,
        None => "Table"@,
    }
}

/// A table in the plain dump: its name and size, twice (as a heading and
/// as the grid's caption).
pub open spec fn table_text(t: TableModel) -> Seq<char> {
    "\n"@ + table_name(t) + " ("@ + dec(t.row_count as nat) + " rows × "@ + dec(t.column_count as nat) + " cols)\n"@
        + table_name(t) + " ("@ + dec(t.row_count as nat) + " rows × "@ + dec(t.column_count as nat)
        + " columns)\n\n\n"@
}

/// A table in the markdown dump: its name in bold and its size.
pub open spec fn table_md(t: TableModel) -> Seq<char> {
    "**"@ + table_name(t) + "** ("@ + dec(t.row_count as nat) + " rows × "@ + dec(t.column_count as nat)
        + " columns)\n\n\n"@
}

/// The read tables of a sheet, in order.
pub open spec fn tables_dump(ts: Seq<SheetTable>, markdown: bool) -> Seq<char>
    decreases ts.len(),
{
    if ts.len() == 0 {
        Seq::empty()
    } else {
        tables_dump(ts.drop_last(), markdown) + match ts.last().table {
            Some(t) => if markdown {
                table_md(t)
            } else {
                table_text(t)
            },
            None => Seq::empty(),
        }
    }
}

/// A sheet: a heading with its name, then its tables.
pub open spec fn sheet_dump(s: SheetModel, markdown: bool) -> Seq<char> {
    (if markdown {
        "## "@ + escape_md_spec(s.name@) + "\n\n"@
    } else {
        "\n=== Sheet: "@ + s.name@ + " ===\n"@
    }) + tables_dump(s.tables@, markdown)
}

/// The sheets, in order.
pub open spec fn sheets_dump(ss: Seq<SheetModel>, markdown: bool) -> Seq<char>
    decreases ss.len(),
{
    if ss.len() == 0 {
        Seq::empty()
    } else {
        sheets_dump(ss.drop_last(), markdown) + sheet_dump(ss.last(), markdown)
    }
}

/// A Numbers document: a heading, then its sheets.
pub open spec fn numbers_dump(d: NumbersDocument, markdown: bool) -> Seq<char> {
    (if markdown {
        "# Numbers Document\n\n"@
    } else {
        "Numbers document — "@ + dec(d.sheets@.len()) + " sheet(s)\n"@
    }) + sheets_dump(d.sheets@, markdown)
}

fn push_table(out: &mut String, t: &TableModel, markdown: bool)
    ensures
        final(out)@ == old(out)@ + if markdown {
            table_md(*t)
        } else {
            table_text(*t)
        },
{
    let ghost start = out@;
    let name = match &t.name {
        Some(n) => n.as_str(),
        None => "Table",
    };
    assert(name@ == table_name(*t));
    if markdown {
        push_str(out, "**");
        push_str(out, name);
        push_str(out, "** (");
        push_decimal(out, t.row_count as u64);
        push_str(out, " rows × ");
        push_decimal(out, t.column_count as u64);
        push_str(out, " columns)\n\n\n");
    } else {
        push_str(out, "\n");
        push_str(out, name);
        push_str(out, " (");
        push_decimal(out, t.row_count as u64);
        push_str(out, " rows × ");
        push_decimal(out, t.column_count as u64);
        push_str(out, " cols)\n");
        push_str(out, name);
        push_str(out, " (");
        push_decimal(out, t.row_count as u64);
        push_str(out, " rows × ");
        push_decimal(out, t.column_count as u64);
        push_str(out, " columns)\n\n\n");
    }
    assert(out@ =~= start + if markdown {
        table_md(*t)
    } else {
        table_text(*t)
    });
}

fn push_sheet(out: &mut String, s: &SheetModel, markdown: bool)
    ensures
        final(out)@ == old(out)@ + sheet_dump(*s, markdown),
{
    let ghost start = out@;
    if markdown {
        push_str(out, "## ");
        let e = escape_md(s.name.as_str());
        push_str(out, e.as_str());
        push_str(out, "\n\n");
    } else {
        push_str(out, "\n=== Sheet: ");
        push_str(out, s.name.as_str());
        push_str(out, " ===\n");
    }
    let ghost head = out@;
    let mut i: usize = 0;
    assert(head + tables_dump(s.tables@.take(0), markdown) =~= head);
    while i < s.tables.len()
        invariant
            i <= s.tables@.len(),
            out@ == head + tables_dump(s.tables@.take(i as int), markdown),
        decreases s.tables@.len() - i,
    {
        assert(s.tables@.take(i + 1).drop_last() =~= s.tables@.take(i as int));
        match &s.tables[i].table {
            Some(t) => push_table(out, t, markdown),
            None => {},
        }
        assert(out@ =~= head + tables_dump(s.tables@.take(i + 1), markdown));
        i = i + 1;
    }
    assert(s.tables@.take(i as int) =~= s.tables@);
    assert(out@ =~= start + sheet_dump(*s, markdown));
}

fn push_numbers(out: &mut String, d: &NumbersDocument, markdown: bool)
    ensures
        final(out)@ == old(out)@ + numbers_dump(*d, markdown),
{
    let ghost start = out@;
    if markdown {
        push_str(out, "# Numbers Document\n\n");
    } else {
        push_str(out, "Numbers document — ");
        push_decimal(out, d.sheets.len() as u64);
        push_str(out, " sheet(s)\n");
    }
    let ghost head = out@;
    let mut i: usize = 0;
    assert(head + sheets_dump(d.sheets@.take(0), markdown) =~= head);
    while i < d.sheets.len()
        invariant
            i <= d.sheets@.len(),
            out@ == head + sheets_dump(d.sheets@.take(i as int), markdown),
        decreases d.sheets@.len() - i,
    {
        assert(d.sheets@.take(i + 1).drop_last() =~= d.sheets@.take(i as int));
        push_sheet(out, &d.sheets[i], markdown);
        assert(out@ =~= head + sheets_dump(d.sheets@.take(i + 1), markdown));
        i = i + 1;
    }
    assert(d.sheets@.take(i as int) =~= d.sheets@);
    assert(out@ =~= start + numbers_dump(*d, markdown));
}

/// A slide's notes as the dumps show them: nothing when it has none or
/// they hold no text.
pub open spec fn notes_dump(s: SlideModel, markdown: bool) -> Seq<char> {
    match s.notes {
        Some(x) => if styled_plain_spec(x.paragraphs@).len() == 0 {
            Seq::empty()
        } else if markdown {
            "> Notes: "@ + styled_plain_spec(x.paragraphs@) + "\n\n"@
        } else {
            "Notes: "@ + styled_plain_spec(x.paragraphs@) + "\n"@
        },
        None => Seq::empty(),
    }
}

/// The mark of a skipped slide.
pub open spec fn skipped_dump(s: SlideModel, markdown: bool) -> Seq<char> {
    if s.skipped == Some(true) {
        if markdown {
            "*(skipped slide)*\n\n"@
        } else {
            "[skipped]\n"@
        }
    } else {
        Seq::empty()
    }
}

/// Slide number `n` (counting from 1): a heading, the mark of a skipped
/// slide, then its notes.
pub open spec fn slide_dump(s: SlideModel, n: nat, markdown: bool) -> Seq<char> {
    (if markdown {
        "## Slide "@ + dec(n) + "\n\n"@
    } else {
        "\n--- Slide "@ + dec(n) + " ---\n"@
    }) + skipped_dump(s, markdown) + notes_dump(s, markdown)
}

/// The slides, numbered from 1.
pub open spec fn slides_dump(ss: Seq<SlideModel>, markdown: bool) -> Seq<char>
    decreases ss.len(),
{
    if ss.len() == 0 {
        Seq::empty()
    } else {
        slides_dump(ss.drop_last(), markdown) + slide_dump(ss.last(), ss.len(), markdown)
    }
}

/// A Keynote show: a heading, then its slides.
pub open spec fn keynote_dump(d: KeynoteDocument, markdown: bool) -> Seq<char> {
    (if markdown {
        "# Keynote Show\n\n"@
    } else {
        "Keynote show — "@ + dec(d.slides@.len()) + " slides\n"@
    }) + slides_dump(d.slides@, markdown)
}

fn push_slide(out: &mut String, s: &SlideModel, n: u64, markdown: bool)
    ensures
        final(out)@ == old(out)@ + slide_dump(*s, n as nat, markdown),
{
    let ghost start = out@;
    if markdown {
        push_str(out, "## Slide ");
        push_decimal(out, n);
        push_str(out, "\n\n");
    } else {
        push_str(out, "\n--- Slide ");
        push_decimal(out, n);
        push_str(out, " ---\n");
    }
    if s.skipped == Some(true) {
        if markdown {
            push_str(out, "*(skipped slide)*\n\n");
        } else {
            push_str(out, "[skipped]\n");
        }
    }
    match &s.notes {
        Some(x) => {
            let t = styled_plain(x);
            if !t.as_str().is_empty() {
                if markdown {
                    push_str(out, "> Notes: ");
                    push_str(out, t.as_str());
                    push_str(out, "\n\n");
                } else {
                    push_str(out, "Notes: ");
                    push_str(out, t.as_str());
                    push_str(out, "\n");
                }
            }
        },
        None => {},
    }
    assert(out@ =~= start + slide_dump(*s, n as nat, markdown));
}

fn push_keynote(out: &mut String, d: &KeynoteDocument, markdown: bool)
    ensures
        final(out)@ == old(out)@ + keynote_dump(*d, markdown),
{
    let ghost start = out@;
    if markdown {
        push_str(out, "# Keynote Show\n\n");
    } else {
        push_str(out, "Keynote show — ");
        push_decimal(out, d.slides.len() as u64);
        push_str(out, " slides\n");
    }
    let ghost head = out@;
    let mut i: usize = 0;
    assert(head + slides_dump(d.slides@.take(0), markdown) =~= head);
    while i < d.slides.len()
        invariant
            i <= d.slides@.len(),
            out@ == head + slides_dump(d.slides@.take(i as int), markdown),
        decreases d.slides@.len() - i,
    {
        assert(d.slides@.take(i + 1).drop_last() =~= d.slides@.take(i as int));
        push_slide(out, &d.slides[i], (i + 1) as u64, markdown);
        assert(out@ =~= head + slides_dump(d.slides@.take(i + 1), markdown));
        i = i + 1;
    }
    assert(d.slides@.take(i as int) =~= d.slides@);
    assert(out@ =~= start + keynote_dump(*d, markdown));
}

/// A document as the dumps show it.
pub open spec fn document_dump(d: Document, markdown: bool) -> Seq<char> {
    match d {
        Document::Pages(p) => if markdown {
            pages_md_spec(p)
        } else {
            pages_text_spec(p)
        },
        Document::Numbers(n) => numbers_dump(n, markdown),
        Document::Keynote(k) => keynote_dump(k, markdown),
    }
}

/// The plain-text rendering of a converted document: per app, a heading;
/// a Pages body's non-empty paragraphs, one per line; a Numbers sheet's
/// name and the name and size of each of its tables; a Keynote slide's
/// number and presenter notes. Then the warnings note.
pub fn to_text(e: &Envelope) -> (r: String)
    ensures
        r@ == document_dump(e.document, false) + warnings_block_spec(e.warnings@, false),
{
    let mut out = String::new();
    match &e.document {
        Document::Pages(p) => push_pages(&mut out, p, false),
        Document::Numbers(n) => push_numbers(&mut out, n, false),
        Document::Keynote(k) => push_keynote(&mut out, k, false),
    }
    warnings_block(e.warnings.as_slice(), &mut out, false);
    out
}

/// The markdown rendering of a converted document: as `to_text`, with
/// markdown headings, bold table names, quoted notes, and the warnings
/// note quoted with the first warning's message.
pub fn to_markdown(e: &Envelope) -> (r: String)
    ensures
        r@ == document_dump(e.document, true) + warnings_block_spec(e.warnings@, true),
{
    let mut out = String::new();
    match &e.document {
        Document::Pages(p) => push_pages(&mut out, p, true),
        Document::Numbers(n) => push_numbers(&mut out, n, true),
        Document::Keynote(k) => push_keynote(&mut out, k, true),
    }
    warnings_block(e.warnings.as_slice(), &mut out, true);
    out
}

} // verus!
