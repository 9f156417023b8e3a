//! Chart type codes.
use vstd::prelude::*;
use std::collections::HashSet;
use vstd::set_lib::lemma_len_subset;
use crate::model::{ChartType, ChartNumberFormat, ChartNumberKind};
use crate::pb::{Msg, WireValue, vget, vvarint, vmsg, vall, nested_all, deep_ref_spec, refs_of, lemma_vall};
use crate::wire::{WireSpec, fields_view, value_view};
use crate::loader::{Loaded, RecordView, loaded_view};
use crate::ctx::{loaded_msg, vstring};
use crate::text_util::{utf8_lossy, string_from_utf8_lossy, chars_of};

verus! {

/// `TSCH.ChartArchive.chart_type` → (family, 3-D). Multi-data variants
/// (20/21/23/24) map onto their base family; mixed, two-axis and unknown
/// codes are `Other`, still 3-D for the 3-D code range.
pub open spec fn chart_type_spec(v: u64) -> (ChartType, bool) {
    if v == 1 || v == 20 {
        (ChartType::Column, false)
    } else if v == 2 || v == 21 {
        (ChartType::Bar, false)
    } else if v == 3 {
        (ChartType::Line, false)
    } else if v == 4 {
        (ChartType::Area, false)
    } else if v == 5 {
        (ChartType::Pie, false)
    } else if v == 6 {
        (ChartType::StackedColumn, false)
    } else if v == 7 {
        (ChartType::StackedBar, false)
    } else if v == 8 {
        (ChartType::StackedArea, false)
    } else if v == 9 || v == 23 {
        (ChartType::Scatter, false)
    } else if v == 12 {
        (ChartType::Column, true)
    } else if v == 13 {
        (ChartType::Bar, true)
    } else if v == 14 {
        (ChartType::Line, true)
    } else if v == 15 {
        (ChartType::Area, true)
    } else if v == 16 {
        (ChartType::Pie, true)
    } else if v == 17 {
        (ChartType::StackedColumn, true)
    } else if v == 18 {
        (ChartType::StackedBar, true)
    } else if v == 19 {
        (ChartType::StackedArea, true)
    } else if v == 22 || v == 24 {
        (ChartType::Bubble, false)
    } else if v == 25 {
        (ChartType::Donut, false)
    } else if v == 26 {
        (ChartType::Donut, true)
    } else if v == 27 {
        (ChartType::Radar, false)
    } else {
        (ChartType::Other, (12 <= v <= 19) || v == 26)
    }
}

/// Chart family and 3-D flag of a chart type code.
pub fn chart_type(v: u64) -> (r: (ChartType, bool))
    ensures
        r == chart_type_spec(v),
{
    match v {
        1 => (ChartType::Column, false),
        2 => (ChartType::Bar, false),
        3 => (ChartType::Line, false),
        4 => (ChartType::Area, false),
        5 => (ChartType::Pie, false),
        6 => (ChartType::StackedColumn, false),
        7 => (ChartType::StackedBar, false),
        8 => (ChartType::StackedArea, false),
        9 => (ChartType::Scatter, false),
        12 => (ChartType::Column, true),
        13 => (ChartType::Bar, true),
        14 => (ChartType::Line, true),
        15 => (ChartType::Area, true),
        16 => (ChartType::Pie, true),
        17 => (ChartType::StackedColumn, true),
        18 => (ChartType::StackedBar, true),
        19 => (ChartType::StackedArea, true),
        20 => (ChartType::Column, false),
        21 => (ChartType::Bar, false),
        22 => (ChartType::Bubble, false),
        23 => (ChartType::Scatter, false),
        24 => (ChartType::Bubble, false),
        25 => (ChartType::Donut, false),
        26 => (ChartType::Donut, true),
        27 => (ChartType::Radar, false),
        _ => (ChartType::Other, (12 <= v && v <= 19) || v == 26),
    }
}

} // verus!

verus! {

broadcast use vstd::std_specs::hash::group_hash_axioms;

/// The number kind of a format-type id: 257 currency, 258 percent, any
/// other a plain number.
pub open spec fn number_kind(v: Option<u64>) -> ChartNumberKind {
    match v {
        Some(257) => ChartNumberKind::Currency,
        Some(258) => ChartNumberKind::Percent,
        _ => ChartNumberKind::Number,
    }
}

/// A decimal-place count; above 20 it is the automatic setting, no count.
pub open spec fn decimals_of(v: Option<u64>) -> Option<u32> {
    match v {
        Some(d) => if d <= 20 {
            Some(d as u32)
        } else {
            None
        },
        None => None,
    }
}

/// The chart-side number format of a format struct: type (field 1),
/// decimal places (field 2), currency code (field 3, an empty one absent),
/// thousands separator (field 5).
pub fn number_format(f: &Msg) -> (r: ChartNumberFormat)
    ensures
        r.kind == number_kind(vvarint(fields_view(f.fields@), 1)),
        r.decimals == decimals_of(vvarint(fields_view(f.fields@), 2)),
        r.thousands_separator == (vvarint(fields_view(f.fields@), 5) matches Some(v) && v != 0),
        match vstring(fields_view(f.fields@), 3) {
            Some(c) => if c.len() > 0 {
                r.currency_code matches Some(x) && x@ == c
            } else {
                r.currency_code is None
            },
            None => r.currency_code is None,
        },
{
    proof {
        lemma_vall(f.fields@, 1);
        lemma_vall(f.fields@, 2);
        lemma_vall(f.fields@, 3);
        lemma_vall(f.fields@, 5);
    }
    let kind = match f.varint(1) {
        Some(257) => ChartNumberKind::Currency,
        Some(258) => ChartNumberKind::Percent,
        _ => ChartNumberKind::Number,
    };
    let decimals = match f.varint(2) {
        Some(d) => if d <= 20 {
            Some(d as u32)
        } else {
            None
        },
        None => None,
    };
    let thousands_separator = match f.boolean(5) {
        Some(b) => b,
        None => false,
    };
    let currency_code = match f.string(3) {
        Some(c) => {
            let n = chars_of(c.as_str()).len();
            if n > 0 {
                Some(c)
            } else {
                None
            }
        },
        None => None,
    };
    ChartNumberFormat { kind, decimals, thousands_separator, currency_code }
}

/// The payloads that are bytes, each read as UTF-8 with ill-formed
/// sequences replaced.
pub open spec fn byte_strings(vs: Seq<WireSpec>) -> Seq<Seq<char>>
    decreases vs.len(),
{
    if vs.len() == 0 {
        Seq::empty()
    } else {
        match vs.last() {
            WireSpec::Bytes(b) => byte_strings(vs.drop_last()).push(utf8_lossy(b)),
            _ => byte_strings(vs.drop_last()),
        }
    }
}

/// Every occurrence of a string field, in order.
pub fn strings(m: &Msg, field: u32) -> (r: Vec<String>)
    ensures
        r@.len() == byte_strings(vall(fields_view(m.fields@), field)).len(),
        forall|i: int|
            0 <= i < r@.len() ==> (#[trigger] r@[i])@ == byte_strings(
                vall(fields_view(m.fields@), field),
            )[i],
{
    let occurrences = m.all(field);
    proof {
        lemma_vall(m.fields@, field);
    }
    let ghost vs = vall(fields_view(m.fields@), field);
    let mut out: Vec<String> = Vec::new();
    let mut i: usize = 0;
    while i < occurrences.len()
        invariant
            i <= occurrences@.len(),
            occurrences@.len() == vs.len(),
            forall|j: int| 0 <= j < occurrences@.len() ==> value_view(*#[trigger] occurrences@[j]) == vs[j],
            out@.len() == byte_strings(vs.take(i as int)).len(),
            forall|j: int| 0 <= j < out@.len() ==> (#[trigger] out@[j])@ == byte_strings(vs.take(i as int))[j],
        decreases occurrences@.len() - i,
    {
        proof {
            assert(vs.take(i + 1).drop_last() =~= vs.take(i as int));
            assert(vs.take(i + 1).last() == vs[i as int]);
        }
        let ghost before = out@;
        match occurrences[i] {
            WireValue::Bytes(b) => {
                out.push(string_from_utf8_lossy(b.as_slice()));
                proof {
                    assert forall|j: int| 0 <= j < out@.len() implies (#[trigger] out@[j])@ == byte_strings(vs.take(i + 1))[j] by {
                        if j < before.len() {
                            assert(out@[j] == before[j]);
                        }
                    }
                }
            },
            _ => {},
        }
        i = i + 1;
    }
    assert(vs.take(i as int) =~= vs);
    out
}

/// The first slot of `slots`, in order, that the entry sets.
pub open spec fn first_slot(e: Seq<(u32, WireSpec)>, slots: Seq<u32>) -> Option<u64>
    decreases slots.len(),
{
    if slots.len() == 0 {
        None
    } else {
        match vvarint(e, slots[0]) {
            Some(v) => Some(v),
            None => first_slot(e, slots.drop_first()),
        }
    }
}

/// The slot value a style sets itself (in its properties, field 10000).
pub open spec fn style_slot(m: Seq<(u32, WireSpec)>, slots: Seq<u32>) -> Option<u64> {
    match vmsg(m, 10000) {
        Some(e) => first_slot(e, slots),
        None => None,
    }
}

/// The parent a style inherits from: the reference in field 3 of its
/// super archive (field 1).
pub open spec fn style_parent(m: Seq<(u32, WireSpec)>) -> Option<u64> {
    match vmsg(m, 1) {
        Some(sup) => match vget(sup, 3) {
            Some(v) => deep_ref_spec(v),
            None => None,
        },
        None => None,
    }
}

/// The first slot value along the parent chain from style `sid`, the
/// styles in `seen` already passed: the chain stops at a style met before
/// or not loaded, or one without a parent.
pub open spec fn chain_first(
    records: Map<u64, RecordView>,
    sid: u64,
    seen: Set<u64>,
    slots: Seq<u32>,
) -> Option<u64>
    decreases records.dom().len() - seen.len(),
    when seen.subset_of(records.dom()) && records.dom().finite()
{
    if seen.contains(sid) {
        None
    } else {
        match loaded_msg(records, sid) {
            None => None,
            Some(m) => match style_slot(m, slots) {
                Some(v) => Some(v),
                None => match style_parent(m) {
                    Some(p) => {
                        proof {
                            lemma_len_subset(seen, records.dom());
                            lemma_len_subset(seen.insert(sid), records.dom());
                        }
                        chain_first(records, p, seen.insert(sid), slots)
                    },
                    None => None,
                },
            },
        }
    }
}

/// The style references of a series style list's entries (field 2 each).
pub open spec fn entry_refs(es: Seq<Seq<(u32, WireSpec)>>) -> Seq<u64>
    decreases es.len(),
{
    if es.len() == 0 {
        Seq::empty()
    } else {
        match vget(es.last(), 2) {
            Some(v) => match deep_ref_spec(v) {
                Some(id) => entry_refs(es.drop_last()).push(id),
                None => entry_refs(es.drop_last()),
            },
            None => entry_refs(es.drop_last()),
        }
    }
}

/// The series styles a chart names: its private series styles (field 18,
/// entries in field 2) before its theme series styles (field 17).
pub open spec fn style_starts(ca: Seq<(u32, WireSpec)>) -> Seq<u64> {
    (match vmsg(ca, 18) {
        Some(sp) => entry_refs(nested_all(vall(sp, 2))),
        None => Seq::empty(),
    }) + refs_of(vall(ca, 17))
}

/// The first slot value found along the chain of any of the styles, in
/// order.
pub open spec fn starts_first(records: Map<u64, RecordView>, starts: Seq<u64>, slots: Seq<u32>) -> Option<
    u64,
>
    decreases starts.len(),
{
    if starts.len() == 0 {
        None
    } else {
        match chain_first(records, starts[0], Set::empty(), slots) {
            Some(v) => Some(v),
            None => starts_first(records, starts.drop_first(), slots),
        }
    }
}

fn first_slot_exec(e: &Msg, slots: &[u32]) -> (r: Option<u64>)
    ensures
        r == first_slot(fields_view(e.fields@), slots@),
{
    let mut j: usize = 0;
    assert(slots@.subrange(0, slots@.len() as int) =~= slots@);
    while j < slots.len()
        invariant
            j <= slots@.len(),
            first_slot(fields_view(e.fields@), slots@) == first_slot(
                fields_view(e.fields@),
                slots@.subrange(j as int, slots@.len() as int),
            ),
        decreases slots@.len() - j,
    {
        let f = slots[j];
        proof {
            lemma_vall(e.fields@, f);
            let rest = slots@.subrange(j as int, slots@.len() as int);
            assert(rest[0] == f);
            assert(rest.drop_first() =~= slots@.subrange(j + 1, slots@.len() as int));
        }
        match e.varint(f) {
            Some(v) => {
                return Some(v);
            },
            None => {},
        }
        j = j + 1;
    }
    None
}

/// The first slot value along the parent chain from one style.
fn chain_exec(loaded: &Loaded, start: u64, slots: &[u32]) -> (r: Option<u64>)
    ensures
        r == chain_first(loaded_view(*loaded).records, start, Set::empty(), slots@),
{
    let ghost records = loaded_view(*loaded).records;
    proof {
        assert(records.dom() =~= loaded.records@.dom());
        assert(loaded.records@.dom().finite());
    }
    let mut seen: HashSet<u64> = HashSet::new();
    let mut cur = start;
    loop
        invariant
            records == loaded_view(*loaded).records,
            records.dom().finite(),
            seen@.subset_of(records.dom()),
            chain_first(records, start, Set::empty(), slots@) == chain_first(records, cur, seen@, slots@),
        decreases records.dom().len() - seen@.len(),
    {
        let ghost before = seen@;
        proof {
            lemma_len_subset(before, records.dom());
        }
        if !seen.insert(cur) {
            return None;
        }
        let m = match loaded.msg(cur) {
            Some(m) => m,
            None => {
                return None;
            },
        };
        proof {
            lemma_vall(m.fields@, 10000);
            lemma_vall(m.fields@, 1);
            lemma_len_subset(seen@, records.dom());
        }
        match m.msg(10000) {
            Some(e) => {
                match first_slot_exec(&e, slots) {
                    Some(v) => {
                        return Some(v);
                    },
                    None => {},
                }
            },
            None => {},
        }
        match m.msg(1) {
            Some(sup) => {
                match sup.reference(3) {
                    Some(p) => {
                        cur = p;
                    },
                    None => {
                        return None;
                    },
                }
            },
            None => {
                return None;
            },
        }
    }
}

/// The first of `slots` set on a chart's series styles, private styles
/// (field 18) before theme styles (field 17), each followed along its
/// parent chain until a style repeats or is not loaded.
pub fn series_style_first(loaded: &Loaded, ca: &Msg, slots: &[u32]) -> (r: Option<u64>)
    ensures
        r == starts_first(loaded_view(*loaded).records, style_starts(fields_view(ca.fields@)), slots@),
{
    let ghost records = loaded_view(*loaded).records;
    let ghost cv = fields_view(ca.fields@);
    let mut starts: Vec<u64> = Vec::new();
    match ca.msg(18) {
        Some(sp) => {
            let es = sp.msgs(2);
            let ghost ev = nested_all(vall(fields_view(sp.fields@), 2));
            let mut i: usize = 0;
            assert(entry_refs(ev.take(0)) =~= Seq::<u64>::empty()) by {
                assert(ev.take(0) =~= Seq::<Seq<(u32, WireSpec)>>::empty());
            }
            while i < es.len()
                invariant
                    i <= es@.len(),
                    es@.len() == ev.len(),
                    forall|j: int| 0 <= j < es@.len() ==> fields_view(#[trigger] es@[j].fields@) == ev[j],
                    starts@ == entry_refs(ev.take(i as int)),
                decreases es@.len() - i,
            {
                proof {
                    assert(ev.take(i + 1).drop_last() =~= ev.take(i as int));
                    assert(ev.take(i + 1).last() == ev[i as int]);
                }
                match es[i].reference(2) {
                    Some(id) => {
                        starts.push(id);
                    },
                    None => {},
                }
                i = i + 1;
            }
            assert(ev.take(i as int) =~= ev);
        },
        None => {},
    }
    let ghost private = starts@;
    let theme = ca.references(17);
    let mut i: usize = 0;
    while i < theme.len()
        invariant
            i <= theme@.len(),
            starts@ == private + theme@.take(i as int),
        decreases theme@.len() - i,
    {
        starts.push(theme[i]);
        assert(theme@.take(i + 1) =~= theme@.take(i as int).push(theme@[i as int]));
        i = i + 1;
    }
    assert(theme@.take(i as int) =~= theme@);
    assert(starts@ == style_starts(cv));
    let mut k: usize = 0;
    assert(starts@.subrange(0, starts@.len() as int) =~= starts@);
    while k < starts.len()
        invariant
            k <= starts@.len(),
            records == loaded_view(*loaded).records,
            starts@ == style_starts(fields_view(ca.fields@)),
            starts_first(records, starts@, slots@) == starts_first(
                records,
                starts@.subrange(k as int, starts@.len() as int),
                slots@,
            ),
        decreases starts@.len() - k,
    {
        proof {
            let rest = starts@.subrange(k as int, starts@.len() as int);
            assert(rest[0] == starts@[k as int]);
            assert(rest.drop_first() =~= starts@.subrange(k + 1, starts@.len() as int));
        }
        match chain_exec(loaded, starts[k], slots) {
            Some(v) => {
                return Some(v);
            },
            None => {},
        }
        k = k + 1;
    }
    None
}

} // verus!

verus! {

/// Where a chart's data comes from: its inline grid when that gives series;
/// else a table, when the chart has a mediator (field 8); else the inline
/// grid, when there is one; else nowhere.
pub open spec fn data_status_spec(has_grid: bool, series_empty: bool, has_mediator: bool) -> crate::model::ChartDataStatus {
    if has_grid && !series_empty {
        crate::model::ChartDataStatus::Inline
    } else if has_mediator {
        crate::model::ChartDataStatus::TableBound
    } else if has_grid {
        crate::model::ChartDataStatus::Inline
    } else {
        crate::model::ChartDataStatus::Unavailable
    }
}

/// Where the data of chart archive `ca` comes from (see
/// `data_status_spec`), given whether its grid gave no series.
pub fn chart_data_status(ca: &Msg, series_empty: bool) -> (r: crate::model::ChartDataStatus)
    ensures
        r == data_status_spec(
            vmsg(fields_view(ca.fields@), 7) is Some,
            series_empty,
            crate::pb::vget(fields_view(ca.fields@), 8) is Some,
        ),
{
    proof {
        crate::pb::lemma_vall(ca.fields@, 8);
    }
    let has_grid = ca.msg(7).is_some();
    let has_mediator = ca.has(8);
    if has_grid && !series_empty {
        crate::model::ChartDataStatus::Inline
    } else if has_mediator {
        crate::model::ChartDataStatus::TableBound
    } else if has_grid {
        crate::model::ChartDataStatus::Inline
    } else {
        crate::model::ChartDataStatus::Unavailable
    }
}

/// The id a table-bound chart's data binding carries: `formula:` and the
/// first binding formula's id (the loaded mediator's field 3, its field 1,
/// its field 1; 0 when absent), else `mediator:` and the mediator id, else
/// `mediator` when the chart names none.
pub open spec fn binding_id(records: Map<u64, crate::loader::RecordView>, ca: Seq<(u32, WireSpec)>) -> Seq<char> {
    match crate::keynote::ref_of(ca, 8) {
        Some(mid) => match (match crate::ctx::loaded_msg(records, mid) {
            Some(mm) => match vmsg(mm, 3) {
                Some(fs) => vmsg(fs, 1),
                None => None,
            },
            None => None,
        }) {
            Some(f) => "formula:"@ + crate::text_util::dec(
                match vvarint(f, 1) {
                    Some(v) => v,
                    None => 0,
                } as nat,
            ),
            None => "mediator:"@ + crate::text_util::dec(mid as nat),
        },
        None => "mediator"@,
    }
}

/// The data binding of a chart bound to a table: its formula kept opaque
/// under the id `binding_id` gives.
pub fn chart_data_binding(loaded: &Loaded, ca: &Msg) -> (r: crate::model::TsceFormulaRef)
    ensures
        r.id@ == binding_id(crate::loader::loaded_view(*loaded).records, fields_view(ca.fields@)),
        r.status@ == "unparsed"@,
        r.source_text is None,
{
    let id = match ca.reference(8) {
        Some(mid) => {
            let f = match loaded.msg(mid) {
                Some(mm) => match mm.msg(3) {
                    Some(fs) => fs.msg(1),
                    None => None,
                },
                None => None,
            };
            match f {
                Some(f) => {
                    proof {
                        crate::pb::lemma_vall(f.fields@, 1);
                    }
                    let n = match f.varint(1) {
                        Some(v) => v,
                        None => 0,
                    };
                    let mut s = crate::text_util::owned("formula:");
                    crate::text_util::push_decimal(&mut s, n);
                    s
                },
                None => {
                    let mut s = crate::text_util::owned("mediator:");
                    crate::text_util::push_decimal(&mut s, mid);
                    s
                },
            }
        },
        None => crate::text_util::owned("mediator"),
    };
    crate::model::TsceFormulaRef::unparsed(id)
}

/// The chart families and their codes: a 2-D code `c` from 1 to 8 and
/// its 3-D code `c + 11` name the same family (column, bar, line, area,
/// pie, stacked column, stacked bar, stacked area), flat and 3-D; and a
/// code names the line family exactly when it is 3 or 14, the area family
/// exactly when it is 4 or 15, the column family exactly when it is 1, 12
/// or 20, the bar family exactly when it is 2, 13 or 21, and so on for
/// every family; the 3-D codes are 12 to 19 and 26.
pub proof fn lemma_chart_families(v: u64)
    ensures
        1 <= v <= 8 ==> chart_type_spec(v).0 == chart_type_spec((v + 11) as u64).0 && !chart_type_spec(v).1
            && chart_type_spec((v + 11) as u64).1,
        (chart_type_spec(v).0 == ChartType::Line) == (v == 3 || v == 14),
        (chart_type_spec(v).0 == ChartType::Area) == (v == 4 || v == 15),
        (chart_type_spec(v).0 == ChartType::Column) == (v == 1 || v == 12 || v == 20),
        (chart_type_spec(v).0 == ChartType::Bar) == (v == 2 || v == 13 || v == 21),
        (chart_type_spec(v).0 == ChartType::Pie) == (v == 5 || v == 16),
        (chart_type_spec(v).0 == ChartType::StackedColumn) == (v == 6 || v == 17),
        (chart_type_spec(v).0 == ChartType::StackedBar) == (v == 7 || v == 18),
        (chart_type_spec(v).0 == ChartType::StackedArea) == (v == 8 || v == 19),
        (chart_type_spec(v).0 == ChartType::Scatter) == (v == 9 || v == 23),
        (chart_type_spec(v).0 == ChartType::Bubble) == (v == 22 || v == 24),
        (chart_type_spec(v).0 == ChartType::Donut) == (v == 25 || v == 26),
        (chart_type_spec(v).0 == ChartType::Radar) == (v == 27),
        chart_type_spec(v).1 == (12 <= v <= 19 || v == 26),
{
}

} // verus!
