//! A chart archive read into a chart model: its type, data grid, where its
//! data comes from, its legend and value-axis format.
use vstd::prelude::*;
use crate::model::{ChartType, ChartScatterFormat, ChartDataStatus, ChartNumberFormat, TsceFormulaRef};
use crate::charts::{chart_type, chart_type_spec, number_format, number_kind, decimals_of, chart_data_status, data_status_spec,
    chart_data_binding, binding_id};
use crate::chart_grid::{extract_grid, grid_ok, ChartSeries};
use crate::pb::{Msg, vget, vvarint, vmsg, vall, refs_of, lemma_vall};
use crate::wire::{WireSpec, fields_view};
use crate::loader::{Loaded, loaded_view, RecordView};
use crate::ctx::loaded_msg;
use crate::keynote::{ref_of, bool_of};

verus! {

/// A chart.
pub struct ChartModel {
    pub chart_type: ChartType,
    pub three_d: bool,
    pub scatter_format: Option<ChartScatterFormat>,
    pub categories: Vec<String>,
    pub series: Vec<ChartSeries>,
    pub data_status: ChartDataStatus,
    pub data_binding: Option<TsceFormulaRef>,
    pub legend_visible: Option<bool>,
    pub value_axis_format: Option<ChartNumberFormat>,
}

/// The generated extension (field 10000) of the loaded archive `id`.
pub open spec fn extension(records: Map<u64, RecordView>, id: Option<u64>) -> Option<Seq<(u32, WireSpec)>> {
    match id {
        Some(i) => match loaded_msg(records, i) {
            Some(m) => vmsg(m, 10000),
            None => None,
        },
        None => None,
    }
}

/// The first of `ids` whose archive has an extension: its extension.
pub open spec fn first_extension(records: Map<u64, RecordView>, ids: Seq<u64>, k: int) -> Option<Seq<(u32, WireSpec)>>
    decreases ids.len() - k,
{
    if k < 0 || k >= ids.len() {
        None
    } else {
        match extension(records, Some(ids[k])) {
            Some(e) => Some(e),
            None => first_extension(records, ids, k + 1),
        }
    }
}

/// The scatter format field: 1 separate x values, else shared.
pub open spec fn scatter_of(v: Option<u64>) -> Option<ChartScatterFormat> {
    match v {
        Some(x) => Some(if x == 1 { ChartScatterFormat::SeparateX } else { ChartScatterFormat::SharedX }),
        None => None,
    }
}

/// The number format of a value-axis extension: field 42, else field 2.
pub open spec fn axis_format_msg(e: Seq<(u32, WireSpec)>) -> Option<Seq<(u32, WireSpec)>> {
    match vmsg(e, 42) {
        Some(f) => Some(f),
        None => vmsg(e, 2),
    }
}

/// The chart archive `ca` as a chart: its type (field 1; other when
/// absent), scatter format (2), grid (7, read in series direction 5) and
/// where its data comes from; the formula binding when that is a table;
/// the legend flag (field 20 of its non-style archive's extension, field
/// 10) and the value axis's number format (the first value-axis
/// non-style, field 14, with an extension).
pub open spec fn chart_ok(records: Map<u64, RecordView>, ca: Seq<(u32, WireSpec)>, c: ChartModel) -> bool {
    &&& (c.chart_type, c.three_d) == match vvarint(ca, 1) {
        Some(v) => chart_type_spec(v),
        None => (ChartType::Other, false),
    }
    &&& c.scatter_format == scatter_of(vvarint(ca, 2))
    &&& match vmsg(ca, 7) {
        Some(g) => grid_ok(
            g,
            match vvarint(ca, 5) {
                Some(d) => d,
                None => 0,
            },
            c.categories@.map_values(|s: String| s@),
            c.series@,
        ),
        None => c.categories@.len() == 0 && c.series@.len() == 0,
    }
    &&& c.data_status == data_status_spec(vmsg(ca, 7) is Some, c.series@.len() == 0, vget(ca, 8) is Some)
    &&& (c.data_status == ChartDataStatus::TableBound) == (c.data_binding is Some)
    &&& (c.data_binding matches Some(b) ==> b.id@ == binding_id(records, ca) && b.status@ == "unparsed"@)
    &&& c.legend_visible == match extension(records, ref_of(ca, 10)) {
        Some(ns) => bool_of(ns, 20),
        None => None,
    }
    &&& match (match first_extension(records, refs_of(vall(ca, 14)), 0) {
        Some(e) => axis_format_msg(e),
        None => None,
    }) {
        Some(f) => c.value_axis_format matches Some(nf) && nf.kind == number_kind(vvarint(f, 1)) && nf.decimals
            == decimals_of(vvarint(f, 2)) && nf.thousands_separator == (vvarint(f, 5) matches Some(v) && v != 0),
        None => c.value_axis_format is None,
    }
}

fn extension_exec(loaded: &Loaded, id: Option<u64>) -> (r: Option<Msg>)
    ensures
        match extension(loaded_view(*loaded).records, id) {
            Some(e) => r matches Some(m) && fields_view(m.fields@) == e,
            None => r is None,
        },
{
    match id {
        Some(i) => match loaded.msg(i) {
            Some(m) => m.msg(10000),
            None => None,
        },
        None => None,
    }
}

fn first_extension_exec(loaded: &Loaded, ids: &Vec<u64>) -> (r: Option<Msg>)
    ensures
        match first_extension(loaded_view(*loaded).records, ids@, 0) {
            Some(e) => r matches Some(m) && fields_view(m.fields@) == e,
            None => r is None,
        },
{
    let mut k: usize = 0;
    while k < ids.len()
        invariant
            k <= ids@.len(),
            first_extension(loaded_view(*loaded).records, ids@, 0) == first_extension(
                loaded_view(*loaded).records,
                ids@,
                k as int,
            ),
        decreases ids@.len() - k,
    {
        match extension_exec(loaded, Some(ids[k])) {
            Some(e) => {
                return Some(e);
            },
            None => {},
        }
        k = k + 1;
    }
    None
}

/// The chart model of chart archive `ca` (see `chart_ok`).
pub fn convert_chart(loaded: &Loaded, ca: &Msg) -> (c: ChartModel)
    ensures
        chart_ok(loaded_view(*loaded).records, fields_view(ca.fields@), c),
{
    let ghost cv = fields_view(ca.fields@);
    proof {
        lemma_vall(ca.fields@, 1);
        lemma_vall(ca.fields@, 2);
        lemma_vall(ca.fields@, 5);
    }
    let (ty, three_d) = match ca.varint(1) {
        Some(v) => chart_type(v),
        None => (ChartType::Other, false),
    };
    let scatter_format = match ca.varint(2) {
        Some(x) => Some(if x == 1 { ChartScatterFormat::SeparateX } else { ChartScatterFormat::SharedX }),
        None => None,
    };
    let direction = match ca.varint(5) {
        Some(d) => d,
        None => 0,
    };
    let (categories, series) = match ca.msg(7) {
        Some(g) => extract_grid(&g, direction),
        None => (Vec::new(), Vec::new()),
    };
    proof {
        if vmsg(cv, 7) is None {
            assert(categories@.map_values(|s: String| s@).len() == 0);
        }
    }
    let data_status = chart_data_status(ca, series.len() == 0);
    let data_binding = match data_status {
        ChartDataStatus::TableBound => Some(chart_data_binding(loaded, ca)),
        _ => None,
    };
    let legend_visible = match extension_exec(loaded, ca.reference(10)) {
        Some(ns) => {
            proof {
                lemma_vall(ns.fields@, 20);
            }
            ns.boolean(20)
        },
        None => None,
    };
    let value_axis_format = match first_extension_exec(loaded, &ca.references(14)) {
        Some(e) => match e.msg(42) {
            Some(f) => Some(number_format(&f)),
            None => match e.msg(2) {
                Some(f) => Some(number_format(&f)),
                None => None,
            },
        },
        None => None,
    };
    ChartModel {
        chart_type: ty,
        three_d,
        scatter_format,
        categories,
        series,
        data_status,
        data_binding,
        legend_visible,
        value_axis_format,
    }
}

} // verus!
