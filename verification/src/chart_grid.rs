//! A chart's inline data grid read into categories and series. Values
//! keep the raw bytes of their stored doubles (a number, or a date in
//! seconds since 2001).
use vstd::prelude::*;
use crate::pb::{Msg, WireValue, vget, vall, nested_all, lemma_vall};
use crate::wire::{WireSpec, fields_view};
use crate::charts::{strings, byte_strings};
use crate::numbers::opt_text;
use crate::text_util::owned;

verus! {

/// One grid value.
#[derive(Debug, Clone, Copy, PartialEq, Eq)]
pub enum GridValue {
    Number([u8; 8]),
    Date([u8; 8]),
    Hole,
}

pub enum GridView {
    Number(Seq<u8>),
    Date(Seq<u8>),
    Hole,
}

pub open spec fn grid_view(v: GridValue) -> GridView {
    match v {
        GridValue::Number(b) => GridView::Number(b@),
        GridValue::Date(b) => GridView::Date(b@),
        GridValue::Hole => GridView::Hole,
    }
}

/// An eight-byte field's bytes.
pub open spec fn double_of(m: Seq<(u32, WireSpec)>, f: u32) -> Option<Seq<u8>> {
    match vget(m, f) {
        Some(WireSpec::Fixed64(b)) => Some(b),
        _ => None,
    }
}

/// A grid value message: a number (field 1), else a date (field 2, else
/// 4), else a number (3), else a hole.
pub open spec fn grid_value(v: Seq<(u32, WireSpec)>) -> GridView {
    match double_of(v, 1) {
        Some(b) => GridView::Number(b),
        None => match (match double_of(v, 2) {
            Some(b) => Some(b),
            None => double_of(v, 4),
        }) {
            Some(b) => GridView::Date(b),
            None => match double_of(v, 3) {
                Some(b) => GridView::Number(b),
                None => GridView::Hole,
            },
        },
    }
}

/// The grid's rows (field 3), each its values (field 1).
pub open spec fn grid_rows(g: Seq<(u32, WireSpec)>) -> Seq<Seq<GridView>> {
    nested_all(vall(g, 3)).map_values(
        |r: Seq<(u32, WireSpec)>| nested_all(vall(r, 1)).map_values(|v: Seq<(u32, WireSpec)>| grid_value(v)),
    )
}

/// The longest row's length.
pub open spec fn widest(rows: Seq<Seq<GridView>>) -> nat
    decreases rows.len(),
{
    if rows.len() == 0 {
        0
    } else if rows.last().len() > widest(rows.drop_last()) {
        rows.last().len()
    } else {
        widest(rows.drop_last())
    }
}

/// Column `c` of the rows, a hole where a row is short.
pub open spec fn column(rows: Seq<Seq<GridView>>, c: int) -> Seq<GridView> {
    Seq::new(rows.len(), |r: int| if c < rows[r].len() { rows[r][c] } else { GridView::Hole })
}

/// The name at `i`, when there is one.
pub open spec fn name_at(names: Seq<Seq<char>>, i: int) -> Option<Seq<char>> {
    if 0 <= i < names.len() {
        Some(names[i])
    } else {
        None
    }
}

/// A series of a chart: its name and values.
pub struct ChartSeries {
    pub name: Option<String>,
    pub values: Vec<GridValue>,
}

pub open spec fn values_view(v: Seq<GridValue>) -> Seq<GridView> {
    v.map_values(|x: GridValue| grid_view(x))
}

/// The categories and series of grid `g`: by row (direction 1) each row
/// is a series named by the row names, the column names being the
/// categories; otherwise each column (as many as the widest row) is a
/// series named by the column names, the row names being the categories.
pub open spec fn grid_ok(g: Seq<(u32, WireSpec)>, direction: u64, categories: Seq<Seq<char>>, series: Seq<ChartSeries>) -> bool {
    let row_names = byte_strings(vall(g, 1));
    let col_names = byte_strings(vall(g, 2));
    let rows = grid_rows(g);
    if direction == 1 {
        &&& categories == col_names
        &&& series.len() == rows.len()
        &&& forall|i: int|
            0 <= i < series.len() ==> opt_text(#[trigger] series[i].name) == name_at(row_names, i) && values_view(
                series[i].values@,
            ) == rows[i]
    } else {
        &&& categories == row_names
        &&& series.len() == widest(rows)
        &&& forall|c: int|
            0 <= c < series.len() ==> opt_text(#[trigger] series[c].name) == name_at(col_names, c) && values_view(
                series[c].values@,
            ) == column(rows, c)
    }
}

fn double_exec(m: &Msg, f: u32) -> (r: Option<[u8; 8]>)
    ensures
        match r {
            Some(a) => double_of(fields_view(m.fields@), f) == Some(a@),
            None => double_of(fields_view(m.fields@), f) is None,
        },
{
    proof {
        lemma_vall(m.fields@, f);
    }
    m.fixed64(f)
}

fn grid_value_exec(v: &Msg) -> (r: GridValue)
    ensures
        grid_view(r) == grid_value(fields_view(v.fields@)),
{
    match double_exec(v, 1) {
        Some(b) => GridValue::Number(b),
        None => match (match double_exec(v, 2) {
            Some(b) => Some(b),
            None => double_exec(v, 4),
        }) {
            Some(b) => GridValue::Date(b),
            None => match double_exec(v, 3) {
                Some(b) => GridValue::Number(b),
                None => GridValue::Hole,
            },
        },
    }
}

fn row_values(r: &Msg) -> (out: Vec<GridValue>)
    ensures
        values_view(out@) == nested_all(vall(fields_view(r.fields@), 1)).map_values(
            |v: Seq<(u32, WireSpec)>| grid_value(v),
        ),
{
    let vs = r.msgs(1);
    let ghost target = nested_all(vall(fields_view(r.fields@), 1)).map_values(|v: Seq<(u32, WireSpec)>| grid_value(v));
    let mut out: Vec<GridValue> = Vec::new();
    let mut i: usize = 0;
    while i < vs.len()
        invariant
            i <= vs@.len(),
            vs@.len() == target.len(),
            forall|q: int| 0 <= q < vs@.len() ==> grid_value(fields_view(#[trigger] vs@[q].fields@)) == target[q],
            values_view(out@) == target.take(i as int),
        decreases vs@.len() - i,
    {
        let x = grid_value_exec(&vs[i]);
        assert(grid_view(x) == target[i as int]);
        let ghost before = out@;
        out.push(x);
        assert(values_view(out@) =~= values_view(before).push(grid_view(x)));
        assert(target.take(i + 1) =~= target.take(i as int).push(target[i as int]));
        i = i + 1;
    }
    assert(target.take(i as int) =~= target);
    out
}

fn copy_name(names: &Vec<String>, i: usize) -> (r: Option<String>)
    ensures
        opt_text(r) == name_at(names@.map_values(|s: String| s@), i as int),
{
    if i < names.len() {
        Some(owned(names[i].as_str()))
    } else {
        None
    }
}

/// The categories and series of chart grid `g` (see `grid_ok`).
pub fn extract_grid(g: &Msg, direction: u64) -> (r: (Vec<String>, Vec<ChartSeries>))
    ensures
        grid_ok(fields_view(g.fields@), direction, r.0@.map_values(|s: String| s@), r.1@),
{
    let ghost gv = fields_view(g.fields@);
    let row_names = strings(g, 1);
    let col_names = strings(g, 2);
    assert(row_names@.map_values(|s: String| s@) =~= byte_strings(vall(gv, 1)));
    assert(col_names@.map_values(|s: String| s@) =~= byte_strings(vall(gv, 2)));
    let rms = g.msgs(3);
    let ghost rows = grid_rows(gv);
    let mut grid: Vec<Vec<GridValue>> = Vec::new();
    let mut i: usize = 0;
    while i < rms.len()
        invariant
            i <= rms@.len(),
            rms@.len() == rows.len(),
            rows == grid_rows(gv),
            forall|q: int| 0 <= q < rms@.len() ==> fields_view(#[trigger] rms@[q].fields@) == nested_all(vall(gv, 3))[q],
            grid@.len() == i,
            forall|q: int| 0 <= q < i ==> values_view(#[trigger] grid@[q]@) == rows[q],
        decreases rms@.len() - i,
    {
        grid.push(row_values(&rms[i]));
        i = i + 1;
    }
    let mut series: Vec<ChartSeries> = Vec::new();
    if direction == 1 {
        let mut k: usize = 0;
        while k < grid.len()
            invariant
                k <= grid@.len(),
                grid@.len() == rows.len(),
                forall|q: int| 0 <= q < grid@.len() ==> values_view(#[trigger] grid@[q]@) == rows[q],
                col_names@.map_values(|s: String| s@) == byte_strings(vall(gv, 2)),
                row_names@.map_values(|s: String| s@) == byte_strings(vall(gv, 1)),
                series@.len() == k,
                forall|q: int|
                    0 <= q < k ==> opt_text(#[trigger] series@[q].name) == name_at(byte_strings(vall(gv, 1)), q)
                        && values_view(series@[q].values@) == rows[q],
            decreases grid@.len() - k,
        {
            let vals = grid[k].clone();
            assert(vals@ == grid@[k as int]@);
            series.push(ChartSeries { name: copy_name(&row_names, k), values: vals });
            k = k + 1;
        }
        (col_names, series)
    } else {
        let mut ncols: usize = 0;
        let mut q: usize = 0;
        while q < grid.len()
            invariant
                q <= grid@.len(),
                grid@.len() == rows.len(),
                forall|j: int| 0 <= j < grid@.len() ==> values_view(#[trigger] grid@[j]@) == rows[j],
                ncols == widest(rows.take(q as int)),
            decreases grid@.len() - q,
        {
            assert(rows.take(q + 1).drop_last() =~= rows.take(q as int));
            assert(values_view(grid@[q as int]@).len() == grid@[q as int]@.len());
            if grid[q].len() > ncols {
                ncols = grid[q].len();
            }
            q = q + 1;
        }
        assert(rows.take(q as int) =~= rows);
        let mut c: usize = 0;
        while c < ncols
            invariant
                c <= ncols,
                ncols == widest(rows),
                grid@.len() == rows.len(),
                forall|j: int| 0 <= j < grid@.len() ==> values_view(#[trigger] grid@[j]@) == rows[j],
                col_names@.map_values(|s: String| s@) == byte_strings(vall(gv, 2)),
                series@.len() == c,
                forall|x: int|
                    0 <= x < c ==> opt_text(#[trigger] series@[x].name) == name_at(byte_strings(vall(gv, 2)), x)
                        && values_view(series@[x].values@) == column(rows, x),
            decreases ncols - c,
        {
            let mut vals: Vec<GridValue> = Vec::new();
            let mut r: usize = 0;
            while r < grid.len()
                invariant
                    r <= grid@.len(),
                    grid@.len() == rows.len(),
                    forall|j: int| 0 <= j < grid@.len() ==> values_view(#[trigger] grid@[j]@) == rows[j],
                    values_view(vals@) == column(rows, c as int).take(r as int),
                decreases grid@.len() - r,
            {
                let ghost rv = grid@[r as int]@;
                assert(values_view(rv) == rows[r as int]);
                let v = if c < grid[r].len() {
                    grid[r][c]
                } else {
                    GridValue::Hole
                };
                assert(grid_view(v) == column(rows, c as int)[r as int]);
                let ghost before = vals@;
                vals.push(v);
                assert(values_view(vals@) =~= values_view(before).push(grid_view(v)));
                assert(column(rows, c as int).take(r + 1) =~= column(rows, c as int).take(r as int).push(
                    column(rows, c as int)[r as int],
                ));
                r = r + 1;
            }
            assert(column(rows, c as int).take(r as int) =~= column(rows, c as int));
            series.push(ChartSeries { name: copy_name(&col_names, c), values: vals });
            c = c + 1;
        }
        (row_names, series)
    }
}

} // verus!
