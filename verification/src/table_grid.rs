//! A table model's grid: the cell records of its tiles, each cut from its
//! row's storage buffer, decoded by storage version and placed at its row
//! and column in a grid of the table's size.
use vstd::prelude::*;
use crate::cells::{CellParts, decode_cell_v3, decode_cell_v4, decode_cell_v5};
use crate::tables::DataList;
use crate::loader::Loaded;
use crate::model::Warning;
use crate::pb::{Msg, WireValue, vget, vvarint, vmsg, vall, nested_all, lemma_vall};
use crate::wire::{WireSpec, fields_view};
use crate::loader::{RecordView, loaded_view};
use crate::ctx::loaded_msg;
use crate::keynote::{ref_of, bool_of};
use crate::model::{TableMerge, WarningCode};
use crate::tables::{load_data_list, strip_map_with_ctx, strip_indices, data_list_of, data_list_view};
use crate::table_shape::{
    clamp_table_size, table_merges, clamped_size, declared, model_msg, size_warnings,
    merges_outcome, anchors_ascending, all_inside, owner_pairs, unresolved_table,
};
use crate::ctx::vstring;
use crate::numbers::opt_text;
use crate::text_util::{owned, push_str, push_decimal};
use crate::{WarningView, view_warning, view_warnings};

verus! {

/// The `k`-th packed little-endian signed 16-bit word of `raw`.
pub open spec fn i16_at(raw: Seq<u8>, k: int) -> int {
    let v = raw[2 * k] + 256 * raw[2 * k + 1];
    if v >= 32768 {
        v - 65536
    } else {
        v
    }
}

/// The `k`-th cell offset of a row: the packed word, times four for wide
/// rows (their offsets count quarter units); negative means no cell.
pub open spec fn offset_at(raw: Seq<u8>, wide: bool, k: int) -> int {
    if wide {
        4 * i16_at(raw, k)
    } else {
        i16_at(raw, k)
    }
}

/// Where the cell at slot `k` ends in a buffer of `n` bytes: at the first
/// offset from slot `j` on that lies past its start (at most `n`), else at
/// the buffer's end.
pub open spec fn span_end(raw: Seq<u8>, wide: bool, n: int, k: int, j: int) -> int
    decreases raw.len() / 2 - j,
{
    if j < 0 || j >= raw.len() / 2 {
        n
    } else if offset_at(raw, wide, j) > offset_at(raw, wide, k) {
        if offset_at(raw, wide, j) < n {
            offset_at(raw, wide, j)
        } else {
            n
        }
    } else {
        span_end(raw, wide, n, k, j + 1)
    }
}

/// The bytes of the cell at slot `k`, as a range of a buffer of `n`
/// bytes: none for a negative or out-of-buffer offset, or a span under
/// the 12 bytes every record has.
pub open spec fn cell_span(raw: Seq<u8>, wide: bool, n: int, k: int) -> Option<(int, int)> {
    let off = offset_at(raw, wide, k);
    if off < 0 || off >= n {
        None
    } else {
        let e = span_end(raw, wide, n, k, k + 1);
        if e - off < 12 {
            None
        } else {
            Some((off, e))
        }
    }
}

/// The cells of the first `upto` slots, in slot order: (slot, start, end).
pub open spec fn cell_spans(raw: Seq<u8>, wide: bool, n: int, upto: int) -> Seq<(u32, int, int)>
    decreases upto,
{
    if upto <= 0 {
        Seq::empty()
    } else {
        let p = cell_spans(raw, wide, n, upto - 1);
        match cell_span(raw, wide, n, upto - 1) {
            Some((s, e)) => p.push(((upto - 1) as u32, s, e)),
            None => p,
        }
    }
}

/// The spans as exec ranges.
pub open spec fn spans_view(v: Seq<(u32, usize, usize)>) -> Seq<(u32, int, int)> {
    v.map_values(|t: (u32, usize, usize)| (t.0, t.1 as int, t.2 as int))
}

fn offsets_of(raw: &[u8], wide: bool) -> (r: Vec<i32>)
    ensures
        r@.len() == raw@.len() / 2,
        forall|k: int| 0 <= k < r@.len() ==> #[trigger] r@[k] as int == offset_at(raw@, wide, k),
{
    let len = raw.len();
    let n = len / 2;
    let mut out: Vec<i32> = Vec::new();
    let mut k: usize = 0;
    while k < n
        invariant
            len == raw@.len(),
            n == raw@.len() / 2,
            k <= n,
            out@.len() == k,
            forall|q: int| 0 <= q < k ==> #[trigger] out@[q] as int == offset_at(raw@, wide, q),
        decreases n - k,
    {
        assert(2 * k + 1 < raw@.len());
        let v: i32 = raw[2 * k] as i32 + 256 * (raw[2 * k + 1] as i32);
        let s: i32 = if v >= 32768 {
            v - 65536
        } else {
            v
        };
        out.push(if wide {
            4 * s
        } else {
            s
        });
        k = k + 1;
    }
    out
}

/// The cells a row's storage buffer of `n` bytes holds, by its packed
/// `offsets` (see `cell_span`), in slot order.
pub fn cell_spans_of(n: usize, offsets_raw: &[u8], wide: bool) -> (r: Vec<(u32, usize, usize)>)
    ensures
        spans_view(r@) == cell_spans(offsets_raw@, wide, n as int, (offsets_raw@.len() / 2) as int),
        forall|i: int| 0 <= i < r@.len() ==> (#[trigger] r@[i]).1 + 12 <= r@[i].2 && r@[i].2 <= n,
{
    let offs = offsets_of(offsets_raw, wide);
    let ghost raw = offsets_raw@;
    let m = offs.len();
    let mut out: Vec<(u32, usize, usize)> = Vec::new();
    let mut k: usize = 0;
    while k < m
        invariant
            m == offs@.len(),
            m == raw.len() / 2,
            raw == offsets_raw@,
            forall|q: int| 0 <= q < m ==> #[trigger] offs@[q] as int == offset_at(raw, wide, q),
            k <= m,
            spans_view(out@) == cell_spans(raw, wide, n as int, k as int),
            forall|i: int| 0 <= i < out@.len() ==> (#[trigger] out@[i]).1 + 12 <= out@[i].2 && out@[i].2 <= n,
        decreases m - k,
    {
        let off = offs[k];
        let ghost before = out@;
        if off >= 0 && (off as usize) < n {
            let start = off as usize;
            let mut end = n;
            let mut j = k + 1;
            let mut found = false;
            while j < m && !found
                invariant
                    m == offs@.len(),
                    m == raw.len() / 2,
                    forall|q: int| 0 <= q < m ==> #[trigger] offs@[q] as int == offset_at(raw, wide, q),
                    k < j <= m,
                    off == offs@[k as int],
                    0 <= off < n,
                    end <= n,
                    !found ==> end == n && span_end(raw, wide, n as int, k as int, k + 1) == span_end(
                        raw,
                        wide,
                        n as int,
                        k as int,
                        j as int,
                    ),
                    found ==> end as int == span_end(raw, wide, n as int, k as int, k + 1),
                decreases m - j, if found { 0int } else { 1int },
            {
                let oj = offs[j];
                if oj > off {
                    end = if (oj as usize) < n {
                        oj as usize
                    } else {
                        n
                    };
                    found = true;
                } else {
                    j = j + 1;
                }
            }
            assert(end as int == span_end(raw, wide, n as int, k as int, k + 1));
            if end >= start + 12 {
                out.push((k as u32, start, end));
                assert(spans_view(out@) =~= spans_view(before).push((k as u32, start as int, end as int)));
            }
        }
        k = k + 1;
    }
    out
}

/// A decoded cell sits at row `r`, column `c`.
pub open spec fn at(x: Option<CellParts>, r: u32, c: u32) -> bool {
    x matches Some(y) && y.row == r && y.col == c
}

/// The last of `cells` at row `r`, column `c`, when there is one.
pub open spec fn last_at(cells: Seq<Option<CellParts>>, r: u32, c: u32) -> Option<int>
    decreases cells.len(),
{
    if cells.len() == 0 {
        None
    } else if at(cells.last(), r, c) {
        Some(cells.len() - 1)
    } else {
        last_at(cells.drop_last(), r, c)
    }
}

proof fn lemma_last_at(cells: Seq<Option<CellParts>>, r: u32, c: u32)
    ensures
        match last_at(cells, r, c) {
            Some(i) => 0 <= i < cells.len() && at(cells[i], r, c) && forall|j: int|
                i < j < cells.len() ==> !at(cells[j], r, c),
            None => forall|j: int| 0 <= j < cells.len() ==> !at(cells[j], r, c),
        },
    decreases cells.len(),
{
    if cells.len() > 0 && !at(cells.last(), r, c) {
        lemma_last_at(cells.drop_last(), r, c);
        assert forall|j: int| 0 <= j < cells.len() - 1 implies cells[j] == cells.drop_last()[j] by {}
    }
}

/// The slot of a `rows` × `cols` grid (row-major) for row `r`, column `c`.
pub open spec fn slot_of(cols: u32, r: int, c: int) -> int {
    r * cols + c
}

/// `grid` holds, at every position of a `rows` × `cols` table, the last of
/// `cells` placed there, and nothing where no cell is.
pub open spec fn placed(grid: Seq<Option<CellParts>>, cells: Seq<Option<CellParts>>, rows: u32, cols: u32) -> bool {
    &&& grid.len() == rows * cols
    &&& forall|r: u32, c: u32|
        r < rows && c < cols ==> #[trigger] grid[slot_of(cols, r as int, c as int)] == match last_at(cells, r, c) {
            Some(i) => cells[i],
            None => None,
        }
}

proof fn lemma_slot_bounds(rows: u32, cols: u32, r: int, c: int)
    requires
        0 <= r < rows,
        0 <= c < cols,
    ensures
        0 <= slot_of(cols, r, c) < rows * cols,
        forall|r2: int, c2: int|
            0 <= r2 < rows && 0 <= c2 < cols && slot_of(cols, r2, c2) == slot_of(cols, r, c) ==> r2 == r && c2 == c,
{
    assert(0 <= slot_of(cols, r, c) < rows * cols) by (nonlinear_arith)
        requires
            0 <= r < rows,
            0 <= c < cols,
    ;
    assert forall|r2: int, c2: int|
        0 <= r2 < rows && 0 <= c2 < cols && slot_of(cols, r2, c2) == slot_of(cols, r, c) implies r2 == r && c2
        == c by {
        assert(r2 == r && c2 == c) by (nonlinear_arith)
            requires
                0 <= r2 < rows,
                0 <= c2 < cols,
                0 <= r < rows,
                0 <= c < cols,
                r2 * cols + c2 == r * cols + c,
        ;
    }
}

/// A grid of the table's size, row-major, with each cell at its row and
/// column: where several cells claim one position the last one stays;
/// cells outside the table are left out.
pub fn place_cells(cells: Vec<Option<CellParts>>, rows: u32, cols: u32) -> (grid: Vec<Option<CellParts>>)
    requires
        rows * cols <= 8_000_000,
    ensures
        placed(grid@, cells@, rows, cols),
{
    let ghost all = cells@;
    let total = rows as usize * cols as usize;
    let mut grid: Vec<Option<CellParts>> = Vec::new();
    let mut i: usize = 0;
    while i < total
        invariant
            total == rows * cols,
            i <= total,
            grid@.len() == i,
            forall|k: int| 0 <= k < i ==> #[trigger] grid@[k] is None,
        decreases total - i,
    {
        grid.push(None);
        i = i + 1;
    }
    let mut cells = cells;
    assert forall|r: u32, c: u32| r < rows && c < cols implies #[trigger] grid@[slot_of(cols, r as int, c as int)] == match last_at(all, r, c) {
        Some(i) => if i >= cells@.len() {
            all[i]
        } else {
            None
        },
        None => None,
    } by {
        lemma_slot_bounds(rows, cols, r as int, c as int);
        lemma_last_at(all, r, c);
    }
    assert(cells@ == all.take(cells@.len() as int));
    while cells.len() > 0
        invariant
            total == rows * cols,
            grid@.len() == total,
            cells@ == all.take(cells@.len() as int),
            cells@.len() <= all.len(),
            forall|r: u32, c: u32|
                r < rows && c < cols ==> #[trigger] grid@[slot_of(cols, r as int, c as int)] == match last_at(all, r, c) {
                    Some(i) => if i >= cells@.len() {
                        all[i]
                    } else {
                        None
                    },
                    None => None,
                },
        decreases cells@.len(),
    {
        let ghost k = cells@.len() - 1;
        let popped = cells.pop().unwrap();
        assert(cells@ == all.take(k));
        assert(popped == all[k]);
        if popped.is_some() && popped.as_ref().unwrap().row < rows && popped.as_ref().unwrap().col < cols {
            let cell = popped.unwrap();
            let r = cell.row;
            let c = cell.col;
            proof {
                lemma_slot_bounds(rows, cols, r as int, c as int);
                lemma_last_at(all, r, c);
            }
            let idx = r as usize * cols as usize + c as usize;
            assert(idx == slot_of(cols, r as int, c as int));
            if grid[idx].is_none() {
                proof {
                    match last_at(all, r, c) {
                        Some(i) => {
                            assert(i >= k);
                            if i > k {
                                assert(grid@[slot_of(cols, r as int, c as int)] is Some);
                            }
                        },
                        None => {
                            assert(at(all[k], r, c));
                        },
                    }
                }
                grid.set(idx, Some(cell));
                assert(all[k] == Some(cell));
                proof {
                    assert forall|r2: u32, c2: u32| r2 < rows && c2 < cols implies #[trigger] grid@[slot_of(
                        cols,
                        r2 as int,
                        c2 as int,
                    )] == match last_at(all, r2, c2) {
                        Some(i) => if i >= k {
                            all[i]
                        } else {
                            None
                        },
                        None => None,
                    } by {
                        lemma_slot_bounds(rows, cols, r2 as int, c2 as int);
                        lemma_last_at(all, r2, c2);
                        if r2 != r || c2 != c {
                            lemma_slot_bounds(rows, cols, r as int, c as int);
                            if let Some(i) = last_at(all, r2, c2) {
                                assert(i != k);
                            }
                        }
                    }
                }
            } else {
                proof {
                    assert forall|r2: u32, c2: u32| r2 < rows && c2 < cols implies #[trigger] grid@[slot_of(
                        cols,
                        r2 as int,
                        c2 as int,
                    )] == match last_at(all, r2, c2) {
                        Some(i) => if i >= k {
                            all[i]
                        } else {
                            None
                        },
                        None => None,
                    } by {
                        lemma_last_at(all, r2, c2);
                        if let Some(i) = last_at(all, r2, c2) {
                            if i == k {
                                assert(r2 == r && c2 == c);
                                assert(false);
                            }
                        }
                    }
                }
            }
        } else {
            proof {
                assert forall|r2: u32, c2: u32| r2 < rows && c2 < cols implies #[trigger] grid@[slot_of(
                    cols,
                    r2 as int,
                    c2 as int,
                )] == match last_at(all, r2, c2) {
                    Some(i) => if i >= k {
                        all[i]
                    } else {
                        None
                    },
                    None => None,
                } by {
                    lemma_last_at(all, r2, c2);
                    if let Some(i) = last_at(all, r2, c2) {
                        assert(i != k);
                    }
                }
            }
        }
    }
    assert forall|r: u32, c: u32| r < rows && c < cols implies #[trigger] grid@[slot_of(cols, r as int, c as int)] == match last_at(all, r, c) {
        Some(i) => all[i],
        None => None,
    } by {
        lemma_last_at(all, r, c);
    }
    grid
}

/// The data lists a table's cells read.
pub struct TableLists {
    pub strings: DataList,
    pub formulas: DataList,
    pub formula_errors: DataList,
    pub formats: DataList,
    pub custom_formats: DataList,
    pub rich_text: DataList,
}

/// The cell a stored record gives, by its storage version (byte 0): 3 and
/// 4 read the older layouts, anything else the current one.
pub fn decode_stored_cell(
    loaded: &Loaded,
    row: u32,
    col: u32,
    buf: &[u8],
    lists: &TableLists,
    warnings: &mut Vec<Warning>,
) -> (r: Option<CellParts>)
    requires
        buf@.len() >= 12,
    ensures
        r matches Some(c) ==> c.row == row && c.col == col,
        crate::view_warnings(old(warnings)@).is_prefix_of(crate::view_warnings(final(warnings)@)),
{
    if buf[0] == 3 {
        decode_cell_v3(loaded, row, col, buf, &lists.strings, &lists.formats, &lists.rich_text, warnings)
    } else if buf[0] == 4 {
        decode_cell_v4(loaded, row, col, buf, &lists.strings, &lists.formats, &lists.rich_text, &lists.formulas, warnings)
    } else {
        decode_cell_v5(
            loaded,
            row,
            col,
            buf,
            &lists.strings,
            &lists.formula_errors,
            &lists.formats,
            &lists.custom_formats,
            &lists.rich_text,
            warnings,
        )
    }
}

/// A bytes field.
pub open spec fn vbytes(m: Seq<(u32, WireSpec)>, f: u32) -> Option<Seq<u8>> {
    match vget(m, f) {
        Some(WireSpec::Bytes(b)) => Some(b),
        _ => None,
    }
}

/// A tile row's storage buffer: the current one (field 6), else the
/// pre-BNC one (field 3).
pub open spec fn row_buffer(ri: Seq<(u32, WireSpec)>) -> Option<Seq<u8>> {
    match vbytes(ri, 6) {
        Some(b) => Some(b),
        None => vbytes(ri, 3),
    }
}

/// A tile row's packed cell offsets: field 7, else the pre-BNC field 4.
pub open spec fn row_offsets(ri: Seq<(u32, WireSpec)>) -> Seq<u8> {
    match vbytes(ri, 7) {
        Some(b) => b,
        None => match vbytes(ri, 4) {
            Some(b) => b,
            None => Seq::empty(),
        },
    }
}

/// A tile row with a non-empty storage buffer.
pub open spec fn filled(ri: Seq<(u32, WireSpec)>) -> bool {
    row_buffer(ri) matches Some(b) && b.len() > 0
}

/// The stored cells of a tile row at `model_row`: (row, column, bytes) for
/// each cell span of its buffer (its offsets are wide when field 8 says
/// so).
pub open spec fn row_cells(ri: Seq<(u32, WireSpec)>, model_row: u32) -> Seq<(u32, u32, Seq<u8>)> {
    let b = match row_buffer(ri) {
        Some(b) => b,
        None => Seq::empty(),
    };
    let o = row_offsets(ri);
    cell_spans(o, bool_of(ri, 8) == Some(true), b.len() as int, (o.len() / 2) as int).map_values(
        |t: (u32, int, int)| (model_row, t.0, b.subrange(t.1, t.2)),
    )
}

/// A tile's id (field 1, else 0).
pub open spec fn tile_id(tw: Seq<(u32, WireSpec)>) -> u64 {
    match vvarint(tw, 1) {
        Some(v) => v,
        None => 0,
    }
}

/// The rows of the loaded tiles (each entry's field 2 names its tile),
/// each with its tile's id, tile after tile, every tile row (field 5) in
/// order.
pub open spec fn tile_rows(records: Map<u64, RecordView>, tiles: Seq<Seq<(u32, WireSpec)>>) -> Seq<
    (u64, Seq<(u32, WireSpec)>),
>
    decreases tiles.len(),
{
    if tiles.len() == 0 {
        Seq::empty()
    } else {
        let tw = tiles.last();
        tile_rows(records, tiles.drop_last()) + match ref_of(tw, 2) {
            Some(tr) => match loaded_msg(records, tr) {
                Some(tile) => nested_all(vall(tile, 5)).map_values(
                    |ri: Seq<(u32, WireSpec)>| (tile_id(tw), ri),
                ),
                None => Seq::empty(),
            },
            None => Seq::empty(),
        }
    }
}

/// How many of the rows have a non-empty buffer.
pub open spec fn filled_count(rows: Seq<(u64, Seq<(u32, WireSpec)>)>) -> nat
    decreases rows.len(),
{
    if rows.len() == 0 {
        0
    } else {
        filled_count(rows.drop_last()) + if filled(rows.last().1) {
            1nat
        } else {
            0nat
        }
    }
}

/// The model row of a tile row: the row the header storage maps its
/// buffer ordinal to, else its tile's first row plus its own index (field
/// 1), cut to 32 bits.
pub open spec fn model_row(ord_to_row: Seq<Option<u32>>, ord: int, tile_size: u64, tileid: u64, ri: Seq<(u32, WireSpec)>) -> u32 {
    if 0 <= ord < ord_to_row.len() && ord_to_row[ord] is Some {
        ord_to_row[ord]->0
    } else {
        (tileid * tile_size + match vvarint(ri, 1) {
            Some(v) => v,
            None => 0,
        }) as u32
    }
}

/// The stored cells of the rows, in order: those of each row with a
/// non-empty buffer, the k-th such row being buffer ordinal k.
pub open spec fn stored_cells(rows: Seq<(u64, Seq<(u32, WireSpec)>)>, ord_to_row: Seq<Option<u32>>, tile_size: u64) -> Seq<
    (u32, u32, Seq<u8>),
>
    decreases rows.len(),
{
    if rows.len() == 0 {
        Seq::empty()
    } else {
        let p = rows.drop_last();
        let (tid, ri) = rows.last();
        stored_cells(p, ord_to_row, tile_size) + if filled(ri) {
            row_cells(ri, model_row(ord_to_row, filled_count(p) as int, tile_size, tid, ri))
        } else {
            Seq::empty()
        }
    }
}

/// Some row has no buffer, or keeps a non-empty one only in the pre-BNC
/// field.
pub open spec fn pre_bnc(rows: Seq<(u64, Seq<(u32, WireSpec)>)>) -> bool
    decreases rows.len(),
{
    if rows.len() == 0 {
        false
    } else {
        pre_bnc(rows.drop_last()) || row_buffer(rows.last().1) is None || (filled(rows.last().1) && vbytes(
            rows.last().1,
            6,
        ) is None)
    }
}

/// Stored cells as values.
pub open spec fn stored_view(v: Seq<(u32, u32, Vec<u8>)>) -> Seq<(u32, u32, Seq<u8>)> {
    v.map_values(|t: (u32, u32, Vec<u8>)| (t.0, t.1, t.2@))
}

fn bytes_field(m: &Msg, f: u32) -> (r: Option<&[u8]>)
    ensures
        match vbytes(fields_view(m.fields@), f) {
            Some(b) => r matches Some(x) && x@ == b,
            None => r is None,
        },
{
    proof {
        lemma_vall(m.fields@, f);
    }
    m.bytes(f)
}

fn copy_range(b: &[u8], s: usize, e: usize) -> (r: Vec<u8>)
    requires
        s <= e <= b@.len(),
    ensures
        r@ == b@.subrange(s as int, e as int),
{
    let mut out: Vec<u8> = Vec::new();
    let mut i = s;
    while i < e
        invariant
            s <= i <= e <= b@.len(),
            out@ == b@.subrange(s as int, i as int),
        decreases e - i,
    {
        out.push(b[i]);
        assert(out@ =~= b@.subrange(s as int, i + 1));
        i = i + 1;
    }
    out
}

fn push_row_cells(ri: &Msg, model_row: u32, out: &mut Vec<(u32, u32, Vec<u8>)>)
    requires
        filled(fields_view(ri.fields@)),
    ensures
        stored_view(final(out)@) == stored_view(old(out)@) + row_cells(fields_view(ri.fields@), model_row),
{
    let ghost v = fields_view(ri.fields@);
    let buf = match bytes_field(ri, 6) {
        Some(b) => b,
        None => bytes_field(ri, 3).unwrap(),
    };
    let offs: &[u8] = match bytes_field(ri, 7) {
        Some(b) => b,
        None => match bytes_field(ri, 4) {
            Some(b) => b,
            None => &[],
        },
    };
    assert(offs@ == row_offsets(v));
    proof {
        lemma_vall(ri.fields@, 8);
    }
    let wide = match ri.boolean(8) {
        Some(w) => w,
        None => false,
    };
    let spans = cell_spans_of(buf.len(), offs, wide);
    let ghost sv = spans_view(spans@);
    let ghost target = row_cells(v, model_row);
    assert(sv.len() == target.len());
    let mut i: usize = 0;
    while i < spans.len()
        invariant
            i <= spans@.len(),
            sv == spans_view(spans@),
            buf@ == row_buffer(v)->0,
            target == sv.map_values(|t: (u32, int, int)| (model_row, t.0, buf@.subrange(t.1, t.2))),
            forall|k: int| 0 <= k < spans@.len() ==> (#[trigger] spans@[k]).1 + 12 <= spans@[k].2 && spans@[k].2 <= buf@.len(),
            stored_view(out@) == stored_view(old(out)@) + target.take(i as int),
        decreases spans@.len() - i,
    {
        let (slot, st, en) = spans[i];
        assert(sv[i as int] == (slot, st as int, en as int));
        assert(target[i as int] == (model_row, slot, buf@.subrange(st as int, en as int)));
        let bytes = copy_range(buf, st, en);
        let ghost before = out@;
        out.push((model_row, slot, bytes));
        assert(stored_view(out@) =~= stored_view(before).push((model_row, slot, buf@.subrange(st as int, en as int))));
        assert(target.take(i + 1) =~= target.take(i as int).push(target[i as int]));
        assert(stored_view(out@) =~= stored_view(old(out)@) + target.take(i + 1));
        i = i + 1;
    }
    assert(target.take(i as int) =~= target);
}

/// `n`, or `cap` when `n` passes it.
pub open spec fn capped(n: int, cap: int) -> int {
    if n < cap {
        n
    } else {
        cap
    }
}

/// The tiles of a data store's tile storage (field 3, every field 1).
pub open spec fn tiles_of(store: Seq<(u32, WireSpec)>) -> Seq<Seq<(u32, WireSpec)>> {
    match vmsg(store, 3) {
        Some(ts) => nested_all(vall(ts, 1)),
        None => Seq::empty(),
    }
}

fn model_row_exec(ord_to_row: &Vec<Option<u32>>, ord: usize, tile_size: u64, tileid: u64, ri: &Msg) -> (r: u32)
    ensures
        r == model_row(ord_to_row@, ord as int, tile_size, tileid, fields_view(ri.fields@)),
{
    if ord < ord_to_row.len() {
        match ord_to_row[ord] {
            Some(r) => {
                return r;
            },
            None => {},
        }
    }
    proof {
        lemma_vall(ri.fields@, 1);
    }
    let tri: u64 = match ri.varint(1) {
        Some(v) => v,
        None => 0,
    };
    assert((tileid as int) * (tile_size as int) <= 0xFFFF_FFFF_FFFF_FFFF * 0xFFFF_FFFF_FFFF_FFFF) by (nonlinear_arith)
        requires
            tileid <= 0xFFFF_FFFF_FFFF_FFFFu64,
            tile_size <= 0xFFFF_FFFF_FFFF_FFFFu64,
    ;
    let x: u128 = (tileid as u128) * (tile_size as u128) + tri as u128;
    x as u32
}

/// The stored cells of a data store's tiles (see `stored_cells`), and
/// whether any tile row is pre-BNC or bufferless (see `pre_bnc`).
pub fn collect_stored_cells(loaded: &Loaded, store: &Msg, ord_to_row: &Vec<Option<u32>>, tile_size: u64) -> (r: (
    Vec<(u32, u32, Vec<u8>)>,
    bool,
))
    ensures
        stored_view(r.0@) == stored_cells(
            tile_rows(loaded_view(*loaded).records, tiles_of(fields_view(store.fields@))),
            ord_to_row@,
            tile_size,
        ),
        r.1 == pre_bnc(tile_rows(loaded_view(*loaded).records, tiles_of(fields_view(store.fields@)))),
{
    let ghost records = loaded_view(*loaded).records;
    let tiles: Vec<Msg> = match store.msg(3) {
        Some(ts) => ts.msgs(1),
        None => Vec::new(),
    };
    let ghost tv = tiles_of(fields_view(store.fields@));
    assert(tiles@.map_values(|x: Msg| fields_view(x.fields@)) =~= tv);
    let mut out: Vec<(u32, u32, Vec<u8>)> = Vec::new();
    let mut saw = false;
    let mut ordinal: usize = 0;
    let mut t: usize = 0;
    while t < tiles.len()
        invariant
            t <= tiles@.len(),
            tiles@.len() == tv.len(),
            forall|q: int| 0 <= q < tiles@.len() ==> fields_view(#[trigger] tiles@[q].fields@) == tv[q],
            records == loaded_view(*loaded).records,
            stored_view(out@) == stored_cells(tile_rows(records, tv.take(t as int)), ord_to_row@, tile_size),
            saw == pre_bnc(tile_rows(records, tv.take(t as int))),
            ordinal as int == capped(filled_count(tile_rows(records, tv.take(t as int))) as int, ord_to_row@.len() as int),
            ord_to_row@.len() == ord_to_row.len(),
        decreases tiles@.len() - t,
    {
        let ghost prefix = tile_rows(records, tv.take(t as int));
        let tw = &tiles[t];
        let ghost twv = fields_view(tw.fields@);
        proof {
            assert(tv.take(t + 1).drop_last() =~= tv.take(t as int));
            assert(tv.take(t + 1).last() == twv);
            lemma_vall(tw.fields@, 1);
        }
        let tileid: u64 = match tw.varint(1) {
            Some(v) => v,
            None => 0,
        };
        let tile = match tw.reference(2) {
            Some(tr) => loaded.msg(tr),
            None => None,
        };
        match tile {
            Some(tile) => {
                let rows = tile.msgs(5);
                let ghost cur = nested_all(vall(fields_view(tile.fields@), 5)).map_values(
                    |ri: Seq<(u32, WireSpec)>| (tile_id(twv), ri),
                );
                assert(tile_rows(records, tv.take(t + 1)) == prefix + cur);
                let mut i: usize = 0;
                while i < rows.len()
                    invariant
                        i <= rows@.len(),
                        rows@.len() == cur.len(),
                        forall|q: int| 0 <= q < rows@.len() ==> (tile_id(twv), fields_view(#[trigger] rows@[q].fields@)) == cur[q],
                        tileid == tile_id(twv),
                        stored_view(out@) == stored_cells(prefix + cur.take(i as int), ord_to_row@, tile_size),
                        saw == pre_bnc(prefix + cur.take(i as int)),
                        ordinal as int == capped(filled_count(prefix + cur.take(i as int)) as int, ord_to_row@.len() as int),
                    decreases rows@.len() - i,
                {
                    let ri = &rows[i];
                    let ghost rv = fields_view(ri.fields@);
                    let ghost before = prefix + cur.take(i as int);
                    proof {
                        assert((prefix + cur.take(i + 1)).drop_last() =~= before);
                        assert((prefix + cur.take(i + 1)).last() == (tile_id(twv), rv));
                    }
                    let b6 = bytes_field(ri, 6);
                    let buf = match b6 {
                        Some(b) => Some(b),
                        None => bytes_field(ri, 3),
                    };
                    match buf {
                        None => {
                            saw = true;
                        },
                        Some(b) => {
                            if b.len() > 0 {
                                if b6.is_none() {
                                    saw = true;
                                }
                                let row = model_row_exec(ord_to_row, ordinal, tile_size, tileid, ri);
                                assert(row == model_row(ord_to_row@, filled_count(before) as int, tile_size, tileid, rv));
                                push_row_cells(ri, row, &mut out);
                                if ordinal < ord_to_row.len() {
                                    ordinal = ordinal + 1;
                                }
                            }
                        },
                    }
                    assert(stored_view(out@) == stored_cells(prefix + cur.take(i + 1), ord_to_row@, tile_size));
                    i = i + 1;
                }
                assert(cur.take(i as int) =~= cur);
            },
            None => {
                assert(tile_rows(records, tv.take(t + 1)) =~= prefix);
            },
        }
        t = t + 1;
    }
    assert(tv.take(t as int) =~= tv);
    (out, saw)
}

/// The format list of a data store: field 22, else field 11.
pub open spec fn format_list_id(store: Seq<(u32, WireSpec)>) -> Option<u64> {
    match ref_of(store, 22) {
        Some(i) => Some(i),
        None => ref_of(store, 11),
    }
}

/// The tile size of a data store: its tile storage's field 2 when
/// positive, else 256.
pub open spec fn tile_size_of(store: Seq<(u32, WireSpec)>) -> u64 {
    match vmsg(store, 3) {
        Some(ts) => match vvarint(ts, 2) {
            Some(v) => if v > 0 {
                v
            } else {
                256
            },
            None => 256,
        },
        None => 256,
    }
}

/// The model row of each storage-buffer ordinal, from the row header
/// storage.
pub open spec fn ordinal_rows(records: Map<u64, RecordView>, store: Seq<(u32, WireSpec)>) -> Seq<Option<u32>> {
    strip_indices(records, store, 1, 0).map_values(|x: u64| Some(x as u32))
}

/// The stored cells of a table model's data store (field 4); none without
/// one.
pub open spec fn model_cells(records: Map<u64, RecordView>, m: Seq<(u32, WireSpec)>) -> Seq<(u32, u32, Seq<u8>)> {
    match vmsg(m, 4) {
        Some(st) => stored_cells(tile_rows(records, tiles_of(st)), ordinal_rows(records, st), tile_size_of(st)),
        None => Seq::empty(),
    }
}

/// Some tile row of the model is pre-BNC or bufferless.
pub open spec fn model_pre_bnc(records: Map<u64, RecordView>, m: Seq<(u32, WireSpec)>) -> bool {
    match vmsg(m, 4) {
        Some(st) => pre_bnc(tile_rows(records, tiles_of(st))),
        None => false,
    }
}

/// Formula-store pairs whose formula holds a node array: merge candidates.
pub open spec fn candidates(pairs: Seq<Seq<(u32, WireSpec)>>) -> nat
    decreases pairs.len(),
{
    if pairs.len() == 0 {
        0
    } else {
        candidates(pairs.drop_last()) + if (match vmsg(pairs.last(), 2) {
            Some(f) => vmsg(f, 1),
            None => None,
        }) is Some {
            1nat
        } else {
            0nat
        }
    }
}

/// Empty grid positions.
pub open spec fn holes(g: Seq<Option<CellParts>>) -> nat
    decreases g.len(),
{
    if g.len() == 0 {
        0
    } else {
        holes(g.drop_last()) + if g.last() is None {
            1nat
        } else {
            0nat
        }
    }
}

/// A table model's name as shown: its name (field 8) when non-empty and
/// the caption is switched on (field 22).
pub open spec fn shown_name(m: Seq<(u32, WireSpec)>) -> Option<Seq<char>> {
    match vstring(m, 8) {
        Some(n) => if n.len() > 0 && bool_of(m, 22) == Some(true) {
            Some(n)
        } else {
            None
        },
        None => None,
    }
}

/// The warning for a table whose pre-BNC tiles are read best-effort.
pub open spec fn pre_bnc_warning(model_id: u64) -> WarningView {
    WarningView {
        code: WarningCode::TableDegraded,
        message: "table model "@ + crate::text_util::dec(model_id as nat)
            + " contains pre-BNC tile storage; decode is best-effort"@,
        path: None,
        detail: None,
        count: None,
        paths: None,
    }
}

/// The warning for a merge owner whose ranges gave no merge while the grid
/// has holes.
pub open spec fn lost_merges_warning(holes: nat, name: Seq<char>) -> WarningView {
    WarningView {
        code: WarningCode::TableDegraded,
        message: "merge owner present but no ranges decoded (formula-store + region-map paths empty; TSCE dependency-archive merges not yet read); "@
            + crate::text_util::dec(holes) + " covered cells emit as null without span info"@,
        path: None,
        detail: Some("table '"@ + name + "'"@),
        count: None,
        paths: None,
    }
}

/// A table model: its caption, size, header and footer counts, frozen
/// headers, the raw bytes of its default row height and column width, its
/// grid (row-major, `row_count` × `column_count`) and its merges.
pub struct TableModel {
    pub name: Option<String>,
    pub row_count: u32,
    pub column_count: u32,
    pub header_row_count: u32,
    pub header_column_count: u32,
    pub footer_row_count: u32,
    pub header_rows_frozen: Option<bool>,
    pub header_columns_frozen: Option<bool>,
    pub default_row_height: Option<[u8; 8]>,
    pub default_column_width: Option<[u8; 8]>,
    pub grid: Vec<Option<CellParts>>,
    pub merges: Vec<TableMerge>,
}

/// An eight-byte field's bytes.
pub open spec fn fixed64_of(m: Seq<(u32, WireSpec)>, f: u32) -> Option<Seq<u8>> {
    match vget(m, f) {
        Some(WireSpec::Fixed64(b)) => Some(b),
        _ => None,
    }
}

pub open spec fn opt8(o: Option<[u8; 8]>) -> Option<Seq<u8>> {
    match o {
        Some(a) => Some(a@),
        None => None,
    }
}

/// Each decoded cell comes from the stored cell at its index, at that
/// cell's row and column.
pub open spec fn decoded_from(decoded: Seq<Option<CellParts>>, stored: Seq<(u32, u32, Seq<u8>)>) -> bool {
    &&& decoded.len() == stored.len()
    &&& forall|j: int|
        0 <= j < decoded.len() ==> (#[trigger] decoded[j] matches Some(c) ==> c.row == stored[j].0 && c.col
            == stored[j].1)
}

fn u32_field(m: &Msg, f: u32) -> (r: u32)
    ensures
        r == declared(fields_view(m.fields@), f),
{
    proof {
        lemma_vall(m.fields@, f);
    }
    match m.varint(f) {
        Some(v) => v as u32,
        None => 0,
    }
}

fn flag_field(m: &Msg, f: u32) -> (r: Option<bool>)
    ensures
        r == bool_of(fields_view(m.fields@), f),
{
    proof {
        lemma_vall(m.fields@, f);
    }
    m.boolean(f)
}

fn fixed64_exec(m: &Msg, f: u32) -> (r: Option<[u8; 8]>)
    ensures
        opt8(r) == fixed64_of(fields_view(m.fields@), f),
{
    proof {
        lemma_vall(m.fields@, f);
    }
    m.fixed64(f)
}

fn load_lists(loaded: &Loaded, store: &Option<Msg>) -> TableLists {
    let (s4, s6, s12, sf, s17, s15) = match store {
        Some(st) => {
            let f = match st.reference(22) {
                Some(i) => Some(i),
                None => st.reference(11),
            };
            (st.reference(4), st.reference(6), st.reference(12), f, st.reference(17), st.reference(15))
        },
        None => (None, None, None, None, None, None),
    };
    TableLists {
        strings: load_data_list(loaded, s4),
        formulas: load_data_list(loaded, s6),
        formula_errors: load_data_list(loaded, s12),
        formats: load_data_list(loaded, sf),
        custom_formats: load_data_list(loaded, s17),
        rich_text: load_data_list(loaded, s15),
    }
}

fn ordinal_rows_exec(loaded: &Loaded, store: &Msg) -> (r: Vec<Option<u32>>)
    ensures
        r@ == ordinal_rows(loaded_view(*loaded).records, fields_view(store.fields@)),
{
    let rm = strip_map_with_ctx(loaded, store, 1, 0);
    let ghost target = ordinal_rows(loaded_view(*loaded).records, fields_view(store.fields@));
    let mut out: Vec<Option<u32>> = Vec::new();
    let mut i: usize = 0;
    while i < rm.len()
        invariant
            i <= rm@.len(),
            rm@.len() == target.len(),
            forall|q: int| 0 <= q < rm@.len() ==> Some((#[trigger] rm@[q]).0) == target[q],
            out@ == target.take(i as int),
        decreases rm@.len() - i,
    {
        out.push(Some(rm[i].0));
        assert(out@ =~= target.take(i + 1));
        i = i + 1;
    }
    assert(target.take(i as int) =~= target);
    out
}

fn tile_size_exec(store: &Msg) -> (r: u64)
    ensures
        r == tile_size_of(fields_view(store.fields@)),
{
    match store.msg(3) {
        Some(ts) => {
            proof {
                lemma_vall(ts.fields@, 2);
            }
            match ts.varint(2) {
                Some(v) => if v > 0 {
                    v
                } else {
                    256
                },
                None => 256,
            }
        },
        None => 256,
    }
}

fn candidates_exec(m: &Msg) -> (r: usize)
    ensures
        r == candidates(owner_pairs(fields_view(m.fields@))),
{
    let pairs: Vec<Msg> = match m.msg(47) {
        Some(mo) => match mo.msg(2) {
            Some(fs) => fs.msgs(3),
            None => Vec::new(),
        },
        None => Vec::new(),
    };
    let ghost ps = owner_pairs(fields_view(m.fields@));
    assert(pairs@.map_values(|x: Msg| fields_view(x.fields@)) =~= ps);
    let mut n: usize = 0;
    let mut i: usize = 0;
    while i < pairs.len()
        invariant
            i <= pairs@.len(),
            pairs@.len() == ps.len(),
            forall|q: int| 0 <= q < pairs@.len() ==> fields_view(#[trigger] pairs@[q].fields@) == ps[q],
            n == candidates(ps.take(i as int)),
            n <= i,
        decreases pairs@.len() - i,
    {
        assert(ps.take(i + 1).drop_last() =~= ps.take(i as int));
        assert(ps.take(i + 1).last() == ps[i as int]);
        let has = match pairs[i].msg(2) {
            Some(f) => f.msg(1).is_some(),
            None => false,
        };
        if has {
            n = n + 1;
        }
        i = i + 1;
    }
    assert(ps.take(i as int) =~= ps);
    n
}

fn holes_exec(g: &Vec<Option<CellParts>>) -> (r: usize)
    ensures
        r == holes(g@),
{
    let mut n: usize = 0;
    let mut i: usize = 0;
    while i < g.len()
        invariant
            i <= g@.len(),
            n == holes(g@.take(i as int)),
            n <= i,
        decreases g@.len() - i,
    {
        assert(g@.take(i + 1).drop_last() =~= g@.take(i as int));
        if g[i].is_none() {
            n = n + 1;
        }
        i = i + 1;
    }
    assert(g@.take(i as int) =~= g@);
    n
}

/// `t` is table model `m` read: see `convert_table`.
pub open spec fn table_ok(loaded: Loaded, m: Seq<(u32, WireSpec)>, t: TableModel) -> bool {
    &&& (t.row_count, t.column_count) == clamped_size(declared(m, 6), declared(m, 7))
    &&& t.grid@.len() == t.row_count * t.column_count
    &&& exists|decoded: Seq<Option<CellParts>>|
                    #[trigger] decoded_from(decoded, model_cells(loaded_view(loaded).records, m)) && placed(
                        t.grid@,
                        decoded,
                        t.row_count,
                        t.column_count,
                    )
    &&& merges_outcome(loaded, m, t.row_count, t.column_count, t.merges@)
    &&& anchors_ascending(t.merges@)
    &&& all_inside(t.merges@, t.row_count, t.column_count)
    &&& opt_text(t.name) == shown_name(m)
    &&& t.header_row_count == declared(m, 9)
    &&& t.header_column_count == declared(m, 10)
    &&& t.footer_row_count == declared(m, 11)
    &&& t.header_rows_frozen == bool_of(m, 12)
    &&& t.header_columns_frozen == bool_of(m, 13)
    &&& opt8(t.default_row_height) == fixed64_of(m, 16)
    &&& opt8(t.default_column_width) == fixed64_of(m, 17)
}

fn decode_all(loaded: &Loaded, stored: &Vec<(u32, u32, Vec<u8>)>, lists: &TableLists, warnings: &mut Vec<Warning>) -> (r: Vec<
    Option<CellParts>,
>)
    ensures
        decoded_from(r@, stored_view(stored@)),
        view_warnings(old(warnings)@).is_prefix_of(view_warnings(final(warnings)@)),
{
    let ghost sv = stored_view(stored@);
    let mut out: Vec<Option<CellParts>> = Vec::new();
    let mut j: usize = 0;
    while j < stored.len()
        invariant
            j <= stored@.len(),
            sv == stored_view(stored@),
            out@.len() == j,
            forall|q: int| 0 <= q < j ==> (#[trigger] out@[q] matches Some(c) ==> c.row == sv[q].0 && c.col == sv[q].1),
            view_warnings(old(warnings)@).is_prefix_of(view_warnings(warnings@)),
        decreases stored@.len() - j,
    {
        let (row, col, bytes) = (stored[j].0, stored[j].1, &stored[j].2);
        let c = if bytes.len() >= 12 {
            let ghost w0 = view_warnings(warnings@);
            let c = decode_stored_cell(loaded, row, col, bytes.as_slice(), lists, warnings);
            proof {
                let w1 = view_warnings(warnings@);
                let o = view_warnings(old(warnings)@);
                assert(o.len() <= w0.len() <= w1.len());
                assert forall|q: int| 0 <= q < o.len() implies o[q] == w1[q] by {
                    assert(o[q] == w0[q]);
                    assert(w0[q] == w1[q]);
                }
                assert(o.is_prefix_of(w1));
            }
            c
        } else {
            None
        };
        out.push(c);
        j = j + 1;
    }
    out
}

/// Table model `model_id`: none, with a warning, when the id names no
/// loaded message (see `table_shape`). Otherwise its size is the declared
/// one clamped (see `clamp_table_size`); its grid places, at their rows and
/// columns, the cells decoded from the stored cells of its data store's
/// tiles (see `model_cells`; a later cell at one position wins, cells
/// outside the table are left out); its merges are those of
/// `table_merges`, inside the table and in anchor order; its caption,
/// header and footer counts (fields 9–11), frozen flags (12, 13) and the
/// bytes of its default row height and column width (16, 17) are read as
/// stored. After the size warnings and the cells' own come, in order: one
/// for pre-BNC tile storage, and one when merge candidates gave no merge
/// while the grid has holes.
pub fn convert_table(loaded: &Loaded, model_id: u64, warnings: &mut Vec<Warning>) -> (r: Option<TableModel>)
    ensures
        match model_msg(*loaded, model_id) {
            None => r is None && view_warnings(final(warnings)@) == view_warnings(old(warnings)@).push(
                unresolved_table(model_id),
            ),
            Some(m) => r matches Some(t) && {
                &&& table_ok(*loaded, m, t)
                &&& exists|cell_ws: Seq<WarningView>|
                    view_warnings(final(warnings)@) == view_warnings(old(warnings)@) + size_warnings(
                        model_id,
                        declared(m, 6),
                        declared(m, 7),
                    ) + cell_ws + (if model_pre_bnc(loaded_view(*loaded).records, m) {
                        seq![pre_bnc_warning(model_id)]
                    } else {
                        Seq::empty()
                    }) + (if candidates(owner_pairs(m)) > 0 && t.merges@.len() == 0 && holes(t.grid@) > 0 {
                        seq![
                            lost_merges_warning(
                                holes(t.grid@),
                                match vstring(m, 8) {
                                    Some(n) => n,
                                    None => Seq::empty(),
                                },
                            ),
                        ]
                    } else {
                        Seq::empty()
                    })
            },
        },
{
    let ghost records = loaded_view(*loaded).records;
    let ghost w_old = view_warnings(warnings@);
    let m = match loaded.msg(model_id) {
        Some(m) => m,
        None => {
            let mut msg = owned("table model reference ");
            push_decimal(&mut msg, model_id);
            push_str(&mut msg, " points nowhere");
            let mut d = String::new();
            push_decimal(&mut d, model_id);
            assert(d@ =~= crate::text_util::dec(model_id as nat));
            warnings.push(
                Warning { code: WarningCode::UnresolvedReference, message: msg, path: None, detail: Some(d), count: None, paths: None },
            );
            assert(view_warnings(warnings@) =~= w_old.push(unresolved_table(model_id)));
            assert(model_msg(*loaded, model_id) is None);
            return None;
        },
    };
    let ghost mv = fields_view(m.fields@);
    assert(model_msg(*loaded, model_id) == Some(mv));
    let rows_declared = u32_field(m, 6);
    let cols_declared = u32_field(m, 7);
    let (row_count, column_count) = clamp_table_size(model_id, rows_declared, cols_declared, warnings);
    let ghost w_size = view_warnings(warnings@);
    let store = m.msg(4);
    let lists = load_lists(loaded, &store);
    let (stored, saw_pre_bnc) = match &store {
        Some(st) => {
            let ord = ordinal_rows_exec(loaded, st);
            let ts = tile_size_exec(st);
            collect_stored_cells(loaded, st, &ord, ts)
        },
        None => (Vec::new(), false),
    };
    assert(stored_view(stored@) == model_cells(records, mv));
    let decoded = decode_all(loaded, &stored, &lists, warnings);
    let ghost dv = decoded@;
    let ghost w_cells = view_warnings(warnings@);
    let ghost cell_ws = w_cells.subrange(w_size.len() as int, w_cells.len() as int);
    assert(w_cells =~= w_size + cell_ws);
    if saw_pre_bnc {
        let mut msg = owned("table model ");
        push_decimal(&mut msg, model_id);
        push_str(&mut msg, " contains pre-BNC tile storage; decode is best-effort");
        warnings.push(Warning { code: WarningCode::TableDegraded, message: msg, path: None, detail: None, count: None, paths: None });
        assert(view_warnings(warnings@) =~= w_cells.push(pre_bnc_warning(model_id)));
    }
    let ghost w_pre = view_warnings(warnings@);
    let grid = place_cells(decoded, row_count, column_count);
    let merges = table_merges(loaded, m, row_count, column_count);
    let cands = candidates_exec(m);
    if cands > 0 && merges.len() == 0 {
        let nulls = holes_exec(&grid);
        if nulls > 0 {
            let mut msg = owned(
                "merge owner present but no ranges decoded (formula-store + region-map paths empty; TSCE dependency-archive merges not yet read); ",
            );
            push_decimal(&mut msg, nulls as u64);
            push_str(&mut msg, " covered cells emit as null without span info");
            let name = match crate::cell_formats::string_of(m, 8) {
                Some(n) => n,
                None => String::new(),
            };
            let mut d = owned("table '");
            push_str(&mut d, name.as_str());
            push_str(&mut d, "'");
            warnings.push(Warning { code: WarningCode::TableDegraded, message: msg, path: None, detail: Some(d), count: None, paths: None });
            assert(view_warnings(warnings@) =~= w_pre.push(
                lost_merges_warning(
                    holes(grid@),
                    match vstring(mv, 8) {
                        Some(n) => n,
                        None => Seq::empty(),
                    },
                ),
            ));
        }
    }
    proof {
        reveal_strlit("");
    }
    let name = match crate::cell_formats::string_of(m, 8) {
        Some(n) => if {
            proof {
                if n@.len() == 0 {
                    assert(n@ =~= ""@);
                }
            }
            !crate::text_util::str_eq(n.as_str(), "")
        } && flag_field(m, 22) == Some(true) {
            Some(n)
        } else {
            None
        },
        None => None,
    };
    let t = TableModel {
        name,
        row_count,
        column_count,
        header_row_count: u32_field(m, 9),
        header_column_count: u32_field(m, 10),
        footer_row_count: u32_field(m, 11),
        header_rows_frozen: flag_field(m, 12),
        header_columns_frozen: flag_field(m, 13),
        default_row_height: fixed64_exec(m, 16),
        default_column_width: fixed64_exec(m, 17),
        grid,
        merges,
    };
    assert(decoded_from(dv, model_cells(records, mv)));
    assert(placed(t.grid@, dv, t.row_count, t.column_count));
    proof {
        reveal_strlit("");
    }
    assert(opt_text(t.name) == shown_name(mv));
    assert(view_warnings(warnings@) == w_old + size_warnings(model_id, declared(mv, 6), declared(mv, 7)) + cell_ws + (
    if model_pre_bnc(records, mv) {
        seq![pre_bnc_warning(model_id)]
    } else {
        Seq::empty()
    }) + (if candidates(owner_pairs(mv)) > 0 && t.merges@.len() == 0 && holes(t.grid@) > 0 {
        seq![
            lost_merges_warning(
                holes(t.grid@),
                match vstring(mv, 8) {
                    Some(n) => n,
                    None => Seq::empty(),
                },
            ),
        ]
    } else {
        Seq::empty()
    }));
    Some(t)
}

} // verus!
