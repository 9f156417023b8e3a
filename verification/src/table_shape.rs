//! The shape of a table model: its size, clamped to the app's limits, and
//! its merged-cell ranges, sorted by anchor.
use vstd::prelude::*;
use crate::model::{TableMerge, Warning, WarningCode};
use crate::text_util::{owned, push_str, push_decimal, dec};
use crate::{WarningView, view_warning, view_warnings};
use crate::pb::{Msg, WireValue, vget, vvarint, vmsg, vall, nested_all, lemma_vall};
use crate::wire::{WireSpec, fields_view};
use crate::tables::{merge_of, push_merge, min_u64, uuid_of, dependency_merges, dependency_ranges, merges_from};
use crate::loader::{Loaded, RecordView, Record, loaded_view};
use crate::ctx::loaded_msg;
use crate::keynote::ref_of;
use crate::cell_storage::le_u32;
use crate::formulas::{uuid_of_msg, is_key_walk, walk_of};
use crate::pages::{stable_by_key, stable_positions};

verus! {

/// The most rows a table may have.
pub const MAX_ROWS: u32 = 1_000_000;

/// The most columns a table may have.
pub const MAX_COLUMNS: u32 = 10_000;

/// The most cells a table's grid may hold.
pub const MAX_CELLS: u64 = 8_000_000;

/// A warning about table model `model_id`, which it names as its detail.
pub open spec fn table_warning(message: Seq<char>, model_id: u64) -> WarningView {
    WarningView {
        code: WarningCode::TableDegraded,
        message,
        path: None,
        detail: Some(dec(model_id as nat)),
        count: None,
        paths: None,
    }
}

/// The size after the row and column limits.
pub open spec fn limited_size(rows: u32, cols: u32) -> (u32, u32) {
    (if rows > MAX_ROWS { MAX_ROWS } else { rows }, if cols > MAX_COLUMNS { MAX_COLUMNS } else { cols })
}

/// The rows kept under the cell budget with `cols` columns.
pub open spec fn budget_rows(cols: u32) -> u32 {
    (MAX_CELLS / (if cols == 0 { 1 } else { cols as u64 })) as u32
}

/// The size a table declared as `rows` × `cols` is read with: each count
/// clamped to its limit, then the rows cut to what the cell budget allows.
pub open spec fn clamped_size(rows: u32, cols: u32) -> (u32, u32) {
    let (r, c) = limited_size(rows, cols);
    if r * c > MAX_CELLS {
        (budget_rows(c), c)
    } else {
        (r, c)
    }
}

/// The warnings clamping raises: one when a count passes its limit, one
/// when the grid passes the cell budget.
pub open spec fn size_warnings(model_id: u64, rows: u32, cols: u32) -> Seq<WarningView> {
    let (r, c) = limited_size(rows, cols);
    let first = if rows > MAX_ROWS || cols > MAX_COLUMNS {
        seq![
            table_warning(
                "table declares "@ + dec(rows as nat) + " x "@ + dec(cols as nat)
                    + " cells, past app limits; clamping"@,
                model_id,
            ),
        ]
    } else {
        Seq::empty()
    };
    let second = if r * c > MAX_CELLS {
        seq![
            table_warning(
                "table declares "@ + dec(r as nat) + " x "@ + dec(c as nat)
                    + " cells, past the 8000000-cell budget; keeping the first "@ + dec(
                    budget_rows(c) as nat,
                ) + " rows"@,
                model_id,
            ),
        ]
    } else {
        Seq::empty()
    };
    first + second
}

fn table_warning_exec(message: String, model_id: u64) -> (w: Warning)
    ensures
        view_warning(w) == table_warning(message@, model_id),
{
    let mut d = String::new();
    push_decimal(&mut d, model_id);
    assert(d@ =~= dec(model_id as nat));
    Warning { code: WarningCode::TableDegraded, message, path: None, detail: Some(d), count: None, paths: None }
}

proof fn lemma_budget(r: u32, c: u32)
    requires
        r <= MAX_ROWS,
        c <= MAX_COLUMNS,
        r * c > MAX_CELLS,
    ensures
        c > 0,
        budget_rows(c) < r,
        budget_rows(c) * c <= MAX_CELLS,
{
    if c == 0 {
        assert(r * c == 0) by (nonlinear_arith)
            requires
                c == 0,
        ;
    }
    let q = MAX_CELLS / (c as u64);
    assert(q * c <= MAX_CELLS) by (nonlinear_arith)
        requires
            c > 0,
            q == MAX_CELLS / (c as u64),
    ;
    assert(q < r) by (nonlinear_arith)
        requires
            c > 0,
            q * c <= MAX_CELLS,
            r * c > MAX_CELLS,
    ;
}

/// The size table model `model_id` is read with, from its declared
/// `rows` × `cols` (see `clamped_size`); the warnings of `size_warnings`
/// are pushed.
pub fn clamp_table_size(model_id: u64, rows: u32, cols: u32, warnings: &mut Vec<Warning>) -> (r: (u32, u32))
    ensures
        r == clamped_size(rows, cols),
        r.0 <= MAX_ROWS,
        r.1 <= MAX_COLUMNS,
        r.0 * r.1 <= MAX_CELLS,
        view_warnings(final(warnings)@) == view_warnings(old(warnings)@) + size_warnings(model_id, rows, cols),
{
    let ghost w0 = view_warnings(warnings@);
    let mut row_count = rows;
    let mut column_count = cols;
    if rows > MAX_ROWS || cols > MAX_COLUMNS {
        let mut m = owned("table declares ");
        push_decimal(&mut m, rows as u64);
        push_str(&mut m, " x ");
        push_decimal(&mut m, cols as u64);
        push_str(&mut m, " cells, past app limits; clamping");
        warnings.push(table_warning_exec(m, model_id));
        if row_count > MAX_ROWS {
            row_count = MAX_ROWS;
        }
        if column_count > MAX_COLUMNS {
            column_count = MAX_COLUMNS;
        }
    }
    let ghost w1 = view_warnings(warnings@);
    assert(w1 =~= w0 + if rows > MAX_ROWS || cols > MAX_COLUMNS {
        seq![
            table_warning(
                "table declares "@ + dec(rows as nat) + " x "@ + dec(cols as nat)
                    + " cells, past app limits; clamping"@,
                model_id,
            ),
        ]
    } else {
        Seq::<WarningView>::empty()
    });
    assert((row_count, column_count) == limited_size(rows, cols));
    assert(row_count * column_count <= 10_000_000_000) by (nonlinear_arith)
        requires
            row_count <= MAX_ROWS,
            column_count <= MAX_COLUMNS,
    ;
    if row_count as u64 * column_count as u64 > MAX_CELLS {
        proof {
            lemma_budget(row_count, column_count);
        }
        let clamped_rows = (MAX_CELLS / column_count as u64) as u32;
        let mut m = owned("table declares ");
        push_decimal(&mut m, row_count as u64);
        push_str(&mut m, " x ");
        push_decimal(&mut m, column_count as u64);
        push_str(&mut m, " cells, past the 8000000-cell budget; keeping the first ");
        push_decimal(&mut m, clamped_rows as u64);
        push_str(&mut m, " rows");
        warnings.push(table_warning_exec(m, model_id));
        assert(view_warnings(warnings@) =~= w1.push(view_warning(warnings@.last())));
        row_count = clamped_rows;
    } else {
        assert(view_warnings(warnings@) =~= w1 + Seq::<WarningView>::empty());
    }
    (row_count, column_count)
}

/// The merge, if any, as a sequence of at most one.
pub open spec fn opt_seq(m: Option<TableMerge>) -> Seq<TableMerge> {
    match m {
        Some(x) => seq![x],
        None => Seq::empty(),
    }
}

/// The larger of two values.
pub open spec fn max_u64(a: u64, b: u64) -> u64 {
    if a < b {
        b
    } else {
        a
    }
}

/// The first node, from position `i` on, whose field 1 is `t`.
pub open spec fn first_of_type(nodes: Seq<Seq<(u32, WireSpec)>>, t: u64, i: int) -> Option<
    Seq<(u32, WireSpec)>,
>
    decreases nodes.len() - i,
{
    if i < 0 || i >= nodes.len() {
        None
    } else if vvarint(nodes[i], 1) == Some(t) {
        Some(nodes[i])
    } else {
        first_of_type(nodes, t, i + 1)
    }
}

/// Whether some node's field 1 is `t`.
pub open spec fn has_type(nodes: Seq<Seq<(u32, WireSpec)>>, t: u64) -> bool {
    exists|i: int| 0 <= i < nodes.len() && vvarint(#[trigger] nodes[i], 1) == Some(t)
}

/// Field 1 of the message in field `f`, or 0.
pub open spec fn index_in(n: Seq<(u32, WireSpec)>, f: u32) -> u64 {
    match vmsg(n, f) {
        Some(x) => match vvarint(x, 1) {
            Some(v) => v,
            None => 0,
        },
        None => 0,
    }
}

/// The (row, column) of every cell-reference node (type 36), in order:
/// the row in field 27, the column in field 26.
pub open spec fn cell_refs(nodes: Seq<Seq<(u32, WireSpec)>>) -> Seq<(u64, u64)>
    decreases nodes.len(),
{
    if nodes.len() == 0 {
        Seq::empty()
    } else {
        let p = cell_refs(nodes.drop_last());
        if vvarint(nodes.last(), 1) == Some(36u64) {
            p.push((index_in(nodes.last(), 27), index_in(nodes.last(), 26)))
        } else {
            p
        }
    }
}

/// The merge a colon-tract node's range gives: the first row tract (field
/// 4) and first column tract (field 3), each from field 1 to field 2 (not
/// before field 1).
pub open spec fn tract_merge(tract: Seq<(u32, WireSpec)>, rows: u32, cols: u32) -> Seq<TableMerge> {
    let rs = nested_all(vall(tract, 4));
    let cs = nested_all(vall(tract, 3));
    if rs.len() > 0 && cs.len() > 0 && vvarint(rs[0], 1) is Some && vvarint(cs[0], 1) is Some {
        let r0 = vvarint(rs[0], 1)->0;
        let c0 = vvarint(cs[0], 1)->0;
        let r1 = max_u64(
            match vvarint(rs[0], 2) {
                Some(x) => x,
                None => r0,
            },
            r0,
        );
        let c1 = max_u64(
            match vvarint(cs[0], 2) {
                Some(x) => x,
                None => c0,
            },
            c0,
        );
        opt_seq(merge_of(r0, c0, r1, c1, rows, cols))
    } else {
        Seq::empty()
    }
}

/// The merge one formula-store pair gives: its formula's nodes (field 2,
/// then 1, then every 1) hold either a colon-tract node (type 67) whose
/// range (field 40) is the merge, or exactly two cell references and a
/// colon node (type 29), whose corners span it.
pub open spec fn pair_merge(pair: Seq<(u32, WireSpec)>, rows: u32, cols: u32) -> Seq<TableMerge> {
    match vmsg(pair, 2) {
        Some(f) => match vmsg(f, 1) {
            Some(arr) => {
                let nodes = nested_all(vall(arr, 1));
                match (match first_of_type(nodes, 67, 0) {
                    Some(n) => vmsg(n, 40),
                    None => None,
                }) {
                    Some(tract) => tract_merge(tract, rows, cols),
                    None => {
                        let refs = cell_refs(nodes);
                        if refs.len() == 2 && has_type(nodes, 29) {
                            opt_seq(
                                merge_of(
                                    min_u64(refs[0].0, refs[1].0),
                                    min_u64(refs[0].1, refs[1].1),
                                    max_u64(refs[0].0, refs[1].0),
                                    max_u64(refs[0].1, refs[1].1),
                                    rows,
                                    cols,
                                ),
                            )
                        } else {
                            Seq::empty()
                        }
                    },
                }
            },
            None => Seq::empty(),
        },
        None => Seq::empty(),
    }
}

/// The merges of the formula-store pairs, in order.
pub open spec fn pair_merges(pairs: Seq<Seq<(u32, WireSpec)>>, rows: u32, cols: u32) -> Seq<TableMerge>
    decreases pairs.len(),
{
    if pairs.len() == 0 {
        Seq::empty()
    } else {
        pair_merges(pairs.drop_last(), rows, cols) + pair_merge(pairs.last(), rows, cols)
    }
}

/// The formula-store pairs of a table model's merge owner (field 47, its
/// field 2, every field 3).
pub open spec fn owner_pairs(m: Seq<(u32, WireSpec)>) -> Seq<Seq<(u32, WireSpec)>> {
    match vmsg(m, 47) {
        Some(mo) => match vmsg(mo, 2) {
            Some(fs) => nested_all(vall(fs, 3)),
            None => Seq::empty(),
        },
        None => Seq::empty(),
    }
}

/// The viewed fields of each message.
pub open spec fn views(v: Seq<Msg>) -> Seq<Seq<(u32, WireSpec)>> {
    v.map_values(|x: Msg| fields_view(x.fields@))
}

fn vint(m: &Msg, n: u32) -> (r: Option<u64>)
    ensures
        r == vvarint(fields_view(m.fields@), n),
{
    proof {
        lemma_vall(m.fields@, n);
    }
    m.varint(n)
}

fn msgs_of(m: &Msg, n: u32) -> (r: Vec<Msg>)
    ensures
        views(r@) == nested_all(vall(fields_view(m.fields@), n)),
{
    let r = m.msgs(n);
    assert(views(r@) =~= nested_all(vall(fields_view(m.fields@), n)));
    r
}

fn is_type(n: &Msg, t: u64) -> (r: bool)
    ensures
        r == (vvarint(fields_view(n.fields@), 1) == Some(t)),
{
    match vint(n, 1) {
        Some(v) => v == t,
        None => false,
    }
}

fn first_of_type_exec(nodes: &Vec<Msg>, t: u64) -> (r: Option<usize>)
    ensures
        match first_of_type(views(nodes@), t, 0) {
            Some(n) => r matches Some(i) && i < nodes@.len() && views(nodes@)[i as int] == n,
            None => r is None,
        },
{
    let ghost vs = views(nodes@);
    let mut i: usize = 0;
    while i < nodes.len()
        invariant
            i <= nodes@.len(),
            vs == views(nodes@),
            first_of_type(vs, t, 0) == first_of_type(vs, t, i as int),
        decreases nodes@.len() - i,
    {
        if is_type(&nodes[i], t) {
            return Some(i);
        }
        i = i + 1;
    }
    None
}

fn has_type_exec(nodes: &Vec<Msg>, t: u64) -> (r: bool)
    ensures
        r == has_type(views(nodes@), t),
{
    let ghost vs = views(nodes@);
    let mut i: usize = 0;
    while i < nodes.len()
        invariant
            i <= nodes@.len(),
            vs == views(nodes@),
            forall|j: int| 0 <= j < i ==> vvarint(#[trigger] vs[j], 1) != Some(t),
        decreases nodes@.len() - i,
    {
        if is_type(&nodes[i], t) {
            assert(vvarint(vs[i as int], 1) == Some(t));
            return true;
        }
        i = i + 1;
    }
    false
}

fn index_in_exec(n: &Msg, f: u32) -> (r: u64)
    ensures
        r == index_in(fields_view(n.fields@), f),
{
    match n.msg(f) {
        Some(x) => match vint(&x, 1) {
            Some(v) => v,
            None => 0,
        },
        None => 0,
    }
}

fn cell_refs_exec(nodes: &Vec<Msg>) -> (r: Vec<(u64, u64)>)
    ensures
        r@ == cell_refs(views(nodes@)),
{
    let ghost vs = views(nodes@);
    let mut out: Vec<(u64, u64)> = Vec::new();
    let mut i: usize = 0;
    while i < nodes.len()
        invariant
            i <= nodes@.len(),
            vs == views(nodes@),
            out@ == cell_refs(vs.take(i as int)),
        decreases nodes@.len() - i,
    {
        assert(vs.take(i + 1).drop_last() =~= vs.take(i as int));
        assert(vs.take(i + 1).last() == vs[i as int]);
        if is_type(&nodes[i], 36) {
            let p = (index_in_exec(&nodes[i], 27), index_in_exec(&nodes[i], 26));
            out.push(p);
        }
        i = i + 1;
    }
    assert(vs.take(i as int) =~= vs);
    out
}

fn tract_merge_exec(tract: &Msg, rows: u32, cols: u32, merges: &mut Vec<TableMerge>)
    ensures
        final(merges)@ == old(merges)@ + tract_merge(fields_view(tract.fields@), rows, cols),
{
    let rs = msgs_of(tract, 4);
    let cs = msgs_of(tract, 3);
    let ghost v = fields_view(tract.fields@);
    if rs.len() > 0 && cs.len() > 0 {
        assert(views(rs@)[0] == fields_view(rs@[0].fields@));
        assert(views(cs@)[0] == fields_view(cs@[0].fields@));
        match (vint(&rs[0], 1), vint(&cs[0], 1)) {
            (Some(r0), Some(c0)) => {
                let r1 = match vint(&rs[0], 2) {
                    Some(x) => if x < r0 { r0 } else { x },
                    None => r0,
                };
                let c1 = match vint(&cs[0], 2) {
                    Some(x) => if x < c0 { c0 } else { x },
                    None => c0,
                };
                push_merge(merges, r0, c0, r1, c1, rows, cols);
                assert(final(merges)@ =~= old(merges)@ + tract_merge(v, rows, cols));
                return;
            },
            _ => {},
        }
    }
    assert(old(merges)@ + tract_merge(v, rows, cols) =~= old(merges)@);
}

fn pair_merge_exec(pair: &Msg, rows: u32, cols: u32, merges: &mut Vec<TableMerge>)
    ensures
        final(merges)@ == old(merges)@ + pair_merge(fields_view(pair.fields@), rows, cols),
{
    let ghost v = fields_view(pair.fields@);
    let arr = match pair.msg(2) {
        Some(f) => match f.msg(1) {
            Some(a) => a,
            None => {
                assert(old(merges)@ + pair_merge(v, rows, cols) =~= old(merges)@);
                return;
            },
        },
        None => {
            assert(old(merges)@ + pair_merge(v, rows, cols) =~= old(merges)@);
            return;
        },
    };
    let nodes = msgs_of(&arr, 1);
    let tract = match first_of_type_exec(&nodes, 67) {
        Some(i) => {
            assert(views(nodes@)[i as int] == fields_view(nodes@[i as int].fields@));
            nodes[i].msg(40)
        },
        None => None,
    };
    match tract {
        Some(t) => {
            tract_merge_exec(&t, rows, cols, merges);
        },
        None => {
            let refs = cell_refs_exec(&nodes);
            if refs.len() == 2 && has_type_exec(&nodes, 29) {
                let (a0, a1) = refs[0];
                let (b0, b1) = refs[1];
                let r0 = if a0 < b0 { a0 } else { b0 };
                let c0 = if a1 < b1 { a1 } else { b1 };
                let r1 = if a0 < b0 { b0 } else { a0 };
                let c1 = if a1 < b1 { b1 } else { a1 };
                push_merge(merges, r0, c0, r1, c1, rows, cols);
                assert(final(merges)@ =~= old(merges)@ + pair_merge(v, rows, cols));
            } else {
                assert(old(merges)@ + pair_merge(v, rows, cols) =~= old(merges)@);
            }
        },
    }
}

/// The merges of a table model's merge-owner formula store: one per pair
/// whose formula gives a range (see `pair_merge`), clipped to the table's
/// `rows` × `cols`, in the store's order.
pub fn owner_merges(m: &Msg, rows: u32, cols: u32) -> (r: Vec<TableMerge>)
    ensures
        r@ == pair_merges(owner_pairs(fields_view(m.fields@)), rows, cols),
{
    let mut out: Vec<TableMerge> = Vec::new();
    let pairs = match m.msg(47) {
        Some(mo) => match mo.msg(2) {
            Some(fs) => msgs_of(&fs, 3),
            None => Vec::new(),
        },
        None => Vec::new(),
    };
    let ghost ps = views(pairs@);
    assert(ps =~= owner_pairs(fields_view(m.fields@)));
    let mut i: usize = 0;
    while i < pairs.len()
        invariant
            i <= pairs@.len(),
            ps == views(pairs@),
            out@ == pair_merges(ps.take(i as int), rows, cols),
        decreases pairs@.len() - i,
    {
        assert(ps.take(i + 1).drop_last() =~= ps.take(i as int));
        assert(ps.take(i + 1).last() == ps[i as int]);
        pair_merge_exec(&pairs[i], rows, cols, &mut out);
        i = i + 1;
    }
    assert(ps.take(i as int) =~= ps);
    out
}

/// The little-endian word in field 1 of a message, when it is a
/// four-byte field.
pub open spec fn word_of(m: Option<Seq<(u32, WireSpec)>>) -> Option<u32> {
    match m {
        Some(x) => match vget(x, 1) {
            Some(WireSpec::Fixed32(b)) => if b.len() == 4 {
                Some(le_u32(b, 0))
            } else {
                None
            },
            _ => None,
        },
        None => None,
    }
}

/// The merge a legacy cell range gives: its origin (field 1) and size
/// (field 2) pack the column in the high 16 bits and the row in the low
/// 16; a zero span counts as one; the range is clipped to the table like
/// every stored range (see `merge_of`).
pub open spec fn region_merge(cr: Seq<(u32, WireSpec)>, rows: u32, cols: u32) -> Seq<TableMerge> {
    match (word_of(vmsg(cr, 1)), word_of(vmsg(cr, 2))) {
        (Some(op), Some(sp)) => {
            let r0 = (op & 0xFFFF) as u64;
            let c0 = (op >> 16) as u64;
            let rs = if sp & 0xFFFF == 0 { 1 } else { sp & 0xFFFF };
            let cs = if sp >> 16 == 0 { 1 } else { sp >> 16 };
            opt_seq(merge_of(r0, c0, (r0 + rs - 1) as u64, (c0 + cs - 1) as u64, rows, cols))
        },
        _ => Seq::empty(),
    }
}

/// The merges of the legacy cell ranges, in order.
pub open spec fn region_list(crs: Seq<Seq<(u32, WireSpec)>>, rows: u32, cols: u32) -> Seq<TableMerge>
    decreases crs.len(),
{
    if crs.len() == 0 {
        Seq::empty()
    } else {
        region_list(crs.drop_last(), rows, cols) + region_merge(crs.last(), rows, cols)
    }
}

/// The merges of the legacy merge-region map a table's data store names
/// (field 13): every cell range (field 1) of the loaded map.
pub open spec fn region_merges(records: Map<u64, RecordView>, store: Option<Seq<(u32, WireSpec)>>, rows: u32, cols: u32) -> Seq<
    TableMerge,
> {
    match store {
        Some(st) => match ref_of(st, 13) {
            Some(id) => match loaded_msg(records, id) {
                Some(mrm) => region_list(nested_all(vall(mrm, 1)), rows, cols),
                None => Seq::empty(),
            },
            None => Seq::empty(),
        },
        None => Seq::empty(),
    }
}

/// The uuid of a table model's haunted owner (field 84, its field 1).
pub open spec fn haunted_of(m: Seq<(u32, WireSpec)>) -> Option<u128> {
    uuid_of_msg(
        match vmsg(m, 84) {
            Some(h) => vmsg(h, 1),
            None => None,
        },
    )
}

/// A merge's anchor as one key: its row, then its column.
pub open spec fn anchor_key(t: TableMerge) -> u64 {
    (t.anchor_row as u64 * 4294967296 + t.anchor_column as u64) as u64
}

/// The anchor keys of the merges.
pub open spec fn anchor_keys(ms: Seq<TableMerge>) -> Seq<u64> {
    ms.map_values(|t: TableMerge| anchor_key(t))
}

/// `r` is `ms` sorted by anchor (row, then column), merges with one anchor
/// keeping their order.
pub open spec fn sorted_by_anchor(r: Seq<TableMerge>, ms: Seq<TableMerge>) -> bool {
    exists|ord: Seq<int>|
        #[trigger] stable_by_key(ord, anchor_keys(ms)) && r == ord.map_values(
            |i: int| ms[i],
        )
}

/// The anchors of `r` come in order: by row, then by column.
pub open spec fn anchors_ascending(r: Seq<TableMerge>) -> bool {
    forall|a: int, b: int|
        0 <= a < b < r.len() ==> #[trigger] r[a].anchor_row < #[trigger] r[b].anchor_row || (r[a].anchor_row
            == r[b].anchor_row && r[a].anchor_column <= r[b].anchor_column)
}

fn word_exec(m: Option<Msg>) -> (r: Option<u32>)
    ensures
        r == word_of(
            match m {
                Some(x) => Some(fields_view(x.fields@)),
                None => None,
            },
        ),
{
    match m {
        Some(x) => {
            proof {
                lemma_vall(x.fields@, 1);
            }
            match x.get(1) {
                Some(WireValue::Fixed32(a)) => {
                    let w = a[0] as u32 + 256 * (a[1] as u32) + 65536 * (a[2] as u32) + 16777216 * (a[3] as u32);
                    assert(a@.len() == 4);
                    Some(w)
                },
                _ => None,
            }
        },
        None => None,
    }
}

fn region_merges_exec(loaded: &Loaded, store: &Option<Msg>, rows: u32, cols: u32) -> (r: Vec<TableMerge>)
    ensures
        r@ == region_merges(
            loaded_view(*loaded).records,
            match store {
                Some(x) => Some(fields_view(x.fields@)),
                None => None,
            },
            rows,
            cols,
        ),
{
    let mut out: Vec<TableMerge> = Vec::new();
    let id = match store {
        Some(st) => st.reference(13),
        None => None,
    };
    let mrm = match id {
        Some(i) => loaded.msg(i),
        None => None,
    };
    match mrm {
        Some(mrm) => {
            let crs = msgs_of(mrm, 1);
            let ghost cs = views(crs@);
            let mut i: usize = 0;
            while i < crs.len()
                invariant
                    i <= crs@.len(),
                    cs == views(crs@),
                    out@ == region_list(cs.take(i as int), rows, cols),
                decreases crs@.len() - i,
            {
                assert(cs.take(i + 1).drop_last() =~= cs.take(i as int));
                assert(cs.take(i + 1).last() == cs[i as int]);
                let ghost before = out@;
                let origin = word_exec(crs[i].msg(1));
                let size = word_exec(crs[i].msg(2));
                match (origin, size) {
                    (Some(op), Some(sp)) => {
                        let r0 = (op & 0xFFFF) as u64;
                        let c0 = (op >> 16) as u64;
                        let rs = if sp & 0xFFFF == 0 { 1 } else { sp & 0xFFFF };
                        let cs_ = if sp >> 16 == 0 { 1 } else { sp >> 16 };
                        push_merge(&mut out, r0, c0, r0 + rs as u64 - 1, c0 + cs_ as u64 - 1, rows, cols);
                        assert(out@ =~= before + region_merge(cs[i as int], rows, cols));
                    },
                    _ => {
                        assert(out@ =~= before + region_merge(cs[i as int], rows, cols));
                    },
                }
                assert(out@ =~= region_list(cs.take(i + 1), rows, cols));
                i = i + 1;
            }
            assert(cs.take(i as int) =~= cs);
        },
        None => {},
    }
    out
}

/// `ms` sorted by anchor, row then column; merges with one anchor keep
/// their order.
pub fn sort_by_anchor(ms: &Vec<TableMerge>) -> (r: Vec<TableMerge>)
    ensures
        sorted_by_anchor(r@, ms@),
        anchors_ascending(r@),
{
    let ghost keys_spec = anchor_keys(ms@);
    let mut keys: Vec<u64> = Vec::new();
    let mut i: usize = 0;
    while i < ms.len()
        invariant
            i <= ms@.len(),
            keys_spec == anchor_keys(ms@),
            keys@ == keys_spec.take(i as int),
        decreases ms@.len() - i,
    {
        let t = ms[i];
        keys.push(t.anchor_row as u64 * 4294967296 + t.anchor_column as u64);
        assert(keys@ =~= keys_spec.take(i + 1));
        i = i + 1;
    }
    assert(keys@ =~= keys_spec);
    let ord = stable_positions(&keys);
    let ghost o = ord@.map_values(|j: usize| j as int);
    let mut out: Vec<TableMerge> = Vec::new();
    let mut p: usize = 0;
    while p < ord.len()
        invariant
            p <= ord@.len(),
            o == ord@.map_values(|j: usize| j as int),
            stable_by_key(o, keys_spec),
            keys_spec.len() == ms@.len(),
            out@ == o.take(p as int).map_values(|j: int| ms@[j]),
        decreases ord@.len() - p,
    {
        assert(0 <= o[p as int] < keys_spec.len());
        out.push(ms[ord[p]]);
        assert(out@ =~= o.take(p + 1).map_values(|j: int| ms@[j]));
        p = p + 1;
    }
    assert(o.take(p as int) =~= o);
    assert(sorted_by_anchor(out@, ms@));
    assert forall|a: int, b: int| 0 <= a < b < out@.len() implies #[trigger] out@[a].anchor_row
        < #[trigger] out@[b].anchor_row || (out@[a].anchor_row == out@[b].anchor_row
        && out@[a].anchor_column <= out@[b].anchor_column) by {
        assert(out@[a] == ms@[o[a]] && out@[b] == ms@[o[b]]);
        assert(keys_spec[o[a]] == anchor_key(ms@[o[a]]));
        assert(keys_spec[o[b]] == anchor_key(ms@[o[b]]));
    }
    out
}

/// The merges of table model `m` in a table of `rows` × `cols`, by
/// priority: those of its merge-owner formula store; when it gives none,
/// those of the legacy merge-region map of its data store (field 4); when
/// that gives none too, those of the calc engine's dependency records for
/// its haunted owner, met in some walk of the records; sorted by anchor.
pub open spec fn merges_outcome(
    loaded: Loaded,
    m: Seq<(u32, WireSpec)>,
    rows: u32,
    cols: u32,
    r: Seq<TableMerge>,
) -> bool {
    let a = pair_merges(owner_pairs(m), rows, cols);
    let b = region_merges(loaded_view(loaded).records, vmsg(m, 4), rows, cols);
    if a.len() > 0 {
        sorted_by_anchor(r, a)
    } else if b.len() > 0 {
        sorted_by_anchor(r, b)
    } else {
        match haunted_of(m) {
            Some(h) => exists|ks: Seq<u64>|
                #[trigger] is_key_walk(ks, loaded.records@) && sorted_by_anchor(
                    r,
                    merges_from(dependency_ranges(walk_of(ks, loaded.records@), h), rows, cols),
                ),
            None => r.len() == 0,
        }
    }
}

/// The merged-cell ranges of table model `m` in a table of `rows` ×
/// `cols` (see `merges_outcome`), anchors ascending.
pub fn table_merges(loaded: &Loaded, m: &Msg, rows: u32, cols: u32) -> (r: Vec<TableMerge>)
    ensures
        merges_outcome(*loaded, fields_view(m.fields@), rows, cols, r@),
        anchors_ascending(r@),
        all_inside(r@, rows, cols),
{
    let ghost v = fields_view(m.fields@);
    let a = owner_merges(m, rows, cols);
    let r = if a.len() > 0 {
        sort_by_anchor(&a)
    } else {
        let store = m.msg(4);
        let b = region_merges_exec(loaded, &store, rows, cols);
        if b.len() > 0 {
            sort_by_anchor(&b)
        } else {
            let haunted = match m.msg(84) {
                Some(h) => uuid_of(h.msg(1)),
                None => None,
            };
            assert(haunted == haunted_of(v));
            match haunted {
                Some(h) => {
                    let d = dependency_merges(loaded, h, rows, cols);
                    sort_by_anchor(&d)
                },
                None => Vec::new(),
            }
        }
    };
    proof {
        lemma_merges_inside(*loaded, v, rows, cols, r@);
    }
    r
}

/// The frame of a table: its size and its merged-cell ranges.
pub struct TableShape {
    pub row_count: u32,
    pub column_count: u32,
    pub merges: Vec<TableMerge>,
}

/// A table model's declared count in field `f` (0 when absent), cut to
/// 32 bits.
pub open spec fn declared(m: Seq<(u32, WireSpec)>, f: u32) -> u32 {
    match vvarint(m, f) {
        Some(v) => v as u32,
        None => 0,
    }
}

/// The table model message of id `id`, when loaded.
pub open spec fn model_msg(loaded: Loaded, id: u64) -> Option<Seq<(u32, WireSpec)>> {
    loaded_msg(loaded_view(loaded).records, id)
}

/// The warning for a table model reference that names no loaded message.
pub open spec fn unresolved_table(model_id: u64) -> WarningView {
    WarningView {
        code: WarningCode::UnresolvedReference,
        message: "table model reference "@ + dec(model_id as nat) + " points nowhere"@,
        path: None,
        detail: Some(dec(model_id as nat)),
        count: None,
        paths: None,
    }
}

/// The shape of table model `model_id`: none, with a warning, when the id
/// names no loaded message; else its declared rows (field 6) and columns
/// (field 7) clamped as `clamp_table_size` does, with its warnings, and
/// its merges in that size (see `table_merges`).
pub fn table_shape(loaded: &Loaded, model_id: u64, warnings: &mut Vec<Warning>) -> (r: Option<TableShape>)
    ensures
        match model_msg(*loaded, model_id) {
            None => r is None && view_warnings(final(warnings)@) == view_warnings(old(warnings)@).push(
                unresolved_table(model_id),
            ),
            Some(m) => r matches Some(t) && (t.row_count, t.column_count) == clamped_size(
                declared(m, 6),
                declared(m, 7),
            ) && view_warnings(final(warnings)@) == view_warnings(old(warnings)@) + size_warnings(
                model_id,
                declared(m, 6),
                declared(m, 7),
            ) && merges_outcome(*loaded, m, t.row_count, t.column_count, t.merges@) && anchors_ascending(
                t.merges@,
            ) && all_inside(t.merges@, t.row_count, t.column_count),
        },
{
    let m = match loaded.msg(model_id) {
        Some(m) => m,
        None => {
            let mut msg = owned("table model reference ");
            push_decimal(&mut msg, model_id);
            push_str(&mut msg, " points nowhere");
            let mut d = String::new();
            push_decimal(&mut d, model_id);
            assert(d@ =~= dec(model_id as nat));
            let w = Warning {
                code: WarningCode::UnresolvedReference,
                message: msg,
                path: None,
                detail: Some(d),
                count: None,
                paths: None,
            };
            warnings.push(w);
            assert(view_warnings(final(warnings)@) =~= view_warnings(old(warnings)@).push(unresolved_table(model_id)));
            return None;
        },
    };
    let rows = match vint(m, 6) {
        Some(v) => v as u32,
        None => 0,
    };
    let cols = match vint(m, 7) {
        Some(v) => v as u32,
        None => 0,
    };
    let (row_count, column_count) = clamp_table_size(model_id, rows, cols, warnings);
    let merges = table_merges(loaded, m, row_count, column_count);
    Some(TableShape { row_count, column_count, merges })
}

/// A merge lies inside a table of `rows` × `cols`.
pub open spec fn inside(t: TableMerge, rows: u32, cols: u32) -> bool {
    t.anchor_row + t.row_span <= rows && t.anchor_column + t.column_span <= cols
}

/// Every merge lies inside the table.
pub open spec fn all_inside(s: Seq<TableMerge>, rows: u32, cols: u32) -> bool {
    forall|i: int| 0 <= i < s.len() ==> inside(#[trigger] s[i], rows, cols)
}

proof fn lemma_merge_of_inside(r0: u64, c0: u64, r1: u64, c1: u64, rows: u32, cols: u32)
    ensures
        all_inside(opt_seq(merge_of(r0, c0, r1, c1, rows, cols)), rows, cols),
{
    if let Some(m) = merge_of(r0, c0, r1, c1, rows, cols) {
        assert(opt_seq(merge_of(r0, c0, r1, c1, rows, cols))[0] == m);
    }
}

proof fn lemma_concat_inside(a: Seq<TableMerge>, b: Seq<TableMerge>, rows: u32, cols: u32)
    requires
        all_inside(a, rows, cols),
        all_inside(b, rows, cols),
    ensures
        all_inside(a + b, rows, cols),
{
    assert forall|i: int| 0 <= i < (a + b).len() implies inside(#[trigger] (a + b)[i], rows, cols) by {
        if i < a.len() {
            assert((a + b)[i] == a[i]);
        } else {
            assert((a + b)[i] == b[i - a.len()]);
        }
    }
}

proof fn lemma_pair_merges_inside(pairs: Seq<Seq<(u32, WireSpec)>>, rows: u32, cols: u32)
    ensures
        all_inside(pair_merges(pairs, rows, cols), rows, cols),
    decreases pairs.len(),
{
    if pairs.len() > 0 {
        lemma_pair_merges_inside(pairs.drop_last(), rows, cols);
        let pair = pairs.last();
        if let Some(f) = vmsg(pair, 2) {
            if let Some(arr) = vmsg(f, 1) {
                let nodes = nested_all(vall(arr, 1));
                match (match first_of_type(nodes, 67, 0) {
                    Some(n) => vmsg(n, 40),
                    None => None,
                }) {
                    Some(tract) => {
                        let rs = nested_all(vall(tract, 4));
                        let cs = nested_all(vall(tract, 3));
                        if rs.len() > 0 && cs.len() > 0 && vvarint(rs[0], 1) is Some && vvarint(cs[0], 1) is Some {
                            let r0 = vvarint(rs[0], 1)->0;
                            let c0 = vvarint(cs[0], 1)->0;
                            let r1 = max_u64(match vvarint(rs[0], 2) { Some(x) => x, None => r0 }, r0);
                            let c1 = max_u64(match vvarint(cs[0], 2) { Some(x) => x, None => c0 }, c0);
                            lemma_merge_of_inside(r0, c0, r1, c1, rows, cols);
                        }
                    },
                    None => {
                        let refs = cell_refs(nodes);
                        if refs.len() == 2 {
                            lemma_merge_of_inside(
                                min_u64(refs[0].0, refs[1].0),
                                min_u64(refs[0].1, refs[1].1),
                                max_u64(refs[0].0, refs[1].0),
                                max_u64(refs[0].1, refs[1].1),
                                rows,
                                cols,
                            );
                        }
                    },
                }
            }
        }
        lemma_concat_inside(pair_merges(pairs.drop_last(), rows, cols), pair_merge(pair, rows, cols), rows, cols);
    }
}

proof fn lemma_merges_from_inside(rs: Seq<(u64, u64, u64, u64)>, rows: u32, cols: u32)
    ensures
        all_inside(merges_from(rs, rows, cols), rows, cols),
    decreases rs.len(),
{
    if rs.len() > 0 {
        lemma_merges_from_inside(rs.drop_last(), rows, cols);
        let (r0, c0, r1, c1) = rs.last();
        assert(rs.last() == rs[rs.len() - 1]);
        lemma_merge_of_inside(r0, c0, r1, c1, rows, cols);
        let p = merges_from(rs.drop_last(), rows, cols);
        if let Some(m) = merge_of(r0, c0, r1, c1, rows, cols) {
            assert(opt_seq(merge_of(r0, c0, r1, c1, rows, cols))[0] == m);
            assert forall|i: int| 0 <= i < p.push(m).len() implies inside(#[trigger] p.push(m)[i], rows, cols) by {
                if i < p.len() {
                    assert(p.push(m)[i] == p[i]);
                }
            }
        }
    }
}

proof fn lemma_sorted_inside(r: Seq<TableMerge>, ms: Seq<TableMerge>, rows: u32, cols: u32)
    requires
        sorted_by_anchor(r, ms),
        all_inside(ms, rows, cols),
    ensures
        all_inside(r, rows, cols),
{
    let ord = choose|ord: Seq<int>| #[trigger] stable_by_key(ord, anchor_keys(ms)) && r == ord.map_values(|i: int| ms[i]);
    assert forall|t: int| 0 <= t < r.len() implies inside(#[trigger] r[t], rows, cols) by {
        assert(0 <= ord[t] < anchor_keys(ms).len());
        assert(r[t] == ms[ord[t]]);
    }
}

proof fn lemma_region_inside(crs: Seq<Seq<(u32, WireSpec)>>, rows: u32, cols: u32)
    ensures
        all_inside(region_list(crs, rows, cols), rows, cols),
    decreases crs.len(),
{
    if crs.len() > 0 {
        lemma_region_inside(crs.drop_last(), rows, cols);
        let cr = crs.last();
        if let (Some(op), Some(sp)) = (word_of(vmsg(cr, 1)), word_of(vmsg(cr, 2))) {
            let r0 = (op & 0xFFFF) as u64;
            let c0 = (op >> 16) as u64;
            let rs = if sp & 0xFFFF == 0 { 1 } else { sp & 0xFFFF };
            let cs = if sp >> 16 == 0 { 1 } else { sp >> 16 };
            lemma_merge_of_inside(r0, c0, (r0 + rs - 1) as u64, (c0 + cs - 1) as u64, rows, cols);
        }
        lemma_concat_inside(region_list(crs.drop_last(), rows, cols), region_merge(cr, rows, cols), rows, cols);
    }
}

/// Every merge of a table model lies inside the table: stored ranges are
/// clipped to its bounds, whichever source they come from.
pub proof fn lemma_merges_inside(loaded: Loaded, m: Seq<(u32, WireSpec)>, rows: u32, cols: u32, r: Seq<TableMerge>)
    requires
        merges_outcome(loaded, m, rows, cols, r),
    ensures
        all_inside(r, rows, cols),
{
    let a = pair_merges(owner_pairs(m), rows, cols);
    let b = region_merges(loaded_view(loaded).records, vmsg(m, 4), rows, cols);
    lemma_pair_merges_inside(owner_pairs(m), rows, cols);
    if a.len() > 0 {
        lemma_sorted_inside(r, a, rows, cols);
    } else if b.len() > 0 {
        match vmsg(m, 4) {
            Some(st) => match ref_of(st, 13) {
                Some(id) => match loaded_msg(loaded_view(loaded).records, id) {
                    Some(mrm) => lemma_region_inside(nested_all(vall(mrm, 1)), rows, cols),
                    None => {},
                },
                None => {},
            },
            None => {},
        }
        lemma_sorted_inside(r, b, rows, cols);
    } else {
        match haunted_of(m) {
            Some(h) => {
                let ks = choose|ks: Seq<u64>|
                    #[trigger] is_key_walk(ks, loaded.records@) && sorted_by_anchor(
                        r,
                        merges_from(dependency_ranges(walk_of(ks, loaded.records@), h), rows, cols),
                    );
                lemma_merges_from_inside(dependency_ranges(walk_of(ks, loaded.records@), h), rows, cols);
                lemma_sorted_inside(r, merges_from(dependency_ranges(walk_of(ks, loaded.records@), h), rows, cols), rows, cols);
            },
            None => {},
        }
    }
}

} // verus!
