//! Reading a formula's AST node messages into the nodes the formula
//! decoder walks.
use vstd::prelude::*;
use crate::formulas::{AxisRef, CellRefNode, AbsRange, RelRange, Tract, StickyBits, ColonTractNode, uuid_of_msg};
use crate::formula_decode::AstNode;
use crate::pb::{Msg, vvarint, vmsg, vall, nested_all, lemma_vall};
use crate::wire::{WireSpec, fields_view};
use crate::keynote::bool_of;
use crate::ctx::vstring;
use crate::tables::uuid_of;
use crate::cell_formats::string_of;
use crate::numbers::opt_text;
use crate::text_util::{dec, push_decimal};

verus! {

/// A zigzag-encoded varint (proto `sint`) as a signed value.
pub open spec fn zigzag(v: u64) -> int {
    if v % 2 == 0 {
        (v / 2) as int
    } else {
        -((v / 2) as int) - 1
    }
}

/// Field `f` read as a proto `sint`.
pub open spec fn sint_of(m: Seq<(u32, WireSpec)>, f: u32) -> Option<int> {
    match vvarint(m, f) {
        Some(v) => Some(zigzag(v)),
        None => None,
    }
}

pub open spec fn opt_i64(o: Option<i64>) -> Option<int> {
    match o {
        Some(v) => Some(v as int),
        None => None,
    }
}

/// An AST_row / AST_column message: its value (field 1, sint) and whether
/// it is absolute (field 2).
pub open spec fn axis_matches(a: AxisRef, m: Seq<(u32, WireSpec)>) -> bool {
    opt_i64(a.value) == sint_of(m, 1) && a.absolute == (bool_of(m, 2) == Some(true))
}

/// The cross-table part of a node (field 28): the uuid in its field 1.
pub open spec fn cross_of(node: Seq<(u32, WireSpec)>) -> Option<Option<u128>> {
    match vmsg(node, 28) {
        Some(x) => Some(uuid_of_msg(vmsg(x, 1))),
        None => None,
    }
}

/// A cell-reference node: its cross-table part, its row (field 27) and
/// column (field 26).
pub open spec fn cell_ref_matches(c: CellRefNode, node: Seq<(u32, WireSpec)>) -> bool {
    &&& c.cross == cross_of(node)
    &&& match vmsg(node, 27) {
        Some(m) => c.row matches Some(a) && axis_matches(a, m),
        None => c.row is None,
    }
    &&& match vmsg(node, 26) {
        Some(m) => c.col matches Some(a) && axis_matches(a, m),
        None => c.col is None,
    }
}

/// The first absolute entry of a list: begin (field 1), end (field 2).
pub open spec fn abs_matches(a: Option<AbsRange>, ms: Seq<Seq<(u32, WireSpec)>>) -> bool {
    if ms.len() == 0 {
        a is None
    } else {
        a matches Some(x) && x.begin == vvarint(ms[0], 1) && x.end == vvarint(ms[0], 2)
    }
}

/// The first relative entry of a list: begin (field 1), end (field 2), as
/// sints.
pub open spec fn rel_matches(r: Option<RelRange>, ms: Seq<Seq<(u32, WireSpec)>>) -> bool {
    if ms.len() == 0 {
        r is None
    } else {
        r matches Some(x) && opt_i64(x.begin) == sint_of(ms[0], 1) && opt_i64(x.end) == sint_of(ms[0], 2)
    }
}

/// A colon tract's lists: relative column (1), relative row (2),
/// absolute column (3), absolute row (4).
pub open spec fn tract_matches(t: Tract, m: Seq<(u32, WireSpec)>) -> bool {
    &&& rel_matches(t.rel_col, nested_all(vall(m, 1)))
    &&& rel_matches(t.rel_row, nested_all(vall(m, 2)))
    &&& abs_matches(t.abs_col, nested_all(vall(m, 3)))
    &&& abs_matches(t.abs_row, nested_all(vall(m, 4)))
}

/// Sticky bits: begin row (1), begin column (2), end row (3), end column
/// (4) absolute.
pub open spec fn sticky_matches(s: StickyBits, m: Seq<(u32, WireSpec)>) -> bool {
    &&& s.begin_row_abs == (bool_of(m, 1) == Some(true))
    &&& s.begin_col_abs == (bool_of(m, 2) == Some(true))
    &&& s.end_row_abs == (bool_of(m, 3) == Some(true))
    &&& s.end_col_abs == (bool_of(m, 4) == Some(true))
}

/// A colon-tract node: its cross-table part, tract (field 40) and sticky
/// bits (field 33).
pub open spec fn colon_matches(c: ColonTractNode, node: Seq<(u32, WireSpec)>) -> bool {
    &&& c.cross == cross_of(node)
    &&& match vmsg(node, 40) {
        Some(m) => c.tract matches Some(t) && tract_matches(t, m),
        None => c.tract is None,
    }
    &&& match vmsg(node, 33) {
        Some(m) => c.sticky matches Some(s) && sticky_matches(s, m),
        None => c.sticky is None,
    }
}

/// The decimal128 high word of an integer (exponent 0).
pub const DECIMAL_INTEGER: u64 = 0x3040_0000_0000_0000;

/// A number node's text when it is a decimal128 integer: the low word
/// (field 42) when the high word (field 43) says exponent 0.
pub open spec fn integer_text(node: Seq<(u32, WireSpec)>) -> Option<Seq<char>> {
    if vvarint(node, 43) == Some(DECIMAL_INTEGER) && vvarint(node, 42) is Some {
        Some(dec(vvarint(node, 42)->0 as nat))
    } else {
        None
    }
}

fn sint_exec(m: &Msg, f: u32) -> (r: Option<i64>)
    ensures
        opt_i64(r) == sint_of(fields_view(m.fields@), f),
{
    proof {
        lemma_vall(m.fields@, f);
    }
    match m.varint(f) {
        Some(v) => {
            let h = (v / 2) as i64;
            if v % 2 == 0 {
                Some(h)
            } else {
                Some(-h - 1)
            }
        },
        None => None,
    }
}

fn flag(m: &Msg, f: u32) -> (r: bool)
    ensures
        r == (bool_of(fields_view(m.fields@), f) == Some(true)),
{
    proof {
        lemma_vall(m.fields@, f);
    }
    match m.boolean(f) {
        Some(b) => b,
        None => false,
    }
}

fn vint(m: &Msg, f: u32) -> (r: Option<u64>)
    ensures
        r == vvarint(fields_view(m.fields@), f),
{
    proof {
        lemma_vall(m.fields@, f);
    }
    m.varint(f)
}

fn axis_exec(m: Option<Msg>) -> (r: Option<AxisRef>)
    ensures
        match m {
            Some(x) => r matches Some(a) && axis_matches(a, fields_view(x.fields@)),
            None => r is None,
        },
{
    match m {
        Some(x) => Some(AxisRef { value: sint_exec(&x, 1), absolute: flag(&x, 2) }),
        None => None,
    }
}

fn cross_exec(node: &Msg) -> (r: Option<Option<u128>>)
    ensures
        r == cross_of(fields_view(node.fields@)),
{
    match node.msg(28) {
        Some(x) => Some(uuid_of(x.msg(1))),
        None => None,
    }
}

fn first_abs(ms: &Vec<Msg>) -> (r: Option<AbsRange>)
    ensures
        abs_matches(r, ms@.map_values(|x: Msg| fields_view(x.fields@))),
{
    if ms.len() == 0 {
        return None;
    }
    Some(AbsRange { begin: vint(&ms[0], 1), end: vint(&ms[0], 2) })
}

fn first_rel(ms: &Vec<Msg>) -> (r: Option<RelRange>)
    ensures
        rel_matches(r, ms@.map_values(|x: Msg| fields_view(x.fields@))),
{
    if ms.len() == 0 {
        return None;
    }
    Some(RelRange { begin: sint_exec(&ms[0], 1), end: sint_exec(&ms[0], 2) })
}

fn list_of(m: &Msg, f: u32) -> (r: Vec<Msg>)
    ensures
        r@.map_values(|x: Msg| fields_view(x.fields@)) == nested_all(vall(fields_view(m.fields@), f)),
{
    let r = m.msgs(f);
    assert(r@.map_values(|x: Msg| fields_view(x.fields@)) =~= nested_all(vall(fields_view(m.fields@), f)));
    r
}

fn tract_exec(m: &Msg) -> (r: Tract)
    ensures
        tract_matches(r, fields_view(m.fields@)),
{
    Tract {
        rel_col: first_rel(&list_of(m, 1)),
        rel_row: first_rel(&list_of(m, 2)),
        abs_col: first_abs(&list_of(m, 3)),
        abs_row: first_abs(&list_of(m, 4)),
    }
}

/// A cell-reference node message as the decoder reads it.
pub fn cell_ref_node(node: &Msg) -> (r: CellRefNode)
    ensures
        cell_ref_matches(r, fields_view(node.fields@)),
{
    CellRefNode { cross: cross_exec(node), row: axis_exec(node.msg(27)), col: axis_exec(node.msg(26)) }
}

/// A colon-tract node message as the decoder reads it.
pub fn colon_tract_node(node: &Msg) -> (r: ColonTractNode)
    ensures
        colon_matches(r, fields_view(node.fields@)),
{
    let tract = match node.msg(40) {
        Some(t) => Some(tract_exec(&t)),
        None => None,
    };
    let sticky = match node.msg(33) {
        Some(s) => Some(
            StickyBits { begin_row_abs: flag(&s, 1), begin_col_abs: flag(&s, 2), end_row_abs: flag(&s, 3), end_col_abs: flag(&s, 4) },
        ),
        None => None,
    };
    ColonTractNode { cross: cross_exec(node), tract, sticky }
}

/// An AST node message as the decoder reads it: its kind (field 1, else
/// 0), function id (2) and argument count (3), boolean (5), string (6),
/// boolean literal (10), array columns (11) and rows (12), list length
/// (13), unknown function's name (17) and argument count (18), and its
/// cell-reference and colon-tract parts. A decimal128 integer prints as
/// its low word; any other number as `float_text`. `function_name` is the
/// function table's name for its function id, and `date` the civil date
/// of its date value.
pub fn ast_node(node: &Msg, function_name: Option<String>, float_text: String, date: Option<(i64, u32, u32)>) -> (r: AstNode)
    ensures
        r.kind == match vvarint(fields_view(node.fields@), 1) {
            Some(k) => k,
            None => 0,
        },
        r.function_index == vvarint(fields_view(node.fields@), 2),
        r.arg_count == vvarint(fields_view(node.fields@), 3),
        opt_text(r.function_name) == opt_text(function_name),
        r.number_text@ == match integer_text(fields_view(node.fields@)) {
            Some(t) => t,
            None => float_text@,
        },
        r.bool_value == bool_of(fields_view(node.fields@), 5),
        r.boolean_literal == bool_of(fields_view(node.fields@), 10),
        opt_text(r.string_value) == vstring(fields_view(node.fields@), 6),
        r.date == date,
        r.array_columns == vvarint(fields_view(node.fields@), 11),
        r.array_rows == vvarint(fields_view(node.fields@), 12),
        r.list_len == vvarint(fields_view(node.fields@), 13),
        opt_text(r.unknown_name) == vstring(fields_view(node.fields@), 17),
        r.unknown_arg_count == vvarint(fields_view(node.fields@), 18),
        cell_ref_matches(r.cell, fields_view(node.fields@)),
        colon_matches(r.tract, fields_view(node.fields@)),
{
    let number_text = match (vint(node, 43), vint(node, 42)) {
        (Some(DECIMAL_INTEGER), Some(low)) => {
            let mut t = String::new();
            push_decimal(&mut t, low);
            t
        },
        _ => float_text,
    };
    proof {
        lemma_vall(node.fields@, 5);
        lemma_vall(node.fields@, 10);
    }
    AstNode {
        kind: match vint(node, 1) {
            Some(k) => k,
            None => 0,
        },
        function_index: vint(node, 2),
        arg_count: vint(node, 3),
        function_name,
        number_text,
        bool_value: node.boolean(5),
        boolean_literal: node.boolean(10),
        string_value: string_of(node, 6),
        date,
        array_columns: vint(node, 11),
        array_rows: vint(node, 12),
        list_len: vint(node, 13),
        unknown_name: string_of(node, 17),
        unknown_arg_count: vint(node, 18),
        cell: cell_ref_node(node),
        tract: colon_tract_node(node),
    }
}

/// The AST node messages of a formula (field 1, every field 1); none when
/// it has no node array.
pub fn formula_nodes(formula: &Msg) -> (r: Option<Vec<Msg>>)
    ensures
        match vmsg(fields_view(formula.fields@), 1) {
            Some(a) => r matches Some(v) && v@.map_values(|x: Msg| fields_view(x.fields@)) == nested_all(vall(a, 1)),
            None => r is None,
        },
{
    match formula.msg(1) {
        Some(a) => Some(list_of(&a, 1)),
        None => None,
    }
}

} // verus!
