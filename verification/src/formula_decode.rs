//! Formula text synthesis: a TSCE formula's AST (a postfix node list) → the
//! text Numbers shows in its formula editor. The walker is a stack machine;
//! any node kind, function id or table uuid it does not know leaves the
//! whole formula undecoded — a partial or guessed formula is worse than
//! none. Operators print as the app prints them (`×`, `÷`, `≥`, `≤`, `≠`),
//! strings double their quotes, and relative references resolve against
//! the owning cell.
use vstd::prelude::*;
use crate::formulas::{
    TableScope, CellRefNode, ColonTractNode, cell_reference, colon_tract, cell_ref_spec,
    colon_tract_spec, table_prefix_spec, cell_ref_fits, colon_fits, join_range, join_range_spec,
    same_result,
};
use crate::text_util::{push_char, push_str, chars_of, owned, dec, dec_int, push_decimal,
    push_decimal_i64};

verus! {

/// One AST node as the decoder reads it. Fields the node does not carry
/// are absent (`kind` reads 0 when the node has none). `function_name` is
/// the name the function table gives `function_index`; `number_text` is the
/// literal as a number node prints; `date` is the civil date of a date
/// node's value.
pub struct AstNode {
    pub kind: u64,
    pub function_index: Option<u64>,
    pub arg_count: Option<u64>,
    pub function_name: Option<String>,
    pub number_text: String,
    pub bool_value: Option<bool>,
    pub boolean_literal: Option<bool>,
    pub string_value: Option<String>,
    pub date: Option<(i64, u32, u32)>,
    pub array_columns: Option<u64>,
    pub array_rows: Option<u64>,
    pub list_len: Option<u64>,
    pub unknown_name: Option<String>,
    pub unknown_arg_count: Option<u64>,
    pub cell: CellRefNode,
    pub tract: ColonTractNode,
}

/// The text values on a stack.
pub open spec fn svec(v: Seq<String>) -> Seq<Seq<char>> {
    v.map_values(|s: String| s@)
}

/// Parts joined with a separator.
pub open spec fn join(parts: Seq<Seq<char>>, sep: Seq<char>) -> Seq<char>
    decreases parts.len(),
{
    if parts.len() == 0 {
        Seq::empty()
    } else if parts.len() == 1 {
        parts[0]
    } else {
        join(parts.drop_last(), sep) + sep + parts.last()
    }
}

/// A count field, absent meaning 0, as a length.
pub open spec fn count_of(x: Option<u64>) -> int {
    match x {
        Some(v) => (v as usize) as int,
        None => 0,
    }
}

/// The top `n` values of the stack, in stack order, and what remains.
pub open spec fn popn_spec(st: Seq<Seq<char>>, n: int) -> Result<(Seq<Seq<char>>, Seq<Seq<char>>), Seq<char>> {
    if st.len() < n {
        Err(dec(n as nat) + " arguments requested, "@ + dec(st.len()) + " on the stack"@)
    } else {
        Ok((st.take(st.len() - n), st.skip(st.len() - n)))
    }
}

/// The operator that a binary node kind (1–12) prints.
pub open spec fn op_symbol(kind: u64) -> Seq<char> {
    if kind == 1 {
        "+"@
    } else if kind == 2 {
        "-"@
    } else if kind == 3 {
        "×"@
    } else if kind == 4 {
        "÷"@
    } else if kind == 5 {
        "^"@
    } else if kind == 6 {
        "&"@
    } else if kind == 7 {
        ">"@
    } else if kind == 8 {
        "≥"@
    } else if kind == 9 {
        "<"@
    } else if kind == 10 {
        "≤"@
    } else if kind == 11 {
        "="@
    } else {
        "≠"@
    }
}

pub open spec fn empty_stack_msg() -> Seq<char> {
    "operator with an empty stack"@
}

/// A binary operator node: the two top values joined by `op`.
pub open spec fn binary_spec(st: Seq<Seq<char>>, op: Seq<char>) -> Result<Seq<Seq<char>>, Seq<char>> {
    if st.len() < 2 {
        Err(empty_stack_msg())
    } else {
        Ok(st.take(st.len() - 2).push(st[st.len() - 2] + op + st[st.len() - 1]))
    }
}

/// A function call: the name, then the top `n` values in parentheses.
pub open spec fn call_spec(st: Seq<Seq<char>>, name: Seq<char>, n: int) -> Result<Seq<Seq<char>>, Seq<char>> {
    match popn_spec(st, n) {
        Err(e) => Err(e),
        Ok((rest, args)) => Ok(rest.push(name + "("@ + join(args, ","@) + ")"@)),
    }
}

/// `TRUE` or `FALSE` for a boolean field, absent meaning false.
pub open spec fn truth(b: Option<bool>) -> Seq<char> {
    if b == Some(true) {
        "TRUE"@
    } else {
        "FALSE"@
    }
}

/// A character of a string literal: `"` doubled.
pub open spec fn quote_char(c: char) -> Seq<char> {
    if c == '"' {
        seq!['"', '"']
    } else {
        seq![c]
    }
}

pub open spec fn double_quotes(s: Seq<char>) -> Seq<char>
    decreases s.len(),
{
    if s.len() == 0 {
        Seq::empty()
    } else {
        double_quotes(s.drop_last()) + quote_char(s.last())
    }
}

/// A string literal as the formula prints it.
pub open spec fn quoted(s: Option<String>) -> Seq<char> {
    seq!['"'] + double_quotes(
        match s {
            Some(t) => t@,
            None => Seq::empty(),
        },
    ) + seq!['"']
}

/// The rows of an array literal, read off the stack last row first.
pub open spec fn array_rows_spec(st: Seq<Seq<char>>, ncol: int, r: nat) -> Result<(Seq<Seq<char>>, Seq<Seq<char>>), Seq<char>>
    decreases r,
{
    if r == 0 {
        Ok((st, Seq::empty()))
    } else {
        match array_rows_spec(st, ncol, (r - 1) as nat) {
            Err(e) => Err(e),
            Ok((s1, rows)) => match popn_spec(s1, ncol) {
                Err(e) => Err(e),
                Ok((s2, args)) => Ok((s2, rows.push(join(args, ","@)))),
            },
        }
    }
}

/// The result of one node on the stack `st`.
pub open spec fn step_spec(scope: TableScope, node: AstNode, row: u32, col: u32, st: Seq<Seq<char>>) -> Result<Seq<Seq<char>>, Seq<char>> {
    let k = node.kind;
    if 1 <= k <= 12 {
        binary_spec(st, op_symbol(k))
    } else if k == 13 {
        if st.len() == 0 {
            Err("negation with an empty stack"@)
        } else {
            Ok(st.drop_last().push("-"@ + st.last()))
        }
    } else if k == 14 {
        Ok(st)
    } else if k == 15 {
        if st.len() == 0 {
            Err("percent with an empty stack"@)
        } else {
            Ok(st.drop_last().push(st.last() + "%"@))
        }
    } else if k == 16 && scope.chart && node.function_index == Some(175u64) {
        match popn_spec(st, count_of(node.arg_count)) {
            Err(e) => Err(e),
            Ok((rest, args)) => Ok(rest.push(join(args, ","@))),
        }
    } else if k == 16 {
        match node.function_name {
            None => Err(
                "unknown function id "@ + dec(
                    (match node.function_index {
                        Some(i) => i,
                        None => 0,
                    }) as u32 as nat,
                ),
            ),
            Some(name) => call_spec(st, name@, count_of(node.arg_count)),
        }
    } else if k == 31 {
        match node.unknown_name {
            None => Err("unknown-function node without a name"@),
            Some(name) => call_spec(st, name@, count_of(node.unknown_arg_count)),
        }
    } else if k == 17 {
        Ok(st.push(node.number_text@))
    } else if k == 18 {
        Ok(st.push(truth(node.bool_value)))
    } else if k == 23 {
        Ok(st.push(truth(node.boolean_literal)))
    } else if k == 19 {
        Ok(st.push(quoted(node.string_value)))
    } else if k == 20 {
        match node.date {
            None => Err("date node without a value"@),
            Some((y, m, d)) => Ok(
                st.push(
                    "DATE("@ + dec_int(y as int) + ","@ + dec(m as nat) + ","@ + dec(d as nat)
                        + ")"@,
                ),
            ),
        }
    } else if k == 22 {
        Ok(st.push(Seq::empty()))
    } else if k == 24 {
        let nrow: nat = match node.array_rows {
            Some(v) => (v as usize) as nat,
            None => 1,
        };
        match array_rows_spec(st, count_of(node.array_columns), nrow) {
            Err(e) => Err(e),
            Ok((rest, rows)) => Ok(rest.push("{"@ + join(rows.reverse(), ";"@) + "}"@)),
        }
    } else if k == 25 {
        match popn_spec(st, count_of(node.list_len)) {
            Err(e) => Err(e),
            Ok((rest, args)) => Ok(rest.push("("@ + join(args, ","@) + ")"@)),
        }
    } else if k == 29 || k == 45 {
        if st.len() < 2 {
            Err(empty_stack_msg())
        } else {
            Ok(st.take(st.len() - 2).push(join_range_spec(st[st.len() - 2], st[st.len() - 1])))
        }
    } else if k == 30 || k == 46 {
        Ok(st.push("#REF!"@))
    } else if 32 <= k <= 35 {
        Ok(st)
    } else if k == 36 {
        match cell_ref_spec(scope, node.cell, row, col) {
            Err(e) => Err(e),
            Ok(t) => Ok(st.push(t)),
        }
    } else if k == 67 {
        match colon_tract_spec(scope, node.tract, row, col) {
            Err(e) => Err(e),
            Ok(t) => Ok(st.push(t)),
        }
    } else {
        Err("unsupported AST node type "@ + dec(k as nat))
    }
}

/// The stack after the nodes, or the first error.
pub open spec fn run_spec(scope: TableScope, nodes: Seq<AstNode>, row: u32, col: u32) -> Result<Seq<Seq<char>>, Seq<char>>
    decreases nodes.len(),
{
    if nodes.len() == 0 {
        Ok(Seq::empty())
    } else {
        match run_spec(scope, nodes.drop_last(), row, col) {
            Err(e) => Err(e),
            Ok(st) => step_spec(scope, nodes.last(), row, col, st),
        }
    }
}

/// The formula text of a node list: the single value left on the stack.
pub open spec fn decode_spec(scope: TableScope, nodes: Option<Seq<AstNode>>, row: u32, col: u32) -> Result<Seq<char>, Seq<char>> {
    match nodes {
        None => Err("formula without an AST node array"@),
        Some(ns) => if ns.len() == 0 {
            Err("formula with no AST nodes"@)
        } else {
            match run_spec(scope, ns, row, col) {
                Err(e) => Err(e),
                Ok(st) => if st.len() != 1 {
                    Err(dec(st.len()) + " values left on the stack"@)
                } else {
                    Ok(st[0])
                },
            }
        },
    }
}

/// A reference node's coordinates stay within `i64` once its table prefix
/// resolves.
pub open spec fn node_fits(scope: TableScope, node: AstNode, row: u32, col: u32) -> bool {
    &&& node.kind == 36 ==> (table_prefix_spec(scope, node.cell.cross) is Ok ==> cell_ref_fits(
        node.cell,
        row,
        col,
    ))
    &&& node.kind == 67 ==> (table_prefix_spec(scope, node.tract.cross) is Ok ==> colon_fits(
        node.tract,
        row,
        col,
    ))
}

/// Every node that the walk reaches fits.
pub open spec fn nodes_fit(scope: TableScope, nodes: Seq<AstNode>, row: u32, col: u32) -> bool {
    forall|i: int|
        0 <= i < nodes.len() && run_spec(scope, nodes.take(i), row, col) is Ok ==> node_fits(
            scope,
            #[trigger] nodes[i],
            row,
            col,
        )
}

fn join_exec(parts: &Vec<String>, sep: &str) -> (r: String)
    ensures
        r@ == join(svec(parts@), sep@),
{
    let mut out = String::new();
    let mut i: usize = 0;
    while i < parts.len()
        invariant
            i <= parts@.len(),
            out@ == join(svec(parts@.take(i as int)), sep@),
        decreases parts@.len() - i,
    {
        let ghost before = svec(parts@.take(i as int));
        assert(svec(parts@.take(i + 1)) =~= before.push(parts@[i as int]@));
        assert(svec(parts@.take(i + 1)).drop_last() =~= before);
        if i > 0 {
            push_str(&mut out, sep);
        }
        push_str(&mut out, parts[i].as_str());
        proof {
            if i == 0 {
                assert(before.len() == 0);
                assert(out@ =~= join(svec(parts@.take(i + 1)), sep@));
            } else {
                assert(out@ =~= join(svec(parts@.take(i + 1)), sep@));
            }
        }
        i = i + 1;
    }
    assert(parts@.take(i as int) =~= parts@);
    out
}

fn popn(stack: &mut Vec<String>, n: usize) -> (r: Result<Vec<String>, String>)
    ensures
        match popn_spec(svec(old(stack)@), n as int) {
            Err(e) => r matches Err(m) && m@ == e && final(stack)@ == old(stack)@,
            Ok((rest, args)) => r matches Ok(a) && svec(final(stack)@) == rest && svec(a@) == args,
        },
{
    let len = stack.len();
    if len < n {
        let mut m = String::new();
        push_decimal(&mut m, n as u64);
        push_str(&mut m, " arguments requested, ");
        push_decimal(&mut m, len as u64);
        push_str(&mut m, " on the stack");
        assert(m@ =~= popn_spec(svec(old(stack)@), n as int)->Err_0);
        return Err(m);
    }
    let ghost s0 = old(stack)@;
    let mut rev: Vec<String> = Vec::new();
    let mut k: usize = 0;
    while k < n
        invariant
            len == s0.len(),
            n <= len,
            k <= n,
            stack@ == s0.take(len - k),
            rev@.len() == k,
            forall|t: int| 0 <= t < k ==> #[trigger] rev@[t] == s0[len - 1 - t],
        decreases n - k,
    {
        let x = stack.pop().unwrap();
        assert(stack@ =~= s0.take(len - k - 1));
        rev.push(x);
        k = k + 1;
    }
    let mut args: Vec<String> = Vec::new();
    while rev.len() > 0
        invariant
            len == s0.len(),
            n <= len,
            rev@.len() + args@.len() == n,
            forall|t: int| 0 <= t < rev@.len() ==> #[trigger] rev@[t] == s0[len - 1 - t],
            forall|t: int| 0 <= t < args@.len() ==> #[trigger] args@[t] == s0[len - n + t],
        decreases rev@.len(),
    {
        let x = rev.pop().unwrap();
        args.push(x);
    }
    assert(svec(stack@) =~= svec(s0).take(len - n));
    assert(svec(args@) =~= svec(s0).skip(len - n));
    Ok(args)
}

fn op_text(kind: u64) -> (r: &'static str)
    requires
        1 <= kind <= 12,
    ensures
        r@ == op_symbol(kind),
{
    match kind {
        1 => "+",
        2 => "-",
        3 => "×",
        4 => "÷",
        5 => "^",
        6 => "&",
        7 => ">",
        8 => "≥",
        9 => "<",
        10 => "≤",
        11 => "=",
        _ => "≠",
    }
}

fn quote_exec(s: &Option<String>) -> (r: String)
    ensures
        r@ == quoted(*s),
{
    let v = match s {
        Some(t) => chars_of(t.as_str()),
        None => Vec::new(),
    };
    let ghost body = match s {
        Some(t) => t@,
        None => Seq::<char>::empty(),
    };
    assert(v@ == body);
    let mut out = String::new();
    push_char(&mut out, '"');
    let mut i: usize = 0;
    while i < v.len()
        invariant
            i <= v@.len(),
            v@ == body,
            out@ == seq!['"'] + double_quotes(body.take(i as int)),
        decreases v@.len() - i,
    {
        let c = v[i];
        assert(body.take(i + 1).drop_last() =~= body.take(i as int));
        if c == '"' {
            push_char(&mut out, '"');
            push_char(&mut out, '"');
        } else {
            push_char(&mut out, c);
        }
        assert(out@ =~= seq!['"'] + double_quotes(body.take(i + 1)));
        i = i + 1;
    }
    assert(body.take(i as int) =~= body);
    push_char(&mut out, '"');
    assert(out@ =~= quoted(*s));
    out
}

fn truth_exec(b: Option<bool>) -> (r: String)
    ensures
        r@ == truth(b),
{
    if b == Some(true) {
        owned("TRUE")
    } else {
        owned("FALSE")
    }
}

fn pop2(stack: &mut Vec<String>) -> (r: Option<(String, String)>)
    ensures
        match r {
            None => old(stack)@.len() < 2 && final(stack)@.len() < 2,
            Some((a, b)) => old(stack)@.len() >= 2 && final(stack)@ == old(stack)@.take(
                old(stack)@.len() - 2,
            ) && a == old(stack)@[old(stack)@.len() - 2] && b == old(stack)@[old(stack)@.len() - 1],
        },
{
    if stack.len() < 2 {
        return None;
    }
    let ghost s0 = stack@;
    let b = stack.pop().unwrap();
    let a = stack.pop().unwrap();
    assert(stack@ =~= s0.take(s0.len() - 2));
    Some((a, b))
}

fn array_exec(stack: &mut Vec<String>, ncol: usize, nrow: u64) -> (r: Result<String, String>)
    ensures
        match array_rows_spec(svec(old(stack)@), ncol as int, (nrow as usize) as nat) {
            Err(e) => r matches Err(m) && m@ == e,
            Ok((rest, rows)) => r matches Ok(t) && svec(final(stack)@) == rest && t@ == "{"@
                + join(rows.reverse(), ";"@) + "}"@,
        },
{
    let ghost s0 = svec(old(stack)@);
    let count = nrow as usize;
    let mut rows: Vec<String> = Vec::new();
    let mut i: usize = 0;
    while i < count
        invariant
            i <= count,
            count == nrow as usize,
            s0 == svec(old(stack)@),
            array_rows_spec(s0, ncol as int, i as nat) matches Ok((st, rs)) && st == svec(stack@)
                && rs == svec(rows@),
        decreases count - i,
    {
        let ghost st_before = svec(stack@);
        let args = match popn(stack, ncol) {
            Ok(a) => a,
            Err(m) => {
                proof {
                    assert(popn_spec(st_before, ncol as int) == Err::<(Seq<Seq<char>>, Seq<Seq<char>>), Seq<char>>(m@));
                    assert(array_rows_spec(s0, ncol as int, (i + 1) as nat) == Err::<(Seq<Seq<char>>, Seq<Seq<char>>), Seq<char>>(m@));
                    lemma_array_rows_err(s0, ncol as int, (i + 1) as nat, (count) as nat);
                }
                return Err(m);
            },
        };
        let line = join_exec(&args, ",");
        let ghost before = svec(rows@);
        rows.push(line);
        assert(svec(rows@) =~= before.push(join(svec(args@), ","@)));
        i = i + 1;
    }
    let ghost r0 = rows@;
    let mut flipped: Vec<String> = Vec::new();
    while rows.len() > 0
        invariant
            rows@.len() + flipped@.len() == r0.len(),
            rows@ == r0.take(rows@.len() as int),
            forall|t: int| 0 <= t < flipped@.len() ==> #[trigger] flipped@[t] == r0[r0.len() - 1 - t],
        decreases rows@.len(),
    {
        let x = rows.pop().unwrap();
        assert(rows@ =~= r0.take(rows@.len() as int));
        flipped.push(x);
    }
    assert(svec(flipped@) =~= svec(r0).reverse());
    let body = join_exec(&flipped, ";");
    let mut out = String::new();
    push_char(&mut out, '{');
    push_str(&mut out, body.as_str());
    push_char(&mut out, '}');
    assert(out@ =~= "{"@ + join(svec(r0).reverse(), ";"@) + "}"@) by {
        reveal_strlit("{");
        reveal_strlit("}");
    }
    Ok(out)
}

proof fn lemma_array_rows_err(st: Seq<Seq<char>>, ncol: int, r: nat, n: nat)
    requires
        r <= n,
        array_rows_spec(st, ncol, r) is Err,
    ensures
        array_rows_spec(st, ncol, n) is Err,
        array_rows_spec(st, ncol, n) == array_rows_spec(st, ncol, r),
    decreases n - r,
{
    if r < n {
        lemma_array_rows_err(st, ncol, r, (n - 1) as nat);
    }
}

/// `r` is the stack outcome that `spec` describes.
pub open spec fn step_result(r: Result<(), String>, after: Seq<String>, spec: Result<Seq<Seq<char>>, Seq<char>>) -> bool {
    match spec {
        Ok(st) => r is Ok && svec(after) == st,
        Err(e) => r matches Err(m) && m@ == e,
    }
}

fn push_call(stack: &mut Vec<String>, name: &str, n: usize) -> (r: Result<(), String>)
    ensures
        step_result(r, final(stack)@, call_spec(svec(old(stack)@), name@, n as int)),
{
    let args = match popn(stack, n) {
        Ok(a) => a,
        Err(m) => return Err(m),
    };
    let mut t = owned(name);
    push_char(&mut t, '(');
    let j = join_exec(&args, ",");
    push_str(&mut t, j.as_str());
    push_char(&mut t, ')');
    let ghost before = svec(stack@);
    let ghost tv = t@;
    stack.push(t);
    proof {
        reveal_strlit("(");
        reveal_strlit(")");
        assert(tv =~= name@ + "("@ + join(svec(args@), ","@) + ")"@);
        assert(svec(stack@) =~= before.push(tv));
    }
    Ok(())
}

fn push_text(stack: &mut Vec<String>, t: String)
    ensures
        svec(final(stack)@) == svec(old(stack)@).push(t@),
{
    stack.push(t);
    assert(svec(stack@) =~= svec(old(stack)@).push(t@));
}

fn err_text(lit: &str) -> (r: Result<(), String>)
    ensures
        r matches Err(m) && m@ == lit@,
{
    Err(owned(lit))
}

/// One node of the walk: its effect on the stack.
fn step(scope: &TableScope, node: &AstNode, row: u32, col: u32, stack: &mut Vec<String>) -> (r: Result<(), String>)
    requires
        node_fits(*scope, *node, row, col),
    ensures
        step_result(r, final(stack)@, step_spec(*scope, *node, row, col, svec(old(stack)@))),
{
    let k = node.kind;
    let ghost st = svec(old(stack)@);
    if 1 <= k && k <= 12 {
        match pop2(stack) {
            None => return err_text("operator with an empty stack"),
            Some((a, b)) => {
                let mut t = a;
                push_str(&mut t, op_text(k));
                push_str(&mut t, b.as_str());
                push_text(stack, t);
                assert(svec(old(stack)@.take(old(stack)@.len() - 2)) =~= st.take(st.len() - 2));
                return Ok(());
            },
        }
    } else if k == 13 {
        match stack.pop() {
            None => return err_text("negation with an empty stack"),
            Some(a) => {
                let mut t = owned("-");
                push_str(&mut t, a.as_str());
                push_text(stack, t);
                assert(svec(old(stack)@.drop_last()) =~= st.drop_last());
                return Ok(());
            },
        }
    } else if k == 14 {
        return Ok(());
    } else if k == 15 {
        match stack.pop() {
            None => return err_text("percent with an empty stack"),
            Some(a) => {
                let mut t = a;
                push_str(&mut t, "%");
                push_text(stack, t);
                assert(svec(old(stack)@.drop_last()) =~= st.drop_last());
                return Ok(());
            },
        }
    } else if k == 16 && scope.chart && node.function_index == Some(175u64) {
        let n: usize = match node.arg_count {
            Some(v) => v as usize,
            None => 0,
        };
        let args = match popn(stack, n) {
            Ok(a) => a,
            Err(m) => return Err(m),
        };
        let t = join_exec(&args, ",");
        push_text(stack, t);
        return Ok(());
    } else if k == 16 {
        match &node.function_name {
            None => {
                let idx: u32 = match node.function_index {
                    Some(i) => i as u32,
                    None => 0,
                };
                let mut m = owned("unknown function id ");
                push_decimal(&mut m, idx as u64);
                return Err(m);
            },
            Some(name) => {
                let n: usize = match node.arg_count {
                    Some(v) => v as usize,
                    None => 0,
                };
                return push_call(stack, name.as_str(), n);
            },
        }
    } else if k == 31 {
        match &node.unknown_name {
            None => return err_text("unknown-function node without a name"),
            Some(name) => {
                let n: usize = match node.unknown_arg_count {
                    Some(v) => v as usize,
                    None => 0,
                };
                return push_call(stack, name.as_str(), n);
            },
        }
    } else if k == 17 {
        push_text(stack, owned(node.number_text.as_str()));
        return Ok(());
    } else if k == 18 {
        push_text(stack, truth_exec(node.bool_value));
        return Ok(());
    } else if k == 23 {
        push_text(stack, truth_exec(node.boolean_literal));
        return Ok(());
    } else if k == 19 {
        push_text(stack, quote_exec(&node.string_value));
        return Ok(());
    } else if k == 20 {
        match node.date {
            None => return err_text("date node without a value"),
            Some((y, m, d)) => {
                let mut t = owned("DATE(");
                push_decimal_i64(&mut t, y);
                push_char(&mut t, ',');
                push_decimal(&mut t, m as u64);
                push_char(&mut t, ',');
                push_decimal(&mut t, d as u64);
                push_char(&mut t, ')');
                proof {
                    reveal_strlit(",");
                    reveal_strlit(")");
                    assert(t@ =~= "DATE("@ + dec_int(y as int) + ","@ + dec(m as nat) + ","@ + dec(
                        d as nat,
                    ) + ")"@);
                }
                push_text(stack, t);
                return Ok(());
            },
        }
    } else if k == 22 {
        push_text(stack, String::new());
        return Ok(());
    } else if k == 24 {
        let ncol: usize = match node.array_columns {
            Some(v) => v as usize,
            None => 0,
        };
        let nrow: u64 = match node.array_rows {
            Some(v) => v,
            None => 1,
        };
        let t = match array_exec(stack, ncol, nrow) {
            Ok(t) => t,
            Err(m) => return Err(m),
        };
        push_text(stack, t);
        return Ok(());
    } else if k == 25 {
        let n: usize = match node.list_len {
            Some(v) => v as usize,
            None => 0,
        };
        let args = match popn(stack, n) {
            Ok(a) => a,
            Err(m) => return Err(m),
        };
        let mut t = owned("(");
        let j = join_exec(&args, ",");
        push_str(&mut t, j.as_str());
        push_char(&mut t, ')');
        proof {
            reveal_strlit(")");
            assert(t@ =~= "("@ + join(svec(args@), ","@) + ")"@);
        }
        push_text(stack, t);
        return Ok(());
    } else if k == 29 || k == 45 {
        match pop2(stack) {
            None => return err_text("operator with an empty stack"),
            Some((a, b)) => {
                let t = join_range(a, b);
                push_text(stack, t);
                assert(svec(old(stack)@.take(old(stack)@.len() - 2)) =~= st.take(st.len() - 2));
                return Ok(());
            },
        }
    } else if k == 30 || k == 46 {
        push_text(stack, owned("#REF!"));
        return Ok(());
    } else if 32 <= k && k <= 35 {
        return Ok(());
    } else if k == 36 {
        let t = match cell_reference(scope, &node.cell, row, col) {
            Ok(t) => t,
            Err(m) => return Err(m),
        };
        push_text(stack, t);
        return Ok(());
    } else if k == 67 {
        let t = match colon_tract(scope, &node.tract, row, col) {
            Ok(t) => t,
            Err(m) => return Err(m),
        };
        push_text(stack, t);
        return Ok(());
    } else {
        let mut m = owned("unsupported AST node type ");
        push_decimal(&mut m, k);
        return Err(m);
    }
}

/// Decode one TSCE formula's node list for the cell at (row, col). `Err`
/// names the first unsupported thing.
pub fn decode(scope: &TableScope, nodes: Option<&[AstNode]>, row: u32, col: u32) -> (r: Result<String, String>)
    requires
        nodes matches Some(ns) ==> nodes_fit(*scope, ns@, row, col),
    ensures
        same_result(r, decode_spec(*scope, match nodes { Some(ns) => Some(ns@), None => None }, row, col)),
{
    let ns = match nodes {
        None => return Err(owned("formula without an AST node array")),
        Some(ns) => ns,
    };
    if ns.len() == 0 {
        return Err(owned("formula with no AST nodes"));
    }
    let mut stack: Vec<String> = Vec::new();
    let mut i: usize = 0;
    assert(ns@.take(0) =~= Seq::<AstNode>::empty());
    assert(svec(stack@) =~= Seq::<Seq<char>>::empty());
    while i < ns.len()
        invariant
            i <= ns@.len(),
            nodes == Some(ns),
            nodes_fit(*scope, ns@, row, col),
            run_spec(*scope, ns@.take(i as int), row, col) == Ok::<Seq<Seq<char>>, Seq<char>>(svec(stack@)),
        decreases ns@.len() - i,
    {
        assert(ns@.take(i + 1).drop_last() =~= ns@.take(i as int));
        assert(ns@.take(i + 1).last() == ns@[i as int]);
        let ghost before = svec(stack@);
        match step(scope, &ns[i], row, col, &mut stack) {
            Ok(()) => {},
            Err(m) => {
                proof {
                    assert(run_spec(*scope, ns@.take(i + 1), row, col) == step_spec(*scope, ns@[i as int], row, col, before));
                    lemma_run_err(*scope, ns@, row, col, i + 1);
                    assert(step_spec(*scope, ns@[i as int], row, col, before) == Err::<Seq<Seq<char>>, Seq<char>>(m@));
                    assert(run_spec(*scope, ns@, row, col) == Err::<Seq<Seq<char>>, Seq<char>>(m@));
                    assert(decode_spec(*scope, Some(ns@), row, col) == Err::<Seq<char>, Seq<char>>(m@));
                }
                return Err(m);
            },
        }
        i = i + 1;
    }
    assert(ns@.take(i as int) =~= ns@);
    if stack.len() != 1 {
        let mut m = String::new();
        push_decimal(&mut m, stack.len() as u64);
        push_str(&mut m, " values left on the stack");
        return Err(m);
    }
    let t = stack.pop().unwrap();
    Ok(t)
}

proof fn lemma_run_err(scope: TableScope, nodes: Seq<AstNode>, row: u32, col: u32, k: int)
    requires
        0 <= k <= nodes.len(),
        run_spec(scope, nodes.take(k), row, col) is Err,
    ensures
        run_spec(scope, nodes, row, col) == run_spec(scope, nodes.take(k), row, col),
    decreases nodes.len() - k,
{
    if k < nodes.len() {
        assert(nodes.take(k + 1).drop_last() =~= nodes.take(k));
        lemma_run_err(scope, nodes, row, col, k + 1);
    } else {
        assert(nodes.take(k) =~= nodes);
    }
}

/// The symbol Numbers shows for the binary operator of node kind `k`
/// (1–12): + − × ÷ ^ & > ≥ < ≤ = ≠, as characters.
pub open spec fn shown_operator(k: u64) -> char {
    if k == 1 {
        '+'
    } else if k == 2 {
        '-'
    } else if k == 3 {
        '\u{d7}'
    } else if k == 4 {
        '\u{f7}'
    } else if k == 5 {
        '^'
    } else if k == 6 {
        '&'
    } else if k == 7 {
        '>'
    } else if k == 8 {
        '\u{2265}'
    } else if k == 9 {
        '<'
    } else if k == 10 {
        '\u{2264}'
    } else if k == 11 {
        '='
    } else {
        '\u{2260}'
    }
}

/// A binary operator node joins the two values before it with the one
/// operator character Numbers shows for its kind: after any nodes that
/// leave operands `a` and `b`, a node of kind 7 gives the formula `a>b`,
/// kind 8 `a≥b`, kind 9 `a<b`, kind 10 `a≤b` (and likewise `+ - × ÷ ^ & =
/// ≠` for kinds 1–6, 11, 12), whatever else the node carries.
pub proof fn lemma_binary_operator_text(
    scope: TableScope,
    ns: Seq<AstNode>,
    node: AstNode,
    row: u32,
    col: u32,
    a: Seq<char>,
    b: Seq<char>,
)
    requires
        run_spec(scope, ns, row, col) == Ok::<Seq<Seq<char>>, Seq<char>>(seq![a, b]),
        1 <= node.kind <= 12,
    ensures
        decode_spec(scope, Some(ns.push(node)), row, col) == Ok::<Seq<char>, Seq<char>>(
            a + seq![shown_operator(node.kind)] + b,
        ),
        node.kind == 7 ==> decode_spec(scope, Some(ns.push(node)), row, col) == Ok::<Seq<char>, Seq<char>>(
            a + seq!['>'] + b,
        ),
        node.kind == 9 ==> decode_spec(scope, Some(ns.push(node)), row, col) == Ok::<Seq<char>, Seq<char>>(
            a + seq!['<'] + b,
        ),
{
    reveal_strlit("+");
    reveal_strlit("-");
    reveal_strlit("×");
    reveal_strlit("÷");
    reveal_strlit("^");
    reveal_strlit("&");
    reveal_strlit(">");
    reveal_strlit("≥");
    reveal_strlit("<");
    reveal_strlit("≤");
    reveal_strlit("=");
    reveal_strlit("≠");
    let all = ns.push(node);
    assert(all.drop_last() =~= ns);
    assert(all.last() == node);
    assert(op_symbol(node.kind) =~= seq![shown_operator(node.kind)]);
    let st = seq![a, b];
    assert(st.take(0).push(st[0] + op_symbol(node.kind) + st[1]) =~= seq![a + seq![shown_operator(node.kind)] + b]);
}

} // verus!
