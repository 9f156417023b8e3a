use pnk2json::formula_decode::{decode, AstNode};
use pnk2json::formulas::{AxisRef, CellRefNode, ColonTractNode, FormulaNames, TableScope};

fn node(kind: u64) -> AstNode {
    AstNode {
        kind,
        function_index: None,
        arg_count: None,
        function_name: None,
        number_text: String::new(),
        bool_value: None,
        boolean_literal: None,
        string_value: None,
        date: None,
        array_columns: None,
        array_rows: None,
        list_len: None,
        unknown_name: None,
        unknown_arg_count: None,
        cell: CellRefNode {
            cross: None,
            row: None,
            col: None,
        },
        tract: ColonTractNode {
            cross: None,
            tract: None,
            sticky: None,
        },
    }
}

fn number(t: &str) -> AstNode {
    let mut n = node(17);
    n.number_text = t.to_string();
    n
}

fn cell(row: i64, col: i64) -> AstNode {
    let mut n = node(36);
    n.cell = CellRefNode {
        cross: None,
        row: Some(AxisRef {
            value: Some(row),
            absolute: true,
        }),
        col: Some(AxisRef {
            value: Some(col),
            absolute: true,
        }),
    };
    n
}

fn with_scope<R>(chart: bool, f: impl FnOnce(&TableScope) -> R) -> R {
    let names = FormulaNames::build(&[], &[]);
    let scope = TableScope {
        names: &names,
        self_uid: None,
        sheet: None,
        chart,
    };
    f(&scope)
}

#[test]
fn operators_print_as_the_app_prints_them() {
    let nodes = [number("1"), number("2"), node(3), number("4"), node(12)];
    let r = with_scope(false, |s| decode(s, Some(&nodes), 0, 0));
    assert_eq!(r, Ok("1×2≠4".to_string()));
    let nodes = [number("7"), node(13), node(15)];
    let r = with_scope(false, |s| decode(s, Some(&nodes), 0, 0));
    assert_eq!(r, Ok("-7%".to_string()));
}

#[test]
fn functions_and_literals() {
    let mut sum = node(16);
    sum.function_index = Some(168);
    sum.function_name = Some("SUM".to_string());
    sum.arg_count = Some(2);
    let mut s = node(19);
    s.string_value = Some("say \"hi\"".to_string());
    let mut t = node(18);
    t.bool_value = Some(true);
    let nodes = [cell(0, 0), s, sum];
    let r = with_scope(false, |sc| decode(sc, Some(&nodes), 0, 0));
    assert_eq!(r, Ok("SUM($A$1,\"say \"\"hi\"\"\")".to_string()));
    let mut d = node(20);
    d.date = Some((2001, 3, 1));
    let mut list = node(25);
    list.list_len = Some(2);
    let nodes = [t, d, list];
    let r = with_scope(false, |sc| decode(sc, Some(&nodes), 0, 0));
    assert_eq!(r, Ok("(TRUE,DATE(2001,3,1))".to_string()));
}

#[test]
fn array_literals_keep_row_order() {
    let mut arr = node(24);
    arr.array_columns = Some(2);
    arr.array_rows = Some(2);
    let nodes = [number("1"), number("2"), number("3"), number("4"), arr];
    let r = with_scope(false, |sc| decode(sc, Some(&nodes), 0, 0));
    assert_eq!(r, Ok("{1,2;3,4}".to_string()));
}

#[test]
fn ranges_and_chart_bindings() {
    let nodes = [cell(0, 0), cell(4, 1), node(29)];
    let r = with_scope(false, |sc| decode(sc, Some(&nodes), 0, 0));
    assert_eq!(r, Ok("$A$1:$B$5".to_string()));
    let mut wrap = node(16);
    wrap.function_index = Some(175);
    wrap.arg_count = Some(2);
    let nodes = [cell(0, 0), cell(1, 1), wrap];
    let r = with_scope(true, |sc| decode(sc, Some(&nodes), 0, 0));
    assert_eq!(r, Ok("$A$1,$B$2".to_string()));
    // outside a chart the wrapper is an unknown function
    let mut wrap = node(16);
    wrap.function_index = Some(175);
    wrap.arg_count = Some(2);
    let nodes = [cell(0, 0), cell(1, 1), wrap];
    let r = with_scope(false, |sc| decode(sc, Some(&nodes), 0, 0));
    assert_eq!(r, Err("unknown function id 175".to_string()));
}

#[test]
fn undecodable_formulas_name_the_problem() {
    let r = with_scope(false, |sc| decode(sc, None, 0, 0));
    assert_eq!(r, Err("formula without an AST node array".to_string()));
    let r = with_scope(false, |sc| decode(sc, Some(&[]), 0, 0));
    assert_eq!(r, Err("formula with no AST nodes".to_string()));
    let nodes = [number("1"), node(1)];
    let r = with_scope(false, |sc| decode(sc, Some(&nodes), 0, 0));
    assert_eq!(r, Err("operator with an empty stack".to_string()));
    let nodes = [number("1"), number("2")];
    let r = with_scope(false, |sc| decode(sc, Some(&nodes), 0, 0));
    assert_eq!(r, Err("2 values left on the stack".to_string()));
    let nodes = [number("1"), node(99)];
    let r = with_scope(false, |sc| decode(sc, Some(&nodes), 0, 0));
    assert_eq!(r, Err("unsupported AST node type 99".to_string()));
    let mut f = node(31);
    f.unknown_name = Some("FOO".to_string());
    f.unknown_arg_count = Some(3);
    let nodes = [number("1"), f];
    let r = with_scope(false, |sc| decode(sc, Some(&nodes), 0, 0));
    assert_eq!(r, Err("3 arguments requested, 1 on the stack".to_string()));
    let nodes = [node(20)];
    let r = with_scope(false, |sc| decode(sc, Some(&nodes), 0, 0));
    assert_eq!(r, Err("date node without a value".to_string()));
}

#[test]
fn whitespace_and_unary_plus_are_not_printed() {
    let nodes = [node(32), number("5"), node(14), node(35), node(22), node(6)];
    let r = with_scope(false, |sc| decode(sc, Some(&nodes), 0, 0));
    assert_eq!(r, Ok("5&".to_string()));
}
