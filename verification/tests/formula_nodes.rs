use pnk2json::formula_decode::decode;
use pnk2json::formula_nodes::{ast_node, formula_nodes};
use pnk2json::formulas::{FormulaNames, TableScope};
use pnk2json::pb::Msg;

fn varint(mut v: u64) -> Vec<u8> {
    let mut out = Vec::new();
    while v >= 128 {
        out.push((v as u8 & 0x7f) | 0x80);
        v >>= 7;
    }
    out.push(v as u8);
    out
}

fn len_field(number: u64, body: &[u8]) -> Vec<u8> {
    let mut out = varint((number << 3) | 2);
    out.extend(varint(body.len() as u64));
    out.extend_from_slice(body);
    out
}

fn varint_field(number: u64, v: u64) -> Vec<u8> {
    let mut out = varint(number << 3);
    out.extend(varint(v));
    out
}

fn zigzag(v: i64) -> u64 {
    ((v << 1) ^ (v >> 63)) as u64
}

/// A cell-reference node: relative row offset, absolute column.
fn cell_ref(row_offset: i64, col: i64) -> Vec<u8> {
    let mut n = varint_field(1, 36);
    n.extend(len_field(27, &varint_field(1, zigzag(row_offset))));
    let mut c = varint_field(1, zigzag(col));
    c.extend(varint_field(2, 1));
    n.extend(len_field(26, &c));
    n
}

/// A decimal128 integer node.
fn integer(v: u64) -> Vec<u8> {
    let mut n = varint_field(1, 17);
    n.extend(varint_field(42, v));
    n.extend(varint_field(43, 0x3040_0000_0000_0000));
    n
}

#[test]
fn node_messages_read_into_decodable_nodes() {
    let mut arr = len_field(1, &cell_ref(-1, 2));
    arr.extend(len_field(1, &integer(5)));
    arr.extend(len_field(1, &varint_field(1, 1)));
    let formula = Msg::parse(&len_field(1, &arr)).unwrap();
    let msgs = formula_nodes(&formula).unwrap();
    assert_eq!(msgs.len(), 3);
    let nodes: Vec<_> = msgs.iter().map(|m| ast_node(m, None, "0".to_string(), None)).collect();
    assert_eq!(nodes[0].kind, 36);
    assert_eq!(nodes[0].cell.row.unwrap().value, Some(-1));
    assert!(!nodes[0].cell.row.unwrap().absolute);
    assert!(nodes[0].cell.col.unwrap().absolute);
    assert_eq!(nodes[1].number_text, "5");
    let names = FormulaNames::build(&[], &[]);
    let scope = TableScope { names: &names, self_uid: None, sheet: None, chart: false };
    // the cell one row up from row 3, column C, plus 5
    assert_eq!(decode(&scope, Some(&nodes), 3, 0), Ok("$C3+5".to_string()));
}

#[test]
fn other_numbers_print_as_given_and_missing_arrays_read_as_none() {
    let mut n = varint_field(1, 17);
    n.extend(varint_field(42, 5));
    let m = Msg::parse(&n).unwrap();
    assert_eq!(ast_node(&m, None, "2.5".to_string(), None).number_text, "2.5");
    let formula = Msg::parse(&varint_field(2, 1)).unwrap();
    assert!(formula_nodes(&formula).is_none());
}
