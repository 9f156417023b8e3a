use pnk2json::formulas::{
    cell_name, cell_reference, colon_tract, column_name, join_range, table_prefix,
    uuid_from_string, uuid_of_words, uuid_u128, AbsRange, AxisRef, CellRefNode, ColonTractNode, FormulaNames, RelRange,
    StickyBits, TableRecord, TableScope, Tract,
};

#[test]
fn column_names() {
    assert_eq!(column_name(0), "A");
    assert_eq!(column_name(25), "Z");
    assert_eq!(column_name(26), "AA");
    assert_eq!(column_name(701), "ZZ");
    assert_eq!(column_name(702), "AAA");
}

#[test]
fn table_id_string_matches_cfuuid_words() {
    let from_words = ((0x974c36f4u128) << 96)
        | ((0x4d58ba8cu128) << 64)
        | ((0x4444291eu128) << 32)
        | 0x7dae6bbfu128;
    assert_eq!(
        uuid_from_string("BF6BAE7D-1E29-4444-8CBA-584DF4364C97"),
        Some(from_words)
    );
}

#[test]
fn range_prefix_hoisting() {
    assert_eq!(join_range("A1".into(), "B2".into()), "A1:B2");
    assert_eq!(join_range("T::A1".into(), "T::B2".into()), "T::A1:B2");
    assert_eq!(
        join_range("S::T::A1".into(), "S::T::B2".into()),
        "S::T::A1:B2"
    );
}

#[test]
fn range_prefix_kept_when_tables_differ() {
    assert_eq!(join_range("T::A1".into(), "U::B2".into()), "T::A1:U::B2");
    assert_eq!(join_range("A1".into(), "T::B2".into()), "A1:T::B2");
}

#[test]
fn cell_names_mark_absolute_parts() {
    assert_eq!(cell_name(0, 0, false, false), "A1");
    assert_eq!(cell_name(9, 27, true, false), "AB$10");
    assert_eq!(cell_name(4, 2, true, true), "$C$5");
}

#[test]
fn uuid_strings_that_do_not_read() {
    assert_eq!(uuid_from_string(""), None);
    assert_eq!(uuid_from_string("BF6BAE7D-1E29-4444-8CBA-584DF4364C9"), None);
    assert_eq!(uuid_from_string("ZZ6BAE7D-1E29-4444-8CBA-584DF4364C97"), None);
    // a byte field is read as an unsigned base-16 number: a plus sign may lead
    assert_eq!(uuid_from_string("+f000000000000000000000000000000"), Some(15));
    assert_eq!(uuid_from_string("-f000000000000000000000000000000"), None);
    assert_eq!(
        uuid_from_string("0100000000000000-0000000000000000"),
        Some(1)
    );
    assert_eq!(
        uuid_from_string("00000000000000000000000000000080"),
        Some(0x80u128 << 120)
    );
}

fn record(sheet: &str, name: &str, id: Option<&str>, haunted: Option<u128>) -> TableRecord {
    TableRecord {
        sheet: sheet.to_string(),
        name: name.to_string(),
        table_id: id.map(|s| s.to_string()),
        haunted,
    }
}

#[test]
fn names_map_haunted_owners_to_base_owners() {
    let names = FormulaNames::build(&[(7, 70), (8, 80)], &[record("S1", "T", None, Some(7))]);
    assert_eq!(names.base_uid(7), 70);
    assert_eq!(names.base_uid(8), 80);
    assert_eq!(names.base_uid(9), 9);
    assert_eq!(names.sheet_of(70), Some("S1"));
    assert_eq!(names.sheet_of(7), Some("S1"));
    assert_eq!(names.sheet_of(80), None);
}

#[test]
fn table_prefixes() {
    let names = FormulaNames::build(
        &[(7, 70)],
        &[
            record("S1", "T", None, Some(7)),
            record("S2", "T", None, Some(8)),
            record("S2", "U", Some("0100000000000000-0000000000000000"), None),
        ],
    );
    let scope = TableScope {
        names: &names,
        self_uid: Some(70),
        sheet: Some("S1"),
        chart: false,
    };
    assert_eq!(table_prefix(&scope, None), Ok(String::new()));
    assert_eq!(table_prefix(&scope, Some(Some(7))), Ok(String::new()));
    assert_eq!(table_prefix(&scope, Some(Some(70))), Ok(String::new()));
    // the name T occurs twice, so the other sheet's T needs its sheet
    assert_eq!(table_prefix(&scope, Some(Some(8))), Ok("S2::T::".to_string()));
    // a unique name needs no sheet
    assert_eq!(table_prefix(&scope, Some(Some(1))), Ok("U::".to_string()));
    assert_eq!(
        table_prefix(&scope, Some(None)),
        Err("cross-table reference without a table uuid".to_string())
    );
    assert_eq!(
        table_prefix(&scope, Some(Some(0xab))),
        Err("reference to unknown table uuid 000000000000000000000000000000ab".to_string())
    );
}

fn axis(value: i64, absolute: bool) -> Option<AxisRef> {
    Some(AxisRef {
        value: Some(value),
        absolute,
    })
}

#[test]
fn cell_references_resolve_against_the_owning_cell() {
    let names = FormulaNames::build(&[], &[]);
    let scope = TableScope {
        names: &names,
        self_uid: None,
        sheet: None,
        chart: false,
    };
    let node = CellRefNode {
        cross: None,
        row: axis(1, false),
        col: axis(-1, false),
    };
    assert_eq!(cell_reference(&scope, &node, 3, 2), Ok("B5".to_string()));
    let node = CellRefNode {
        cross: None,
        row: axis(0, true),
        col: axis(3, true),
    };
    assert_eq!(cell_reference(&scope, &node, 9, 9), Ok("$D$1".to_string()));
    let node = CellRefNode {
        cross: None,
        row: axis(-5, false),
        col: axis(0, false),
    };
    assert_eq!(cell_reference(&scope, &node, 2, 0), Ok("#REF!".to_string()));
    let node = CellRefNode {
        cross: None,
        row: axis(2, true),
        col: None,
    };
    assert_eq!(cell_reference(&scope, &node, 0, 0), Ok("$3:$3".to_string()));
    let node = CellRefNode {
        cross: None,
        row: None,
        col: axis(1, false),
    };
    assert_eq!(cell_reference(&scope, &node, 0, 0), Ok("B".to_string()));
    let node = CellRefNode {
        cross: None,
        row: None,
        col: None,
    };
    assert_eq!(
        cell_reference(&scope, &node, 0, 0),
        Err("cell reference node without coordinates".to_string())
    );
}

fn sticky(all: bool) -> Option<StickyBits> {
    Some(StickyBits {
        begin_row_abs: all,
        begin_col_abs: all,
        end_row_abs: all,
        end_col_abs: all,
    })
}

#[test]
fn colon_tracts() {
    let names = FormulaNames::build(&[], &[]);
    let scope = TableScope {
        names: &names,
        self_uid: None,
        sheet: None,
        chart: false,
    };
    let tract = Tract {
        rel_col: None,
        rel_row: None,
        abs_col: Some(AbsRange {
            begin: Some(0),
            end: Some(1),
        }),
        abs_row: Some(AbsRange {
            begin: Some(0),
            end: Some(4),
        }),
    };
    let node = ColonTractNode {
        cross: None,
        tract: Some(tract),
        sticky: sticky(true),
    };
    assert_eq!(colon_tract(&scope, &node, 0, 0), Ok("$A$1:$B$5".to_string()));
    // a whole column: the rows are unbounded
    let tract = Tract {
        rel_col: Some(RelRange {
            begin: Some(0),
            end: None,
        }),
        rel_row: None,
        abs_col: None,
        abs_row: Some(AbsRange {
            begin: Some(0x7FFF_FFFF),
            end: None,
        }),
    };
    let node = ColonTractNode {
        cross: None,
        tract: Some(tract),
        sticky: sticky(false),
    };
    assert_eq!(colon_tract(&scope, &node, 0, 2), Ok("C:C".to_string()));
    let node = ColonTractNode {
        cross: None,
        tract: None,
        sticky: sticky(false),
    };
    assert_eq!(
        colon_tract(&scope, &node, 0, 0),
        Err("colon tract node without a tract".to_string())
    );
}

#[test]
fn cfuuid_words_and_uuid_strings_agree() {
    let words = [None, Some(0x7dae6bbf), Some(0x4444291e), Some(0x4d58ba8c), Some(0x974c36f4)];
    assert_eq!(
        uuid_of_words(words),
        uuid_from_string("BF6BAE7D-1E29-4444-8CBA-584DF4364C97")
    );
    assert_eq!(uuid_of_words([Some(5), Some(7), None, None, None]), Some((7u128 << 64) | 5));
    assert_eq!(uuid_of_words([None, Some(7), None, Some(1), Some(2)]), None);
    assert_eq!(uuid_of_words([Some(5), None, None, None, None]), None);
}

#[test]
fn uuid_messages_in_both_layouts() {
    use_uuid_messages();
}

fn use_uuid_messages() {
    let cf = pnk2json::pb::Msg::parse(&[0x10, 1, 0x18, 2, 0x20, 3, 0x28, 4]).unwrap();
    assert_eq!(uuid_u128(&cf), Some((4u128 << 96) | (3u128 << 64) | (2u128 << 32) | 1));
    let halves = pnk2json::pb::Msg::parse(&[0x08, 5, 0x10, 7]).unwrap();
    assert_eq!(uuid_u128(&halves), Some((7u128 << 64) | 5));
    let neither = pnk2json::pb::Msg::parse(&[0x08, 5]).unwrap();
    assert_eq!(uuid_u128(&neither), None);
}
