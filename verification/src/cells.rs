//! Table cells of version-5 storage decoded to what they hold: the value
//! its type calls for, read from the table's lists, the style and formula
//! ids, and the display format. Numbers stay as they are stored (decimal128
//! bytes or double bits); dates as their seconds' bits.
use vstd::prelude::*;
use crate::cell_storage::{StorageV5, parse_storage_v5, v5_matches, v5_version_msg, StorageV3, V3Read, parse_storage_v3, le_u64, v3_id, v3_field, v3_known};
use crate::cell_formats::{v3_format, v4_format, v4_format_key, v4_key_spec, opt_format_view, legacy_format_spec, slot_format};
use crate::cell_storage::{StorageV4, parse_storage_v4, v4_matches};
use crate::tables::{DataList, ListEntryView, data_list_view};
use crate::cell_formats::{pick_format, picked};
use crate::loader::{Loaded, loaded_view, RecordView};
use crate::ctx::{loaded_msg, vstring};
use crate::keynote::ref_of;
use crate::pb::vvarint;
use crate::wire::{WireSpec, fields_view};
use crate::model::{CellFormat, Warning, WarningCode};
use crate::numbers::opt_text;
use crate::text_util::{owned, push_str, push_decimal, push_decimal_i64, push_hex, dec, dec_int, hex};
use crate::{WarningView, view_warning, view_warnings};

verus! {

/// A stored number: a decimal128's 16 bytes, or a double's bits.
pub enum StoredNumber {
    Decimal128(Vec<u8>),
    Double(u64),
}

/// What a cell holds.
pub enum RawValue {
    Empty,
    Number(StoredNumber),
    Currency(StoredNumber, Option<String>),
    Text(String),
    /// Seconds since 2001-01-01, as a double's bits.
    Date(u64),
    Bool(bool),
    /// Seconds, as a double's bits.
    Duration(u64),
    Error(String),
    /// Rich text: the storage its payload names, when it names one.
    RichText(Option<u64>),
}

/// The mathematical value of a stored number.
pub enum NumberView {
    Decimal128(Seq<u8>),
    Double(u64),
}

/// The mathematical value of what a cell holds.
pub enum RawView {
    Empty,
    Number(NumberView),
    Currency(NumberView, Option<Seq<char>>),
    Text(Seq<char>),
    Date(u64),
    Bool(bool),
    Duration(u64),
    Error(Seq<char>),
    RichText(Option<u64>),
}

pub open spec fn number_view(n: StoredNumber) -> NumberView {
    match n {
        StoredNumber::Decimal128(b) => NumberView::Decimal128(b@),
        StoredNumber::Double(x) => NumberView::Double(x),
    }
}

pub open spec fn raw_view(v: RawValue) -> RawView {
    match v {
        RawValue::Empty => RawView::Empty,
        RawValue::Number(n) => RawView::Number(number_view(n)),
        RawValue::Currency(n, c) => RawView::Currency(number_view(n), opt_text(c)),
        RawValue::Text(s) => RawView::Text(s@),
        RawValue::Date(b) => RawView::Date(b),
        RawValue::Bool(b) => RawView::Bool(b),
        RawValue::Duration(b) => RawView::Duration(b),
        RawValue::Error(s) => RawView::Error(s@),
        RawValue::RichText(r) => RawView::RichText(r),
    }
}

/// The number a record stores: its decimal128, else its double.
pub open spec fn stored_number(s: StorageV5) -> Option<NumberView> {
    match s.decimal128 {
        Some(d) => Some(NumberView::Decimal128(d@)),
        None => match s.double_bits {
            Some(b) => Some(NumberView::Double(b)),
            None => None,
        },
    }
}

/// The double with bits `b` is greater than zero: sign clear, not zero,
/// not a NaN.
pub open spec fn positive_bits(b: u64) -> bool {
    b >> 63u64 == 0 && b != 0 && !((b & 0x7FF0_0000_0000_0000u64) == 0x7FF0_0000_0000_0000u64 && (b
        & 0x000F_FFFF_FFFF_FFFFu64) != 0)
}

/// The string list entry `id` holds, when there is one.
pub open spec fn list_string(l: Map<i32, ListEntryView>, id: i32) -> Option<Seq<char>> {
    if l.contains_key(id) {
        l[id].string
    } else {
        None
    }
}

/// The text of a string id: its string, or empty.
pub open spec fn text_of(l: Map<i32, ListEntryView>, id: i32) -> Seq<char> {
    match list_string(l, id) {
        Some(s) => s,
        None => Seq::empty(),
    }
}

/// The currency code of a currency format id: field 3 of its format.
pub open spec fn currency_code_of(fl: Map<i32, ListEntryView>, id: Option<i32>) -> Option<Seq<char>> {
    match id {
        Some(i) => if fl.contains_key(i) {
            match fl[i].format {
                Some(f) => vstring(f, 3),
                None => None,
            }
        } else {
            None
        },
        None => None,
    }
}

/// The storage a rich-text id names: its list entry's reference, a loaded
/// payload, and that payload's storage (field 1).
pub open spec fn rich_storage(records: Map<u64, RecordView>, rl: Map<i32, ListEntryView>, id: i32) -> Option<u64> {
    if rl.contains_key(id) {
        match rl[id].reference {
            Some(r) => match loaded_msg(records, r) {
                Some(p) => ref_of(p, 1),
                None => None,
            },
            None => None,
        }
    } else {
        None
    }
}

/// How a cell's value comes out: a value, a cell dropped without a word,
/// or a cell type this reader does not know.
pub enum ValueOutcome {
    Value(RawView),
    Dropped,
    Unrecognized,
}

/// The value a record holds by its cell type (byte 1): numbers (2) and
/// currency amounts (10) from the stored number; text (3) from the string
/// list; dates (5) from the stored seconds; booleans (6) from the double
/// being positive (absent reads as false); durations (7) from the double;
/// formula errors (8) from the error list ("formula error" failing that);
/// rich text (9) through the rich-text list; empty for types 0 and 1;
/// for type 4, a number, else a date, else a text, whichever is stored.
pub open spec fn value_spec(
    records: Map<u64, RecordView>,
    s: StorageV5,
    sl: Map<i32, ListEntryView>,
    el: Map<i32, ListEntryView>,
    fl: Map<i32, ListEntryView>,
    rl: Map<i32, ListEntryView>,
) -> ValueOutcome {
    let t = s.cell_type;
    if t == 2 || t == 10 {
        match stored_number(s) {
            Some(n) => if t == 10 {
                ValueOutcome::Value(RawView::Currency(n, currency_code_of(fl, s.currency_format_id)))
            } else {
                ValueOutcome::Value(RawView::Number(n))
            },
            None => ValueOutcome::Dropped,
        }
    } else if t == 3 {
        match s.string_id {
            Some(id) => ValueOutcome::Value(RawView::Text(text_of(sl, id))),
            None => ValueOutcome::Dropped,
        }
    } else if t == 5 {
        match s.seconds_bits {
            Some(b) => ValueOutcome::Value(RawView::Date(b)),
            None => ValueOutcome::Dropped,
        }
    } else if t == 6 {
        ValueOutcome::Value(
            RawView::Bool(
                positive_bits(
                    match s.double_bits {
                        Some(b) => b,
                        None => 0,
                    },
                ),
            ),
        )
    } else if t == 7 {
        match s.double_bits {
            Some(b) => ValueOutcome::Value(RawView::Duration(b)),
            None => ValueOutcome::Dropped,
        }
    } else if t == 8 {
        ValueOutcome::Value(
            RawView::Error(
                match s.formula_error_id {
                    Some(id) => match list_string(el, id) {
                        Some(x) => x,
                        None => "formula error"@,
                    },
                    None => "formula error"@,
                },
            ),
        )
    } else if t == 9 {
        match s.rich_id {
            Some(id) => ValueOutcome::Value(RawView::RichText(rich_storage(records, rl, id))),
            None => ValueOutcome::Dropped,
        }
    } else if t == 0 || t == 1 {
        ValueOutcome::Value(RawView::Empty)
    } else if t == 4 {
        match stored_number(s) {
            Some(n) => ValueOutcome::Value(RawView::Number(n)),
            None => match s.seconds_bits {
                Some(b) => ValueOutcome::Value(RawView::Date(b)),
                None => match s.string_id {
                    Some(id) => ValueOutcome::Value(RawView::Text(text_of(sl, id))),
                    None => ValueOutcome::Dropped,
                },
            },
        }
    } else {
        ValueOutcome::Unrecognized
    }
}

fn copy_bytes(b: &Vec<u8>) -> (r: Vec<u8>)
    ensures
        r@ == b@,
{
    vstd::slice::slice_to_vec(b.as_slice())
}

fn stored_number_exec(s: &StorageV5) -> (r: Option<StoredNumber>)
    ensures
        match r {
            Some(n) => stored_number(*s) == Some(number_view(n)),
            None => stored_number(*s) is None,
        },
{
    match &s.decimal128 {
        Some(d) => Some(StoredNumber::Decimal128(copy_bytes(d))),
        None => match s.double_bits {
            Some(b) => Some(StoredNumber::Double(b)),
            None => None,
        },
    }
}

fn list_string_exec(l: &DataList, id: i32) -> (r: Option<String>)
    ensures
        opt_text(r) == list_string(data_list_view(*l), id),
{
    match l.entries.get(&id) {
        Some(e) => match &e.string {
            Some(x) => Some(owned(x.as_str())),
            None => None,
        },
        None => None,
    }
}

fn text_exec(l: &DataList, id: i32) -> (r: String)
    ensures
        r@ == text_of(data_list_view(*l), id),
{
    match list_string_exec(l, id) {
        Some(x) => x,
        None => {
            let e = String::new();
            assert(e@ =~= Seq::<char>::empty());
            e
        },
    }
}

/// The value a version-5 record holds (see `value_spec`).
pub fn cell_value_v5(
    loaded: &Loaded,
    s: &StorageV5,
    string_table: &DataList,
    formula_error_table: &DataList,
    format_table: &DataList,
    rich_text_table: &DataList,
) -> (r: Option<RawValue>)
    ensures
        match value_spec(
            loaded_view(*loaded).records,
            *s,
            data_list_view(*string_table),
            data_list_view(*formula_error_table),
            data_list_view(*format_table),
            data_list_view(*rich_text_table),
        ) {
            ValueOutcome::Value(v) => r matches Some(x) && raw_view(x) == v,
            _ => r is None,
        },
{
    let t = s.cell_type;
    if t == 2 || t == 10 {
        match stored_number_exec(s) {
            Some(n) => if t == 10 {
                let code = match s.currency_format_id {
                    Some(i) => match format_table.entries.get(&i) {
                        Some(e) => match &e.format {
                            Some(f) => {
                                proof {
                                    crate::pb::lemma_vall(f.fields@, 3);
                                }
                                f.string(3)
                            },
                            None => None,
                        },
                        None => None,
                    },
                    None => None,
                };
                Some(RawValue::Currency(n, code))
            } else {
                Some(RawValue::Number(n))
            },
            None => None,
        }
    } else if t == 3 {
        match s.string_id {
            Some(id) => Some(RawValue::Text(text_exec(string_table, id))),
            None => None,
        }
    } else if t == 5 {
        match s.seconds_bits {
            Some(b) => Some(RawValue::Date(b)),
            None => None,
        }
    } else if t == 6 {
        let b: u64 = match s.double_bits {
            Some(b) => b,
            None => 0,
        };
        let positive = b >> 63u64 == 0 && b != 0 && !((b & 0x7FF0_0000_0000_0000u64)
            == 0x7FF0_0000_0000_0000u64 && (b & 0x000F_FFFF_FFFF_FFFFu64) != 0);
        Some(RawValue::Bool(positive))
    } else if t == 7 {
        match s.double_bits {
            Some(b) => Some(RawValue::Duration(b)),
            None => None,
        }
    } else if t == 8 {
        let msg = match s.formula_error_id {
            Some(id) => match list_string_exec(formula_error_table, id) {
                Some(x) => x,
                None => owned("formula error"),
            },
            None => owned("formula error"),
        };
        Some(RawValue::Error(msg))
    } else if t == 9 {
        match s.rich_id {
            Some(id) => {
                let storage = match rich_text_table.entries.get(&id) {
                    Some(e) => match e.reference {
                        Some(r) => match loaded.msg(r) {
                            Some(p) => p.reference(1),
                            None => None,
                        },
                        None => None,
                    },
                    None => None,
                };
                Some(RawValue::RichText(storage))
            },
            None => None,
        }
    } else if t == 0 || t == 1 {
        Some(RawValue::Empty)
    } else if t == 4 {
        match stored_number_exec(s) {
            Some(n) => Some(RawValue::Number(n)),
            None => match s.seconds_bits {
                Some(b) => Some(RawValue::Date(b)),
                None => match s.string_id {
                    Some(id) => Some(RawValue::Text(text_exec(string_table, id))),
                    None => None,
                },
            },
        }
    } else {
        None
    }
}

} // verus!

verus! {

/// A decoded cell: its place, value, style and formula ids, and format.
pub struct CellParts {
    pub row: u32,
    pub col: u32,
    pub value: RawValue,
    pub cell_style_id: Option<i32>,
    pub text_style_id: Option<i32>,
    /// The formula id, as text.
    pub formula: Option<String>,
    pub format: Option<CellFormat>,
}

/// A warning about one cell of a table.
pub open spec fn cell_warning(message: Seq<char>, row: u32, col: u32) -> WarningView {
    WarningView {
        code: WarningCode::TableDegraded,
        message,
        path: None,
        detail: Some("r"@ + dec(row as nat) + "c"@ + dec(col as nat)),
        count: None,
        paths: None,
    }
}

/// The warning for a cell type this reader does not know.
pub open spec fn unknown_type_message(t: u8) -> Seq<char> {
    "unrecognized cell type "@ + dec(t as nat) + "; cell skipped"@
}

fn cell_warning_exec(message: String, row: u32, col: u32) -> (w: Warning)
    ensures
        view_warning(w) == cell_warning(message@, row, col),
{
    let mut d = owned("r");
    push_decimal(&mut d, row as u64);
    push_str(&mut d, "c");
    push_decimal(&mut d, col as u64);
    assert(d@ =~= "r"@ + dec(row as nat) + "c"@ + dec(col as nat));
    Warning { code: WarningCode::TableDegraded, message, path: None, detail: Some(d), count: None, paths: None }
}

/// The cell of a version-5 record at (`row`, `col`): a record of another
/// version, or of an unknown cell type, is skipped with a warning; a
/// record whose type calls for a field it lacks is dropped; an empty cell
/// with no style id, formula or format is dropped too. Otherwise its value
/// (see `value_spec`), its style ids, its formula id as text and its
/// display format (`pick_format` over its kind slots).
pub fn decode_cell_v5(
    loaded: &Loaded,
    row: u32,
    col: u32,
    buf: &[u8],
    string_table: &DataList,
    formula_error_table: &DataList,
    format_table: &DataList,
    custom_format_table: &DataList,
    rich_text_table: &DataList,
    warnings: &mut Vec<Warning>,
) -> (r: Option<CellParts>)
    requires
        buf@.len() >= 1,
        buf@[0] == 5 ==> buf@.len() >= 12,
    ensures
        r matches Some(c) ==> c.row == row && c.col == col,
        buf@[0] != 5 ==> r is None && view_warnings(final(warnings)@) == view_warnings(old(warnings)@).push(
            cell_warning(v5_version_msg(buf@[0]), row, col),
        ),
        buf@[0] == 5 ==> exists|s: StorageV5|
            #[trigger] v5_matches(s, buf@) && match value_spec(
                loaded_view(*loaded).records,
                s,
                data_list_view(*string_table),
                data_list_view(*formula_error_table),
                data_list_view(*format_table),
                data_list_view(*rich_text_table),
            ) {
                ValueOutcome::Unrecognized => r is None && view_warnings(final(warnings)@) == view_warnings(
                    old(warnings)@,
                ).push(cell_warning(unknown_type_message(buf@[1]), row, col)),
                ValueOutcome::Dropped => r is None && final(warnings)@ == old(warnings)@,
                ValueOutcome::Value(v) => final(warnings)@ == old(warnings)@ && exists|f: Option<CellFormat>|
                    #[trigger] picked(
                        loaded.records@,
                        s.num_format_id,
                        s.currency_format_id,
                        s.date_format_id,
                        s.duration_format_id,
                        s.text_format_id,
                        data_list_view(*format_table),
                        custom_format_table.entries@,
                        f,
                    ) && if v == RawView::Empty && s.cell_style_id is None && s.text_style_id is None
                        && s.formula_id is None && f is None {
                        r is None
                    } else {
                        r matches Some(c) && c.row == row && c.col == col && raw_view(c.value) == v
                            && c.cell_style_id == s.cell_style_id && c.text_style_id == s.text_style_id
                            && opt_text(c.formula) == match s.formula_id {
                            Some(id) => Some(dec_int(id as int)),
                            None => None,
                        } && c.format == f
                    },
            },
{
    let s = match parse_storage_v5(buf) {
        Ok(s) => s,
        Err(m) => {
            let w = cell_warning_exec(m, row, col);
            let ghost before = warnings@;
            warnings.push(w);
            assert(view_warnings(warnings@) =~= view_warnings(before).push(view_warning(w)));
            return None;
        },
    };
    let value = match cell_value_v5(loaded, &s, string_table, formula_error_table, format_table, rich_text_table) {
        Some(v) => v,
        None => {
            let t = s.cell_type;
            let known = t == 2 || t == 10 || t == 3 || t == 5 || t == 6 || t == 7 || t == 8 || t == 9 || t == 0
                || t == 1 || t == 4;
            if !known {
                let mut m = owned("unrecognized cell type ");
                push_decimal(&mut m, t as u64);
                push_str(&mut m, "; cell skipped");
                assert(m@ =~= unknown_type_message(t));
                let w = cell_warning_exec(m, row, col);
                let ghost before = warnings@;
                warnings.push(w);
                assert(view_warnings(warnings@) =~= view_warnings(before).push(view_warning(w)));
            }
            return None;
        },
    };
    let formula = match s.formula_id {
        Some(id) => {
            let mut t = String::new();
            push_decimal_i64(&mut t, id as i64);
            assert(t@ =~= dec_int(id as int));
            Some(t)
        },
        None => None,
    };
    let (format, _) = pick_format(
        loaded,
        s.num_format_id,
        s.currency_format_id,
        s.date_format_id,
        s.duration_format_id,
        s.text_format_id,
        format_table,
        custom_format_table,
    );
    let empty = match value {
        RawValue::Empty => true,
        _ => false,
    };
    if empty && s.cell_style_id.is_none() && s.text_style_id.is_none() && formula.is_none() && format.is_none() {
        return None;
    }
    Some(
        CellParts {
            row,
            col,
            value,
            cell_style_id: s.cell_style_id,
            text_style_id: s.text_style_id,
            formula,
            format,
        },
    )
}

} // verus!

verus! {

/// A cell's place as warnings name it: `r<row>c<col>`.
pub open spec fn place(row: u32, col: u32) -> Seq<char> {
    "r"@ + dec(row as nat) + "c"@ + dec(col as nat)
}

/// How a version-3 cell's value comes out.
pub enum V3Outcome {
    Value(RawView),
    Dropped,
    Warned(Seq<char>),
}

/// An optional id as its debug text: `Some(<id>)` or `None`.
pub open spec fn opt_id_text(id: Option<i32>) -> Seq<char> {
    match id {
        Some(i) => "Some("@ + dec_int(i as int) + ")"@,
        None => "None"@,
    }
}

/// The value of a version-3 record by its cell type (byte 2): empty for
/// types 0 and 1; a number (2) from its double; a text (3) from the string
/// list, with a warning when the list lacks it; rich text (9) through the
/// rich-text list, with a warning when it names no storage; any other type
/// is skipped with a warning.
pub open spec fn v3_value_spec(
    records: Map<u64, RecordView>,
    s: StorageV3,
    sl: Map<i32, ListEntryView>,
    rl: Map<i32, ListEntryView>,
    row: u32,
    col: u32,
) -> V3Outcome {
    let t = s.cell_type;
    if t == 0 || t == 1 {
        V3Outcome::Value(RawView::Empty)
    } else if t == 2 {
        match s.double_bits {
            Some(b) => V3Outcome::Value(RawView::Number(NumberView::Double(b))),
            None => V3Outcome::Dropped,
        }
    } else if t == 3 {
        match s.string_id {
            Some(id) => match list_string(sl, id) {
                Some(x) => V3Outcome::Value(RawView::Text(x)),
                None => V3Outcome::Warned(
                    "v3 string key "@ + dec_int(id as int) + " not resolvable in the string table; cell "@
                        + place(row, col) + " dropped"@,
                ),
            },
            None => V3Outcome::Dropped,
        }
    } else if t == 9 {
        match (match s.rich_id {
            Some(id) => rich_storage(records, rl, id),
            None => None,
        }) {
            Some(st) => V3Outcome::Value(RawView::RichText(Some(st))),
            None => V3Outcome::Warned(
                "v3 rich-text key "@ + opt_id_text(s.rich_id) + " not decodable; cell "@ + place(row, col)
                    + " dropped"@,
            ),
        }
    } else {
        V3Outcome::Warned("unrecognized v3 cell type "@ + dec(t as nat) + "; cell skipped"@)
    }
}

fn place_exec(row: u32, col: u32, s: &mut String)
    ensures
        final(s)@ == old(s)@ + place(row, col),
{
    push_str(s, "r");
    push_decimal(s, row as u64);
    push_str(s, "c");
    push_decimal(s, col as u64);
    assert(final(s)@ =~= old(s)@ + place(row, col));
}

fn push_warning(warnings: &mut Vec<Warning>, message: String, row: u32, col: u32)
    ensures
        view_warnings(final(warnings)@) == view_warnings(old(warnings)@).push(cell_warning(message@, row, col)),
{
    let w = cell_warning_exec(message, row, col);
    let ghost before = warnings@;
    warnings.push(w);
    assert(view_warnings(warnings@) =~= view_warnings(before).push(view_warning(w)));
}

fn v3_value(
    loaded: &Loaded,
    s: &StorageV3,
    string_table: &DataList,
    rich_text_table: &DataList,
    row: u32,
    col: u32,
) -> (r: Result<Option<RawValue>, String>)
    ensures
        match v3_value_spec(
            loaded_view(*loaded).records,
            *s,
            data_list_view(*string_table),
            data_list_view(*rich_text_table),
            row,
            col,
        ) {
            V3Outcome::Value(v) => r matches Ok(Some(x)) && raw_view(x) == v,
            V3Outcome::Dropped => r matches Ok(None),
            V3Outcome::Warned(m) => r matches Err(x) && x@ == m,
        },
{
    let t = s.cell_type;
    if t == 0 || t == 1 {
        Ok(Some(RawValue::Empty))
    } else if t == 2 {
        match s.double_bits {
            Some(b) => Ok(Some(RawValue::Number(StoredNumber::Double(b)))),
            None => Ok(None),
        }
    } else if t == 3 {
        match s.string_id {
            Some(id) => match list_string_exec(string_table, id) {
                Some(x) => Ok(Some(RawValue::Text(x))),
                None => {
                    let mut m = owned("v3 string key ");
                    push_decimal_i64(&mut m, id as i64);
                    push_str(&mut m, " not resolvable in the string table; cell ");
                    place_exec(row, col, &mut m);
                    push_str(&mut m, " dropped");
                    Err(m)
                },
            },
            None => Ok(None),
        }
    } else if t == 9 {
        let storage = match s.rich_id {
            Some(id) => match rich_text_table.entries.get(&id) {
                Some(e) => match e.reference {
                    Some(r) => match loaded.msg(r) {
                        Some(p) => p.reference(1),
                        None => None,
                    },
                    None => None,
                },
                None => None,
            },
            None => None,
        };
        match storage {
            Some(st) => Ok(Some(RawValue::RichText(Some(st)))),
            None => {
                let mut m = owned("v3 rich-text key ");
                match s.rich_id {
                    Some(i) => {
                        push_str(&mut m, "Some(");
                        push_decimal_i64(&mut m, i as i64);
                        push_str(&mut m, ")");
                    },
                    None => {
                        push_str(&mut m, "None");
                    },
                }
                push_str(&mut m, " not decodable; cell ");
                place_exec(row, col, &mut m);
                push_str(&mut m, " dropped");
                Err(m)
            },
        }
    } else {
        let mut m = owned("unrecognized v3 cell type ");
        push_decimal(&mut m, t as u64);
        push_str(&mut m, "; cell skipped");
        Err(m)
    }
}

/// The cell of a version-3 record at (`row`, `col`): a record under 12
/// bytes yields nothing; one with unknown low flag bits is dropped with a
/// warning (the bits in hex); then its value (see `v3_value_spec`, whose
/// warnings are pushed), its style ids and the format its format key
/// names in the format list. An empty cell without a style id yields
/// nothing.
pub fn decode_cell_v3(
    loaded: &Loaded,
    row: u32,
    col: u32,
    buf: &[u8],
    string_table: &DataList,
    format_table: &DataList,
    rich_text_table: &DataList,
    warnings: &mut Vec<Warning>,
) -> (r: Option<CellParts>)
    ensures
        r matches Some(c) ==> c.row == row && c.col == col,
        buf@.len() < 12 ==> r is None && final(warnings)@ == old(warnings)@,
        buf@.len() >= 12 && le_u64(buf@, 4) & 0xffff & !v3_known() != 0 ==> r is None && view_warnings(
            final(warnings)@,
        ) == view_warnings(old(warnings)@).push(
            cell_warning(
                "v3 cell with unknown storage flags 0x"@ + hex((le_u64(buf@, 4) & 0xffff) as nat)
                    + "; cell "@ + place(row, col) + " dropped"@,
                row,
                col,
            ),
        ),
        buf@.len() >= 12 && le_u64(buf@, 4) & 0xffff & !v3_known() == 0 ==> {
            let f = le_u64(buf@, 4);
            let s = StorageV3 {
                cell_type: buf@[2],
                cell_style_id: v3_id(buf@, f, 0),
                text_style_id: v3_id(buf@, f, 1),
                format_id: v3_id(buf@, f, 2),
                string_id: v3_id(buf@, f, 3),
                double_bits: match v3_field(buf@, f, 4) {
                    Some(o) => Some(le_u64(buf@, o)),
                    None => None,
                },
                rich_id: v3_id(buf@, f, 5),
            };
            match v3_value_spec(
                loaded_view(*loaded).records,
                s,
                data_list_view(*string_table),
                data_list_view(*rich_text_table),
                row,
                col,
            ) {
                V3Outcome::Warned(m) => r is None && view_warnings(final(warnings)@) == view_warnings(
                    old(warnings)@,
                ).push(cell_warning(m, row, col)),
                V3Outcome::Dropped => r is None && final(warnings)@ == old(warnings)@,
                V3Outcome::Value(v) => final(warnings)@ == old(warnings)@ && if v == RawView::Empty
                    && s.cell_style_id is None && s.text_style_id is None {
                    r is None
                } else {
                    r matches Some(c) && c.row == row && c.col == col && raw_view(c.value) == v
                        && c.cell_style_id == s.cell_style_id && c.text_style_id == s.text_style_id
                        && c.formula is None && opt_format_view(c.format) == match slot_format(
                        data_list_view(*format_table),
                        s.format_id,
                    ) {
                        Some(fm) => Some(legacy_format_spec(fm, false)),
                        None => None,
                    }
                },
            }
        },
{
    let s = match parse_storage_v3(buf) {
        V3Read::TooShort => {
            return None;
        },
        V3Read::UnknownFlags(bits) => {
            let mut m = owned("v3 cell with unknown storage flags 0x");
            push_hex(&mut m, bits);
            push_str(&mut m, "; cell ");
            place_exec(row, col, &mut m);
            push_str(&mut m, " dropped");
            push_warning(warnings, m, row, col);
            return None;
        },
        V3Read::Fields(s) => s,
    };
    let value = match v3_value(loaded, &s, string_table, rich_text_table, row, col) {
        Ok(Some(v)) => v,
        Ok(None) => {
            return None;
        },
        Err(m) => {
            push_warning(warnings, m, row, col);
            return None;
        },
    };
    let empty = match value {
        RawValue::Empty => true,
        _ => false,
    };
    if empty && s.cell_style_id.is_none() && s.text_style_id.is_none() {
        return None;
    }
    Some(
        CellParts {
            row,
            col,
            value,
            cell_style_id: s.cell_style_id,
            text_style_id: s.text_style_id,
            formula: None,
            format: v3_format(format_table, s.format_id),
        },
    )
}

} // verus!

verus! {

/// The rich-text key of a version-4 record: the first of its last word,
/// word 5 and word 6 (read as signed) that the rich-text list holds.
pub open spec fn v4_rich_key(s: StorageV4, rl: Map<i32, ListEntryView>) -> Option<i32> {
    if rl.contains_key(s.last_word as i32) {
        Some(s.last_word as i32)
    } else if s.slot5 matches Some(x) && rl.contains_key(x as i32) {
        Some(s.slot5->0 as i32)
    } else if s.slot6 matches Some(x) && rl.contains_key(x as i32) {
        Some(s.slot6->0 as i32)
    } else {
        None
    }
}

/// How a version-4 cell's value comes out: a value (with a formula id
/// when the cell is formula-driven), dropped, or warned of.
pub enum V4Outcome {
    Value(RawView, Option<i32>),
    Dropped,
    Warned(Seq<char>),
}

/// The value of a version-4 record by its cell type (byte 1): a text (3)
/// from its string key (else word 6), or when the string list lacks it but
/// the formula list holds its formula key, an empty formula cell; a
/// formula cell (8) needs its formula key; a style-only cell (0 or 1 with
/// a style id) is empty; durations (7), dates (5), numbers (2) and
/// booleans (6, the double positive) from the stored double; rich text
/// (9) through the rich-text list; any other type is skipped with a
/// warning.
pub open spec fn v4_value_spec(
    records: Map<u64, RecordView>,
    s: StorageV4,
    sl: Map<i32, ListEntryView>,
    rl: Map<i32, ListEntryView>,
    ml: Map<i32, ListEntryView>,
    row: u32,
    col: u32,
) -> V4Outcome {
    let t = s.cell_type;
    if t == 3 {
        let sid = match s.string_key {
            Some(k) => Some(k),
            None => match s.slot6 {
                Some(w) => Some(w as i32),
                None => None,
            },
        };
        match sid {
            None => V4Outcome::Dropped,
            Some(id) => match list_string(sl, id) {
                Some(x) => V4Outcome::Value(RawView::Text(x), None),
                None => if s.formula_key matches Some(k) && ml.contains_key(k) {
                    V4Outcome::Value(RawView::Empty, s.formula_key)
                } else {
                    V4Outcome::Warned(
                        "v4 string key "@ + dec_int(id as int) + " not resolvable in the string table; cell "@
                            + place(row, col) + " dropped"@,
                    )
                },
            },
        }
    } else if t == 8 {
        match s.formula_key {
            Some(k) => V4Outcome::Value(RawView::Empty, Some(k)),
            None => V4Outcome::Warned(
                "v4 formula cell without a formula key; cell "@ + place(row, col) + " dropped"@,
            ),
        }
    } else if (t == 0 || t == 1) && (s.cell_style_id is Some || s.text_style_id is Some) {
        V4Outcome::Value(RawView::Empty, None)
    } else if t == 7 || t == 5 || t == 2 || t == 6 {
        match s.value_bits {
            Some(b) => V4Outcome::Value(
                if t == 7 {
                    RawView::Duration(b)
                } else if t == 5 {
                    RawView::Date(b)
                } else if t == 2 {
                    RawView::Number(NumberView::Double(b))
                } else {
                    RawView::Bool(positive_bits(b))
                },
                None,
            ),
            None => V4Outcome::Dropped,
        }
    } else if t == 9 {
        match v4_rich_key(s, rl) {
            Some(id) => match rl[id].reference {
                Some(rtp) => match (match loaded_msg(records, rtp) {
                    Some(p) => ref_of(p, 1),
                    None => None,
                }) {
                    Some(st) => V4Outcome::Value(RawView::RichText(Some(st)), None),
                    None => V4Outcome::Warned(
                        "v4 rich-text payload "@ + dec(rtp as nat) + " not decodable; cell "@ + place(row, col)
                            + " dropped"@,
                    ),
                },
                None => V4Outcome::Warned(
                    "v4 rich-text key "@ + opt_id_text(Some(id)) + " not in the rich-text table; cell "@
                        + place(row, col) + " dropped"@,
                ),
            },
            None => V4Outcome::Warned(
                "v4 rich-text key None not in the rich-text table; cell "@ + place(row, col) + " dropped"@,
            ),
        }
    } else if t == 0 || t == 1 {
        V4Outcome::Dropped
    } else {
        V4Outcome::Warned("unrecognized v4 cell type "@ + dec(t as nat) + "; cell skipped"@)
    }
}

fn v4_rich_key_exec(s: &StorageV4, rich_text_table: &DataList) -> (r: Option<i32>)
    ensures
        r == v4_rich_key(*s, data_list_view(*rich_text_table)),
{
    let last = s.last_word as i32;
    if rich_text_table.entries.contains_key(&last) {
        return Some(last);
    }
    match s.slot5 {
        Some(x) => {
            if rich_text_table.entries.contains_key(&(x as i32)) {
                return Some(x as i32);
            }
        },
        None => {},
    }
    match s.slot6 {
        Some(x) => {
            if rich_text_table.entries.contains_key(&(x as i32)) {
                return Some(x as i32);
            }
        },
        None => {},
    }
    None
}

fn v4_value(
    loaded: &Loaded,
    s: &StorageV4,
    string_table: &DataList,
    rich_text_table: &DataList,
    formula_table: &DataList,
    row: u32,
    col: u32,
) -> (r: Result<Option<(RawValue, Option<i32>)>, String>)
    ensures
        match v4_value_spec(
            loaded_view(*loaded).records,
            *s,
            data_list_view(*string_table),
            data_list_view(*rich_text_table),
            data_list_view(*formula_table),
            row,
            col,
        ) {
            V4Outcome::Value(v, f) => r matches Ok(Some(x)) && raw_view(x.0) == v && x.1 == f,
            V4Outcome::Dropped => r matches Ok(None),
            V4Outcome::Warned(m) => r matches Err(x) && x@ == m,
        },
{
    let t = s.cell_type;
    if t == 3 {
        let sid = match s.string_key {
            Some(k) => Some(k),
            None => match s.slot6 {
                Some(w) => Some(w as i32),
                None => None,
            },
        };
        match sid {
            None => Ok(None),
            Some(id) => match list_string_exec(string_table, id) {
                Some(x) => Ok(Some((RawValue::Text(x), None))),
                None => {
                    let formula_listed = match s.formula_key {
                        Some(k) => formula_table.entries.contains_key(&k),
                        None => false,
                    };
                    if formula_listed {
                        Ok(Some((RawValue::Empty, s.formula_key)))
                    } else {
                        let mut m = owned("v4 string key ");
                        push_decimal_i64(&mut m, id as i64);
                        push_str(&mut m, " not resolvable in the string table; cell ");
                        place_exec(row, col, &mut m);
                        push_str(&mut m, " dropped");
                        Err(m)
                    }
                },
            },
        }
    } else if t == 8 {
        match s.formula_key {
            Some(k) => Ok(Some((RawValue::Empty, Some(k)))),
            None => {
                let mut m = owned("v4 formula cell without a formula key; cell ");
                place_exec(row, col, &mut m);
                push_str(&mut m, " dropped");
                Err(m)
            },
        }
    } else if (t == 0 || t == 1) && (s.cell_style_id.is_some() || s.text_style_id.is_some()) {
        Ok(Some((RawValue::Empty, None)))
    } else if t == 7 || t == 5 || t == 2 || t == 6 {
        match s.value_bits {
            Some(b) => {
                let v = if t == 7 {
                    RawValue::Duration(b)
                } else if t == 5 {
                    RawValue::Date(b)
                } else if t == 2 {
                    RawValue::Number(StoredNumber::Double(b))
                } else {
                    RawValue::Bool(
                        b >> 63u64 == 0 && b != 0 && !((b & 0x7FF0_0000_0000_0000u64) == 0x7FF0_0000_0000_0000u64
                            && (b & 0x000F_FFFF_FFFF_FFFFu64) != 0),
                    )
                };
                Ok(Some((v, None)))
            },
            None => Ok(None),
        }
    } else if t == 9 {
        match v4_rich_key_exec(s, rich_text_table) {
            Some(id) => {
                let rtp = match rich_text_table.entries.get(&id) {
                    Some(e) => e.reference,
                    None => None,
                };
                match rtp {
                    Some(rtp) => {
                        let storage = match loaded.msg(rtp) {
                            Some(p) => p.reference(1),
                            None => None,
                        };
                        match storage {
                            Some(st) => Ok(Some((RawValue::RichText(Some(st)), None))),
                            None => {
                                let mut m = owned("v4 rich-text payload ");
                                push_decimal(&mut m, rtp);
                                push_str(&mut m, " not decodable; cell ");
                                place_exec(row, col, &mut m);
                                push_str(&mut m, " dropped");
                                Err(m)
                            },
                        }
                    },
                    None => {
                        let mut m = owned("v4 rich-text key ");
                        push_str(&mut m, "Some(");
                        push_decimal_i64(&mut m, id as i64);
                        push_str(&mut m, ")");
                        push_str(&mut m, " not in the rich-text table; cell ");
                        place_exec(row, col, &mut m);
                        push_str(&mut m, " dropped");
                        Err(m)
                    },
                }
            },
            None => {
                let mut m = owned("v4 rich-text key None not in the rich-text table; cell ");
                place_exec(row, col, &mut m);
                push_str(&mut m, " dropped");
                Err(m)
            },
        }
    } else if t == 0 || t == 1 {
        Ok(None)
    } else {
        let mut m = owned("unrecognized v4 cell type ");
        push_decimal(&mut m, t as u64);
        push_str(&mut m, "; cell skipped");
        Err(m)
    }
}

/// The cell of a version-4 record at (`row`, `col`): a record under 16
/// bytes yields nothing; then its value and formula (see
/// `v4_value_spec`, whose warnings are pushed), its style ids, and for
/// numbers, dates and durations the format its chosen format key (see
/// `v4_key_spec`) names in the format list. An empty cell without a style
/// id or formula yields nothing.
pub fn decode_cell_v4(
    loaded: &Loaded,
    row: u32,
    col: u32,
    buf: &[u8],
    string_table: &DataList,
    format_table: &DataList,
    rich_text_table: &DataList,
    formula_table: &DataList,
    warnings: &mut Vec<Warning>,
) -> (r: Option<CellParts>)
    ensures
        r matches Some(c) ==> c.row == row && c.col == col,
        buf@.len() < 16 ==> r is None && final(warnings)@ == old(warnings)@,
        buf@.len() >= 16 ==> exists|s: StorageV4|
            #[trigger] v4_matches(s, buf@) && match v4_value_spec(
                loaded_view(*loaded).records,
                s,
                data_list_view(*string_table),
                data_list_view(*rich_text_table),
                data_list_view(*formula_table),
                row,
                col,
            ) {
                V4Outcome::Warned(m) => r is None && view_warnings(final(warnings)@) == view_warnings(
                    old(warnings)@,
                ).push(cell_warning(m, row, col)),
                V4Outcome::Dropped => r is None && final(warnings)@ == old(warnings)@,
                V4Outcome::Value(v, fk) => final(warnings)@ == old(warnings)@ && if v == RawView::Empty
                    && s.cell_style_id is None && s.text_style_id is None && fk is None {
                    r is None
                } else {
                    r matches Some(c) && c.row == row && c.col == col && raw_view(c.value) == v
                        && c.cell_style_id == s.cell_style_id && c.text_style_id == s.text_style_id
                        && opt_text(c.formula) == match fk {
                        Some(k) => Some(dec_int(k as int)),
                        None => None,
                    } && opt_format_view(c.format) == if s.cell_type == 2 || s.cell_type == 5
                        || s.cell_type == 7 {
                        match slot_format(
                            data_list_view(*format_table),
                            v4_key_spec(s.format_id, s.trailing_keys@, data_list_view(*format_table)),
                        ) {
                            Some(fm) => Some(legacy_format_spec(fm, true)),
                            None => None,
                        }
                    } else {
                        None
                    }
                },
            },
{
    let s = match parse_storage_v4(buf) {
        Some(s) => s,
        None => {
            return None;
        },
    };
    let (value, fk) = match v4_value(loaded, &s, string_table, rich_text_table, formula_table, row, col) {
        Ok(Some(x)) => x,
        Ok(None) => {
            return None;
        },
        Err(m) => {
            push_warning(warnings, m, row, col);
            return None;
        },
    };
    let empty = match value {
        RawValue::Empty => true,
        _ => false,
    };
    if empty && s.cell_style_id.is_none() && s.text_style_id.is_none() && fk.is_none() {
        return None;
    }
    let formula = match fk {
        Some(k) => {
            let mut t = String::new();
            push_decimal_i64(&mut t, k as i64);
            assert(t@ =~= dec_int(k as int));
            Some(t)
        },
        None => None,
    };
    let t = s.cell_type;
    let format = if t == 2 || t == 5 || t == 7 {
        let key = v4_format_key(s.format_id, &s.trailing_keys, format_table);
        v4_format(format_table, key)
    } else {
        None
    };
    Some(
        CellParts {
            row,
            col,
            value,
            cell_style_id: s.cell_style_id,
            text_style_id: s.text_style_id,
            formula,
            format,
        },
    )
}

/// Date and duration cells stay apart: a version-5 record of type 5
/// (date) with its seconds stored holds a date carrying exactly those
/// seconds, never a duration; a duration comes only from a record of type
/// 7 (duration), carrying its stored double; and a date only from type 5
/// or the number-or-date type 4, carrying the stored seconds.
pub proof fn lemma_v5_dates_and_durations(
    records: Map<u64, RecordView>,
    s: StorageV5,
    sl: Map<i32, ListEntryView>,
    el: Map<i32, ListEntryView>,
    fl: Map<i32, ListEntryView>,
    rl: Map<i32, ListEntryView>,
)
    ensures
        s.cell_type == 5 && s.seconds_bits is Some ==> value_spec(records, s, sl, el, fl, rl) == ValueOutcome::Value(
            RawView::Date(s.seconds_bits->0),
        ),
        value_spec(records, s, sl, el, fl, rl) matches ValueOutcome::Value(RawView::Duration(b)) ==> s.cell_type == 7
            && s.double_bits == Some(b),
        value_spec(records, s, sl, el, fl, rl) matches ValueOutcome::Value(RawView::Date(b)) ==> (s.cell_type == 5
            || s.cell_type == 4) && s.seconds_bits == Some(b),
{
}

/// Version-4 records keep dates and durations apart in the same way: a
/// record of type 5 with its double stored holds a date carrying it, a
/// duration comes only from type 7 and a date only from type 5, each
/// carrying the stored double.
pub proof fn lemma_v4_dates_and_durations(
    records: Map<u64, RecordView>,
    s: StorageV4,
    sl: Map<i32, ListEntryView>,
    rl: Map<i32, ListEntryView>,
    ml: Map<i32, ListEntryView>,
    row: u32,
    col: u32,
)
    ensures
        s.cell_type == 5 && s.value_bits is Some ==> v4_value_spec(records, s, sl, rl, ml, row, col) == V4Outcome::Value(
            RawView::Date(s.value_bits->0),
            None,
        ),
        v4_value_spec(records, s, sl, rl, ml, row, col) matches V4Outcome::Value(RawView::Duration(b), _) ==> s.cell_type
            == 7 && s.value_bits == Some(b),
        v4_value_spec(records, s, sl, rl, ml, row, col) matches V4Outcome::Value(RawView::Date(b), _) ==> s.cell_type
            == 5 && s.value_bits == Some(b),
{
}

} // verus!
