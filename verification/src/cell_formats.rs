//! Number formats of table cells: the format a cell's kind slots resolve
//! to in a table's format list, and the patterns of custom formats.
use vstd::prelude::*;
use crate::pb::{Msg, vvarint, vmsg, vall, nested_all, lemma_vall};
use crate::wire::{WireSpec, fields_view};
use crate::loader::{Loaded, Record, RecordView, record_view};
use crate::ctx::vstring;
use crate::keynote::bool_of;
use crate::tables::{or_default, DataList, ListEntry, ListEntryView, entry_view, data_list_view};
use crate::charts::decimals_of;
use crate::formulas::{is_key_walk, walk_of};
use crate::model::{CellFormat, CellFormatKind};
use crate::text_util::{dec, push_decimal, push_str, owned, chars_of};
use vstd::std_specs::iter::IteratorSpec;

verus! {

broadcast use vstd::std_specs::hash::group_hash_axioms;

/// The text, when there is some and it is not empty.
pub open spec fn nonempty(s: Option<Seq<char>>) -> Option<Seq<char>> {
    match s {
        Some(x) => if x.len() > 0 {
            Some(x)
        } else {
            None
        },
        None => None,
    }
}

/// The first text that is there.
pub open spec fn or_else(a: Option<Seq<char>>, b: Option<Seq<char>>) -> Option<Seq<char>> {
    if a is Some {
        a
    } else {
        b
    }
}

/// The pattern a custom format archive gives: its default format's (field
/// 3) custom format string (field 18), when not empty.
pub open spec fn archive_pattern(cf: Seq<(u32, WireSpec)>) -> Option<Seq<char>> {
    match vmsg(cf, 3) {
        Some(df) => nonempty(vstring(df, 18)),
        None => None,
    }
}

/// The pattern of the first custom format, from position `i` on, whose
/// uuid (uuids in field 1, formats at the same position in field 2) is
/// `key`.
pub open spec fn list_pattern_from(
    us: Seq<Seq<(u32, WireSpec)>>,
    fs: Seq<Seq<(u32, WireSpec)>>,
    key: (u64, u64),
    i: int,
) -> Option<Seq<char>>
    decreases us.len() - i,
{
    if i < 0 || i >= us.len() {
        None
    } else if vvarint(us[i], 1) == Some(key.0) && vvarint(us[i], 2) == Some(key.1) && i < fs.len()
        && archive_pattern(fs[i]) is Some {
        archive_pattern(fs[i])
    } else {
        list_pattern_from(us, fs, key, i + 1)
    }
}

/// The pattern a custom format list (a record of type 222) gives `key`.
pub open spec fn record_pattern(r: RecordView, key: (u64, u64)) -> Option<Seq<char>> {
    match r.msg {
        Some(list) => if r.type_id == 222 {
            list_pattern_from(nested_all(vall(list, 1)), nested_all(vall(list, 2)), key, 0)
        } else {
            None
        },
        None => None,
    }
}

/// The first pattern the records along the walk give `key`.
pub open spec fn walk_pattern(walk: Seq<RecordView>, key: (u64, u64)) -> Option<Seq<char>>
    decreases walk.len(),
{
    if walk.len() == 0 {
        None
    } else {
        match walk_pattern(walk.drop_last(), key) {
            Some(p) => Some(p),
            None => record_pattern(walk.last(), key),
        }
    }
}

/// The pattern of a custom format: its inline custom format archive (field
/// 42), else the document's custom format lists, found by its uid (field
/// 41: words 1 and 2), records met along the walk.
pub open spec fn custom_pattern_spec(walk: Seq<RecordView>, f: Seq<(u32, WireSpec)>) -> Option<Seq<char>> {
    match (match vmsg(f, 42) {
        Some(cf) => archive_pattern(cf),
        None => None,
    }) {
        Some(p) => Some(p),
        None => match vmsg(f, 41) {
            Some(uid) => match (vvarint(uid, 1), vvarint(uid, 2)) {
                (Some(a), Some(b)) => walk_pattern(walk, (a, b)),
                _ => None,
            },
            None => None,
        },
    }
}

fn nonempty_string(s: Option<String>) -> (r: Option<String>)
    ensures
        crate::numbers::opt_text(r) == nonempty(crate::numbers::opt_text(s)),
{
    match s {
        Some(x) => {
            let n = chars_of(x.as_str()).len();
            if n > 0 {
                Some(x)
            } else {
                None
            }
        },
        None => None,
    }
}

pub(crate) fn string_of(m: &Msg, n: u32) -> (r: Option<String>)
    ensures
        crate::numbers::opt_text(r) == vstring(fields_view(m.fields@), n),
{
    proof {
        lemma_vall(m.fields@, n);
    }
    m.string(n)
}

fn archive_pattern_exec(cf: &Msg) -> (r: Option<String>)
    ensures
        crate::numbers::opt_text(r) == archive_pattern(fields_view(cf.fields@)),
{
    match cf.msg(3) {
        Some(df) => nonempty_string(string_of(&df, 18)),
        None => None,
    }
}

fn record_pattern_exec(rec: &Record, key: (u64, u64)) -> (r: Option<String>)
    ensures
        crate::numbers::opt_text(r) == record_pattern(record_view(*rec), key),
{
    if rec.type_id != 222 {
        return None;
    }
    let list = match &rec.msg {
        Some(l) => l,
        None => {
            return None;
        },
    };
    let us = list.msgs(1);
    let fs = list.msgs(2);
    let ghost uv = nested_all(vall(fields_view(list.fields@), 1));
    let ghost fv = nested_all(vall(fields_view(list.fields@), 2));
    let mut i: usize = 0;
    assert(record_pattern(record_view(*rec), key) == list_pattern_from(uv, fv, key, 0));
    while i < us.len()
        invariant
            i <= us@.len(),
            us@.len() == uv.len(),
            fs@.len() == fv.len(),
            forall|j: int| 0 <= j < us@.len() ==> fields_view(#[trigger] us@[j].fields@) == uv[j],
            forall|j: int| 0 <= j < fs@.len() ==> fields_view(#[trigger] fs@[j].fields@) == fv[j],
            list_pattern_from(uv, fv, key, 0) == list_pattern_from(uv, fv, key, i as int),
            record_pattern(record_view(*rec), key) == list_pattern_from(uv, fv, key, 0),
        decreases us@.len() - i,
    {
        let u = &us[i];
        proof {
            lemma_vall(u.fields@, 1);
            lemma_vall(u.fields@, 2);
        }
        if u.varint(1) == Some(key.0) && u.varint(2) == Some(key.1) && i < fs.len() {
            match archive_pattern_exec(&fs[i]) {
                Some(p) => {
                    assert(vvarint(uv[i as int], 1) == Some(key.0) && vvarint(uv[i as int], 2) == Some(key.1));
                    assert(list_pattern_from(uv, fv, key, i as int) == archive_pattern(fv[i as int]));
                    return Some(p);
                },
                None => {},
            }
        }
        i = i + 1;
    }
    None
}

/// The pattern of a custom format (see `custom_pattern_spec`). The custom
/// format lists are met in the record map's own order, which is not fixed:
/// the result is what some order of the records gives.
pub fn custom_pattern(loaded: &Loaded, f: &Msg) -> (r: Option<String>)
    ensures
        exists|ks: Seq<u64>|
            #[trigger] is_key_walk(ks, loaded.records@) && crate::numbers::opt_text(r)
                == custom_pattern_spec(walk_of(ks, loaded.records@), fields_view(f.fields@)),
{
    let ghost m = loaded.records@;
    let ghost kr = vstd::std_specs::hash::spec_keys_iter(&loaded.records).remaining();
    let ghost kv = kr.unref();
    proof {
        assert(kr.no_duplicates());
        assert(kv.no_duplicates()) by {
            assert forall|a: int, b: int| 0 <= a < kv.len() && 0 <= b < kv.len() && a != b implies kv[a]
                != kv[b] by {
                assert(kr[a] != kr[b]);
            }
        }
    }
    let inline = match f.msg(42) {
        Some(cf) => archive_pattern_exec(&cf),
        None => None,
    };
    if inline.is_some() {
        proof {
            lemma_key_walk(kv, m);
        }
        return inline;
    }
    let uid = match f.msg(41) {
        Some(u) => u,
        None => {
            proof {
                lemma_key_walk(kv, m);
            }
            return None;
        },
    };
    proof {
        lemma_vall(uid.fields@, 1);
        lemma_vall(uid.fields@, 2);
    }
    let key = match (uid.varint(1), uid.varint(2)) {
        (Some(a), Some(b)) => (a, b),
        _ => {
            proof {
                lemma_key_walk(kv, m);
            }
            return None;
        },
    };
    let mut found: Option<String> = None;
    assert(walk_of(kv.take(0), m) =~= Seq::<RecordView>::empty());
    for k in it: loaded.records.keys()
        invariant
            it.seq() == kr,
            kv == kr.unref(),
            kv.to_set() == m.dom(),
            m == loaded.records@,
            crate::numbers::opt_text(found) == walk_pattern(walk_of(kv.take(it.index()), m), key),
    {
        let ghost i = it.index();
        let ghost before = walk_of(kv.take(i), m);
        assert(kv[i] == *k);
        assert(kv.to_set().contains(kv[i]));
        assert(walk_of(kv.take(i + 1), m) =~= before.push(record_view(m[*k])));
        assert(before.push(record_view(m[*k])).drop_last() =~= before);
        if found.is_none() {
            match loaded.record(*k) {
                Some(rec) => {
                    found = record_pattern_exec(rec, key);
                },
                None => {
                    assert(false);
                },
            }
        }
    }
    proof {
        assert(kv.take(kv.len() as int) =~= kv);
        lemma_key_walk(kv, m);
    }
    found
}

proof fn lemma_key_walk(kv: Seq<u64>, m: Map<u64, Record>)
    requires
        kv.no_duplicates(),
        kv.to_set() == m.dom(),
    ensures
        is_key_walk(kv, m),
{
}

} // verus!

verus! {

/// The mathematical value of a cell format.
pub struct CellFormatView {
    pub kind: CellFormatKind,
    pub decimals: Option<u32>,
    pub currency_code: Option<Seq<char>>,
    pub grouping: Option<bool>,
    pub accounting: Option<bool>,
    pub format_string: Option<Seq<char>>,
    pub name: Option<Seq<char>>,
}

pub open spec fn format_view(c: CellFormat) -> CellFormatView {
    CellFormatView {
        kind: c.kind,
        decimals: c.decimals,
        currency_code: crate::numbers::opt_text(c.currency_code),
        grouping: c.grouping,
        accounting: c.accounting,
        format_string: crate::numbers::opt_text(c.format_string),
        name: crate::numbers::opt_text(c.name),
    }
}

/// A format type (field 1) of a custom format (270 to 274).
pub open spec fn custom_kind(ft: Option<u64>) -> bool {
    ft matches Some(t) && 270 <= t <= 274
}

/// The kind a format's own type gives, else the kind of the slot it was
/// found through.
pub open spec fn kind_of(ft: Option<u64>, slot: CellFormatKind) -> CellFormatKind {
    if ft == Some(257u64) {
        CellFormatKind::Currency
    } else if ft == Some(258u64) {
        CellFormatKind::Percent
    } else if ft == Some(261u64) {
        CellFormatKind::Date
    } else if ft == Some(268u64) {
        CellFormatKind::Duration
    } else if ft == Some(260u64) {
        CellFormatKind::Text
    } else if custom_kind(ft) {
        CellFormatKind::Custom
    } else {
        slot
    }
}

/// The duration marker: style (field 7, default 0), largest and smallest
/// unit (fields 15 and 16, defaults 4 and 16), automatic units (field 40).
pub open spec fn duration_marker(f: Seq<(u32, WireSpec)>) -> Seq<char> {
    "duration-"@ + dec(or_default(vvarint(f, 7), 0) as nat) + "-"@ + dec(
        or_default(vvarint(f, 15), 4) as nat,
    ) + "-"@ + dec(or_default(vvarint(f, 16), 16) as nat) + "-"@ + dec(
        if bool_of(f, 40) == Some(true) {
            1nat
        } else {
            0nat
        },
    )
}

/// The display marker of format types without a stored pattern:
/// scientific (259), fractions (262, with an exact denominator 2 to 100
/// from field 11) and durations (268).
pub open spec fn marker(f: Seq<(u32, WireSpec)>) -> Option<Seq<char>> {
    let ft = vvarint(f, 1);
    if ft == Some(259u64) {
        Some("scientific"@)
    } else if ft == Some(262u64) {
        match vvarint(f, 11) {
            Some(acc) => if 2 <= acc <= 100 {
                Some("fraction-"@ + dec(acc as nat))
            } else {
                Some("fraction"@)
            },
            None => Some("fraction"@),
        }
    } else if ft == Some(268u64) {
        Some(duration_marker(f))
    } else {
        None
    }
}

/// The format string of a format: its stored pattern (field 18); else for
/// base-N formats (269) "base-" and the base (field 8); for scientific
/// (259) a stored pattern (field 44); for dates (261) the date-time format
/// (field 14); else its marker; else, for custom formats, `pattern`.
pub open spec fn format_string_spec(f: Seq<(u32, WireSpec)>, pattern: Option<Seq<char>>) -> Option<Seq<char>> {
    let ft = vvarint(f, 1);
    or_else(
        vstring(f, 18),
        or_else(
            if ft == Some(269u64) && vvarint(f, 8) is Some {
                Some("base-"@ + dec(vvarint(f, 8)->0 as nat))
            } else {
                None
            },
            or_else(
                if ft == Some(259u64) {
                    nonempty(vstring(f, 44))
                } else {
                    None
                },
                or_else(
                    if ft == Some(261u64) {
                        nonempty(vstring(f, 14))
                    } else {
                        None
                    },
                    or_else(
                        marker(f),
                        if custom_kind(ft) {
                            pattern
                        } else {
                            None
                        },
                    ),
                ),
            ),
        ),
    )
}

/// The cell format a format struct gives, found through a `slot` kind.
pub open spec fn format_spec(f: Seq<(u32, WireSpec)>, slot: CellFormatKind, pattern: Option<Seq<char>>) -> CellFormatView {
    CellFormatView {
        kind: kind_of(vvarint(f, 1), slot),
        decimals: decimals_of(vvarint(f, 2)),
        currency_code: vstring(f, 3),
        grouping: bool_of(f, 5),
        accounting: None,
        format_string: format_string_spec(f, pattern),
        name: None,
    }
}

fn marker_exec(f: &Msg) -> (r: Option<String>)
    ensures
        crate::numbers::opt_text(r) == marker(fields_view(f.fields@)),
{
    proof {
        lemma_vall(f.fields@, 1);
        lemma_vall(f.fields@, 7);
        lemma_vall(f.fields@, 11);
        lemma_vall(f.fields@, 15);
        lemma_vall(f.fields@, 16);
        lemma_vall(f.fields@, 40);
    }
    let ft = f.varint(1);
    if ft == Some(259u64) {
        Some(owned("scientific"))
    } else if ft == Some(262u64) {
        match f.varint(11) {
            Some(acc) => if 2 <= acc && acc <= 100 {
                let mut s = owned("fraction-");
                push_decimal(&mut s, acc);
                Some(s)
            } else {
                Some(owned("fraction"))
            },
            None => Some(owned("fraction")),
        }
    } else if ft == Some(268u64) {
        let style = match f.varint(7) {
            Some(x) => x,
            None => 0,
        };
        let largest = match f.varint(15) {
            Some(x) => x,
            None => 4,
        };
        let smallest = match f.varint(16) {
            Some(x) => x,
            None => 16,
        };
        let auto: u64 = if f.boolean(40) == Some(true) {
            1
        } else {
            0
        };
        let mut s = owned("duration-");
        push_decimal(&mut s, style);
        push_str(&mut s, "-");
        push_decimal(&mut s, largest);
        push_str(&mut s, "-");
        push_decimal(&mut s, smallest);
        push_str(&mut s, "-");
        push_decimal(&mut s, auto);
        assert(s@ =~= duration_marker(fields_view(f.fields@)));
        Some(s)
    } else {
        None
    }
}

/// The cell format a format struct gives, found through a `slot` kind (the
/// format's own type decides the kind where it names one). Custom formats
/// read their pattern from the document's custom format lists, met in the
/// record map's own order.
pub fn format_of(loaded: &Loaded, f: &Msg, slot: CellFormatKind) -> (r: CellFormat)
    ensures
        !custom_kind(vvarint(fields_view(f.fields@), 1)) ==> format_view(r) == format_spec(
            fields_view(f.fields@),
            slot,
            None,
        ),
        custom_kind(vvarint(fields_view(f.fields@), 1)) ==> exists|ks: Seq<u64>|
            #[trigger] is_key_walk(ks, loaded.records@) && format_view(r) == format_spec(
                fields_view(f.fields@),
                slot,
                custom_pattern_spec(walk_of(ks, loaded.records@), fields_view(f.fields@)),
            ),
{
    let ghost fv = fields_view(f.fields@);
    proof {
        lemma_vall(f.fields@, 1);
        lemma_vall(f.fields@, 2);
        lemma_vall(f.fields@, 5);
        lemma_vall(f.fields@, 8);
    }
    let ft = f.varint(1);
    let custom = match ft {
        Some(t) => 270 <= t && t <= 274,
        None => false,
    };
    let pattern = if custom {
        custom_pattern(loaded, f)
    } else {
        None
    };
    let ghost pv = crate::numbers::opt_text(pattern);
    let mut s = string_of(f, 18);
    if s.is_none() && ft == Some(269u64) {
        match f.varint(8) {
            Some(base) => {
                let mut t = owned("base-");
                push_decimal(&mut t, base);
                s = Some(t);
            },
            None => {},
        }
    }
    if s.is_none() && ft == Some(259u64) {
        s = nonempty_string(string_of(f, 44));
    }
    if s.is_none() && ft == Some(261u64) {
        s = nonempty_string(string_of(f, 14));
    }
    if s.is_none() {
        s = marker_exec(f);
    }
    if s.is_none() && custom {
        s = pattern;
    }
    assert(crate::numbers::opt_text(s) == format_string_spec(fv, if custom { pv } else { None }));
    let kind = match ft {
        Some(257) => CellFormatKind::Currency,
        Some(258) => CellFormatKind::Percent,
        Some(261) => CellFormatKind::Date,
        Some(268) => CellFormatKind::Duration,
        Some(260) => CellFormatKind::Text,
        _ => if custom {
            CellFormatKind::Custom
        } else {
            slot
        },
    };
    let decimals = match f.varint(2) {
        Some(d) => if d <= 20 {
            Some(d as u32)
        } else {
            None
        },
        None => None,
    };
    let r = CellFormat {
        kind,
        decimals,
        currency_code: string_of(f, 3),
        grouping: f.boolean(5),
        accounting: None,
        format_string: s,
        name: None,
    };
    r
}

} // verus!

verus! {

/// The format message list entry `id` holds, when it holds one.
pub open spec fn slot_format(fl: Map<i32, ListEntryView>, id: Option<i32>) -> Option<Seq<(u32, WireSpec)>> {
    match id {
        Some(i) => if fl.contains_key(i) {
            fl[i].format
        } else {
            None
        },
        None => None,
    }
}

/// The first of a cell's kind slots (number, currency, date, duration,
/// text, in that order) whose id holds a format in the format list, with
/// the kind of that slot.
pub open spec fn found_format(
    fl: Map<i32, ListEntryView>,
    num: Option<i32>,
    currency: Option<i32>,
    date: Option<i32>,
    duration: Option<i32>,
    text: Option<i32>,
) -> Option<(Seq<(u32, WireSpec)>, CellFormatKind)> {
    if slot_format(fl, num) is Some {
        Some((slot_format(fl, num)->0, CellFormatKind::Number))
    } else if slot_format(fl, currency) is Some {
        Some((slot_format(fl, currency)->0, CellFormatKind::Currency))
    } else if slot_format(fl, date) is Some {
        Some((slot_format(fl, date)->0, CellFormatKind::Date))
    } else if slot_format(fl, duration) is Some {
        Some((slot_format(fl, duration)->0, CellFormatKind::Duration))
    } else if slot_format(fl, text) is Some {
        Some((slot_format(fl, text)->0, CellFormatKind::Text))
    } else {
        None
    }
}

/// The first custom format archive among the entries, in order.
pub open spec fn first_custom(es: Seq<ListEntryView>) -> Option<Seq<(u32, WireSpec)>>
    decreases es.len(),
{
    if es.len() == 0 {
        None
    } else {
        match first_custom(es.drop_last()) {
            Some(cf) => Some(cf),
            None => es.last().custom_format,
        }
    }
}

/// The format of a cell with no slot format: a custom format (its pattern
/// the default format's custom format string), when the custom format list
/// holds one.
pub open spec fn fallback_format(cf: Option<Seq<(u32, WireSpec)>>) -> Option<CellFormatView> {
    match cf {
        Some(c) => Some(
            CellFormatView {
                kind: CellFormatKind::Custom,
                decimals: None,
                currency_code: None,
                grouping: None,
                accounting: None,
                format_string: match vmsg(c, 3) {
                    Some(df) => vstring(df, 18),
                    None => None,
                },
                name: None,
            },
        ),
        None => None,
    }
}

/// `ks` lists the keys of a data list's entries, each once.
pub open spec fn is_entry_walk(ks: Seq<i32>, m: Map<i32, ListEntry>) -> bool {
    ks.no_duplicates() && ks.to_set() == m.dom()
}

/// The entries met along the keys `ks`.
pub open spec fn entries_along(ks: Seq<i32>, m: Map<i32, ListEntry>) -> Seq<ListEntryView> {
    ks.map_values(|k: i32| entry_view(m[k]))
}

pub open spec fn opt_format_view(c: Option<CellFormat>) -> Option<CellFormatView> {
    match c {
        Some(x) => Some(format_view(x)),
        None => None,
    }
}

/// `r` is the display format of a cell with these kind slots (see
/// `pick_format`): the first slot's format read by `format_spec`, a custom
/// pattern met in some order of the records; failing all, the custom
/// format list's first custom format in some order of its entries.
pub open spec fn picked(
    records: Map<u64, Record>,
    num: Option<i32>,
    currency: Option<i32>,
    date: Option<i32>,
    duration: Option<i32>,
    text: Option<i32>,
    fl: Map<i32, ListEntryView>,
    custom: Map<i32, ListEntry>,
    r: Option<CellFormat>,
) -> bool {
    match found_format(fl, num, currency, date, duration, text) {
        Some((f, slot)) => r matches Some(c) && (!custom_kind(vvarint(f, 1)) ==> format_view(c)
            == format_spec(f, slot, None)) && (custom_kind(vvarint(f, 1)) ==> exists|ks: Seq<u64>|
            #[trigger] is_key_walk(ks, records) && format_view(c) == format_spec(
                f,
                slot,
                custom_pattern_spec(walk_of(ks, records), f),
            )),
        None => exists|ks: Seq<i32>|
            #[trigger] is_entry_walk(ks, custom) && opt_format_view(r) == fallback_format(
                first_custom(entries_along(ks, custom)),
            ),
    }
}

fn slot_format_exec(table: &DataList, id: Option<i32>) -> (r: Option<Msg>)
    ensures
        match slot_format(data_list_view(*table), id) {
            Some(f) => r matches Some(m) && fields_view(m.fields@) == f,
            None => r is None,
        },
{
    match id {
        Some(i) => match table.entries.get(&i) {
            Some(e) => match &e.format {
                Some(f) => Some(Msg { fields: crate::pb::clone_fields(&f.fields) }),
                None => None,
            },
            None => None,
        },
        None => None,
    }
}

/// The first custom format archive of a custom format list, its entries
/// met in the map's own order.
fn first_custom_exec(table: &DataList) -> (r: Option<Msg>)
    ensures
        exists|ks: Seq<i32>|
            #[trigger] is_entry_walk(ks, table.entries@) && match first_custom(entries_along(ks, table.entries@)) {
                Some(cf) => r matches Some(m) && fields_view(m.fields@) == cf,
                None => r is None,
            },
{
    let ghost m = table.entries@;
    let ghost kr = vstd::std_specs::hash::spec_keys_iter(&table.entries).remaining();
    let ghost kv = kr.unref();
    let mut found: Option<Msg> = None;
    assert(entries_along(kv.take(0), m) =~= Seq::<ListEntryView>::empty());
    for k in it: table.entries.keys()
        invariant
            it.seq() == kr,
            kv == kr.unref(),
            kv.to_set() == m.dom(),
            m == table.entries@,
            match first_custom(entries_along(kv.take(it.index()), m)) {
                Some(cf) => found matches Some(x) && fields_view(x.fields@) == cf,
                None => found is None,
            },
    {
        let ghost i = it.index();
        let ghost before = entries_along(kv.take(i), m);
        assert(kv[i] == *k);
        assert(kv.to_set().contains(kv[i]));
        assert(entries_along(kv.take(i + 1), m) =~= before.push(entry_view(m[*k])));
        assert(before.push(entry_view(m[*k])).drop_last() =~= before);
        if found.is_none() {
            match table.entries.get(k) {
                Some(e) => {
                    found = match &e.custom_format {
                        Some(cf) => Some(Msg { fields: crate::pb::clone_fields(&cf.fields) }),
                        None => None,
                    };
                },
                None => {
                    assert(false);
                },
            }
        }
    }
    proof {
        assert(kv.take(kv.len() as int) =~= kv);
        assert(kr.no_duplicates());
        assert(kv.no_duplicates()) by {
            assert forall|a: int, b: int| 0 <= a < kv.len() && 0 <= b < kv.len() && a != b implies kv[a]
                != kv[b] by {
                assert(kr[a] != kr[b]);
            }
        }
        assert(is_entry_walk(kv, m));
    }
    found
}

/// The display format of a cell: the first of its kind slots (number,
/// currency, date, duration, text) whose id holds a format in the table's
/// format list, read by `format_of`; failing all, a custom format from the
/// custom format list (its entries met in the map's own order). The flag
/// is always false.
pub fn pick_format(
    loaded: &Loaded,
    num: Option<i32>,
    currency: Option<i32>,
    date: Option<i32>,
    duration: Option<i32>,
    text: Option<i32>,
    format_table: &DataList,
    custom_format_table: &DataList,
) -> (r: (Option<CellFormat>, bool))
    ensures
        !r.1,
        picked(
            loaded.records@,
            num,
            currency,
            date,
            duration,
            text,
            data_list_view(*format_table),
            custom_format_table.entries@,
            r.0,
        ),
{
    match slot_format_exec(format_table, num) {
        Some(f) => {
            return (Some(format_of(loaded, &f, CellFormatKind::Number)), false);
        },
        None => {},
    }
    match slot_format_exec(format_table, currency) {
        Some(f) => {
            return (Some(format_of(loaded, &f, CellFormatKind::Currency)), false);
        },
        None => {},
    }
    match slot_format_exec(format_table, date) {
        Some(f) => {
            return (Some(format_of(loaded, &f, CellFormatKind::Date)), false);
        },
        None => {},
    }
    match slot_format_exec(format_table, duration) {
        Some(f) => {
            return (Some(format_of(loaded, &f, CellFormatKind::Duration)), false);
        },
        None => {},
    }
    match slot_format_exec(format_table, text) {
        Some(f) => {
            return (Some(format_of(loaded, &f, CellFormatKind::Text)), false);
        },
        None => {},
    }
    let c = match first_custom_exec(custom_format_table) {
        Some(cf) => {
            proof {
                lemma_vall(cf.fields@, 3);
            }
            Some(CellFormat {
                kind: CellFormatKind::Custom,
                decimals: None,
                currency_code: None,
                grouping: None,
                accounting: None,
                format_string: match cf.msg(3) {
                    Some(df) => string_of(&df, 18),
                    None => None,
                },
                name: None,
            })
        },
        None => None,
    };
    (c, false)
}

} // verus!

verus! {

/// The kind of a format type in older (version 3 and 4) cell storage,
/// where every other type is a plain number.
pub open spec fn legacy_kind(ft: u64) -> CellFormatKind {
    if ft == 257 {
        CellFormatKind::Currency
    } else if ft == 258 {
        CellFormatKind::Percent
    } else if ft == 261 {
        CellFormatKind::Date
    } else if ft == 268 {
        CellFormatKind::Duration
    } else if ft == 260 {
        CellFormatKind::Text
    } else {
        CellFormatKind::Number
    }
}

/// The cell format of a format struct in older cell storage: its pattern
/// (field 18), else its date-time format (field 14) when not empty; with
/// `durations`, else the duration marker of duration formats.
pub open spec fn legacy_format_spec(f: Seq<(u32, WireSpec)>, durations: bool) -> CellFormatView {
    CellFormatView {
        kind: legacy_kind(or_default(vvarint(f, 1), 0)),
        decimals: decimals_of(vvarint(f, 2)),
        currency_code: vstring(f, 3),
        grouping: bool_of(f, 5),
        accounting: None,
        format_string: or_else(
            vstring(f, 18),
            or_else(
                nonempty(vstring(f, 14)),
                if durations && vvarint(f, 1) == Some(268u64) {
                    Some(duration_marker(f))
                } else {
                    None
                },
            ),
        ),
        name: None,
    }
}

fn legacy_format(f: &Msg, durations: bool) -> (r: CellFormat)
    ensures
        format_view(r) == legacy_format_spec(fields_view(f.fields@), durations),
{
    proof {
        lemma_vall(f.fields@, 1);
        lemma_vall(f.fields@, 2);
        lemma_vall(f.fields@, 5);
    }
    let ft = match f.varint(1) {
        Some(x) => x,
        None => 0,
    };
    let kind = if ft == 257 {
        CellFormatKind::Currency
    } else if ft == 258 {
        CellFormatKind::Percent
    } else if ft == 261 {
        CellFormatKind::Date
    } else if ft == 268 {
        CellFormatKind::Duration
    } else if ft == 260 {
        CellFormatKind::Text
    } else {
        CellFormatKind::Number
    };
    let decimals = match f.varint(2) {
        Some(d) => if d <= 20 {
            Some(d as u32)
        } else {
            None
        },
        None => None,
    };
    let mut s = string_of(f, 18);
    if s.is_none() {
        s = nonempty_string(string_of(f, 14));
    }
    if s.is_none() && durations && f.varint(1) == Some(268u64) {
        s = marker_exec(f);
    }
    CellFormat {
        kind,
        decimals,
        currency_code: string_of(f, 3),
        grouping: f.boolean(5),
        accounting: None,
        format_string: s,
        name: None,
    }
}

/// The format of a version 3 cell: its format key's entry in the format
/// list.
pub fn v3_format(format_table: &DataList, format_id: Option<i32>) -> (r: Option<CellFormat>)
    ensures
        opt_format_view(r) == match slot_format(data_list_view(*format_table), format_id) {
            Some(f) => Some(legacy_format_spec(f, false)),
            None => None,
        },
{
    match slot_format_exec(format_table, format_id) {
        Some(f) => Some(legacy_format(&f, false)),
        None => None,
    }
}

/// The format of a version 4 number, date or duration cell: its format
/// key's entry in the format list, durations marked.
pub fn v4_format(format_table: &DataList, fmt_key: Option<i32>) -> (r: Option<CellFormat>)
    ensures
        opt_format_view(r) == match slot_format(data_list_view(*format_table), fmt_key) {
            Some(f) => Some(legacy_format_spec(f, true)),
            None => None,
        },
{
    match slot_format_exec(format_table, fmt_key) {
        Some(f) => Some(legacy_format(&f, true)),
        None => None,
    }
}

/// The first key, in order, that the list holds.
pub open spec fn first_listed(keys: Seq<i32>, fl: Map<i32, ListEntryView>) -> Option<i32>
    decreases keys.len(),
{
    if keys.len() == 0 {
        None
    } else if fl.contains_key(keys[0]) {
        Some(keys[0])
    } else {
        first_listed(keys.drop_first(), fl)
    }
}

/// The format key of a version 4 cell: the leading key when the format
/// list holds it, else the first trailing key it holds, else the leading
/// key, else the first trailing key.
pub open spec fn v4_key_spec(lead: Option<i32>, trailing: Seq<i32>, fl: Map<i32, ListEntryView>) -> Option<i32> {
    if lead matches Some(k) && fl.contains_key(k) {
        lead
    } else if first_listed(trailing, fl) is Some {
        first_listed(trailing, fl)
    } else if lead is Some {
        lead
    } else if trailing.len() > 0 {
        Some(trailing[0])
    } else {
        None
    }
}

/// The format key of a version 4 cell (see `v4_key_spec`).
pub fn v4_format_key(lead: Option<i32>, trailing: &Vec<i32>, format_table: &DataList) -> (r: Option<i32>)
    ensures
        r == v4_key_spec(lead, trailing@, data_list_view(*format_table)),
{
    let ghost fl = data_list_view(*format_table);
    match lead {
        Some(k) => {
            if format_table.entries.contains_key(&k) {
                return lead;
            }
        },
        None => {},
    }
    let mut i: usize = 0;
    assert(trailing@.subrange(0, trailing@.len() as int) =~= trailing@);
    while i < trailing.len()
        invariant
            i <= trailing@.len(),
            fl == data_list_view(*format_table),
            !(lead matches Some(k) && fl.contains_key(k)),
            first_listed(trailing@, fl) == first_listed(trailing@.subrange(i as int, trailing@.len() as int), fl),
        decreases trailing@.len() - i,
    {
        proof {
            let rest = trailing@.subrange(i as int, trailing@.len() as int);
            assert(rest[0] == trailing@[i as int]);
            assert(rest.drop_first() =~= trailing@.subrange(i + 1, trailing@.len() as int));
        }
        if format_table.entries.contains_key(&trailing[i]) {
            return Some(trailing[i]);
        }
        i = i + 1;
    }
    if lead.is_some() {
        lead
    } else if trailing.len() > 0 {
        Some(trailing[0])
    } else {
        None
    }
}

/// Whether a format type is one whose kind the type itself names:
/// currency (257), percent (258), text (260), date (261), duration (268).
pub open spec fn typed_kind(t: u64) -> bool {
    t == 257 || t == 258 || t == 260 || t == 261 || t == 268
}

/// A format's own type decides its kind, whatever slot it was found
/// through: type 257 gives currency, 258 percent, 260 text, 261 date, 268
/// duration and 270–274 custom, so two lookups of such a format through
/// different slots agree; any other type takes the slot's kind. Older
/// (version 3 and 4) storage reads those five types the same way and
/// every other type as a plain number.
pub proof fn lemma_format_type_decides_kind(
    f: Seq<(u32, WireSpec)>,
    slot: CellFormatKind,
    other: CellFormatKind,
    pattern: Option<Seq<char>>,
    other_pattern: Option<Seq<char>>,
    durations: bool,
)
    ensures
        vvarint(f, 1) == Some(257u64) ==> format_spec(f, slot, pattern).kind == CellFormatKind::Currency,
        vvarint(f, 1) == Some(258u64) ==> format_spec(f, slot, pattern).kind == CellFormatKind::Percent,
        vvarint(f, 1) == Some(260u64) ==> format_spec(f, slot, pattern).kind == CellFormatKind::Text,
        vvarint(f, 1) == Some(261u64) ==> format_spec(f, slot, pattern).kind == CellFormatKind::Date,
        vvarint(f, 1) == Some(268u64) ==> format_spec(f, slot, pattern).kind == CellFormatKind::Duration,
        custom_kind(vvarint(f, 1)) ==> format_spec(f, slot, pattern).kind == CellFormatKind::Custom,
        (vvarint(f, 1) matches Some(t) && (typed_kind(t) || 270 <= t <= 274)) ==> format_spec(f, slot, pattern).kind
            == format_spec(f, other, other_pattern).kind,
        !(vvarint(f, 1) matches Some(t) && (typed_kind(t) || 270 <= t <= 274)) ==> format_spec(f, slot, pattern).kind
            == slot,
        legacy_format_spec(f, durations).kind == if vvarint(f, 1) matches Some(t) && typed_kind(t) {
            format_spec(f, slot, pattern).kind
        } else {
            CellFormatKind::Number
        },
{
}

} // verus!
