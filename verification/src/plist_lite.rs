//! Minimal property-list reader for the two metadata files an iWork document
//! carries: `Metadata/Properties.plist` (a binary plist: a dictionary of
//! strings, UUIDs and booleans) and `Metadata/BuildVersionHistory.plist`
//! (XML: an array of strings).
//!
//! Coverage: every value kind the binary format defines is walked (so a
//! dictionary containing a date or a data blob still parses); the XML side
//! reads `array`, `dict`, `key`, `string`, `integer`, `real`, `true`,
//! `false`, `date` and `data`. Anything malformed returns `Err` with a short
//! reason.
//!
//! Binary layout: `bplist00` header, objects, an offset table, and a 32-byte
//! trailer that holds the offset-int size, the object-ref size, the object
//! count, the top object index and the offset-table position.
//!
//! The whole reader is specified by the spec functions of this module:
//! `spec_parse` is the meaning of a byte string, and `parse` returns exactly
//! it, error messages included.
use vstd::prelude::*;
use vstd::utf8::*;
use vstd::slice::slice_subrange;
use crate::text_util::{utf16_lossy, push_char, push_str, str_from_utf8, char_from_u32, string_from_utf16_lossy, chars_of, owned, str_eq};

verus! {

broadcast use vstd::utf8::group_utf8_lib;

// ---------------------------------------------------------------------------
// Value model
// ---------------------------------------------------------------------------

/// The mathematical meaning of a plist value.
pub enum PValue {
    Str(Seq<char>),
    Int(i64),
    Bool(bool),
    Array(Seq<PValue>),
    Dict(Map<Seq<char>, PValue>),
    Other,
}

#[derive(Debug, PartialEq)]
pub enum Value {
    String(String),
    Integer(i64),
    Bool(bool),
    Array(Vec<Value>),
    Dict(Dict),
    /// A real, date, data blob, UID or set: walked but not represented.
    Other,
}

/// A dictionary with string keys, kept in ascending byte order of the keys
/// with no key twice (the order and uniqueness of a `BTreeMap<String, _>`).
#[derive(Debug, PartialEq)]
pub struct Dict {
    entries: Vec<(String, Value)>,
}

pub open spec fn view_value(v: Value) -> PValue
    decreases v,
{
    match v {
        Value::String(s) => PValue::Str(s@),
        Value::Integer(n) => PValue::Int(n),
        Value::Bool(b) => PValue::Bool(b),
        Value::Array(a) => PValue::Array(
            Seq::new(
                a@.len(),
                |i: int|
                    if 0 <= i < a@.len() {
                        view_value(a@[i])
                    } else {
                        PValue::Other
                    },
            ),
        ),
        Value::Dict(d) => PValue::Dict(d.map()),
        Value::Other => PValue::Other,
    }
}

/// The map a list of entries stands for (a later entry overrides an earlier
/// one with the same key).
pub open spec fn view_entries(s: Seq<(String, Value)>) -> Map<Seq<char>, PValue>
    decreases s,
{
    if s.len() == 0 {
        Map::empty()
    } else {
        view_entries(s.drop_last()).insert(s.last().0@, view_value(s.last().1))
    }
}

/// Strict lexicographic order on byte strings (the order of `str`).
pub open spec fn bytes_lt(a: Seq<u8>, b: Seq<u8>) -> bool
    decreases a.len(),
{
    if a.len() == 0 {
        b.len() > 0
    } else if b.len() == 0 {
        false
    } else if a[0] != b[0] {
        a[0] < b[0]
    } else {
        bytes_lt(a.drop_first(), b.drop_first())
    }
}

pub open spec fn key_bytes<V>(e: (String, V)) -> Seq<u8> {
    encode_utf8(e.0@)
}

/// Keys strictly ascending in byte order.
pub open spec fn entries_sorted<V>(s: Seq<(String, V)>) -> bool {
    forall|i: int, j: int|
        0 <= i < j < s.len() ==> bytes_lt(#[trigger] key_bytes(s[i]), #[trigger] key_bytes(s[j]))
}

/// Every dictionary inside the value keeps its keys sorted and unique.
pub open spec fn value_wf(v: Value) -> bool
    decreases v,
{
    match v {
        Value::Array(a) => forall|i: int| 0 <= i < a@.len() ==> value_wf(#[trigger] a@[i]),
        Value::Dict(d) => d.deep_wf(),
        _ => true,
    }
}

impl View for Value {
    type V = PValue;

    open spec fn view(&self) -> PValue {
        view_value(*self)
    }
}


impl Value {
    pub fn as_string(&self) -> (r: Option<&str>)
        ensures
            match view_value(*self) {
                PValue::Str(s) => r matches Some(x) && x@ == s,
                _ => r is None,
            },
    {
        match self {
            Value::String(s) => Some(s.as_str()),
            _ => None,
        }
    }

    pub fn as_array(&self) -> (r: Option<&[Value]>)
        ensures
            match view_value(*self) {
                PValue::Array(items) => r matches Some(x) && views(x@) == items,
                _ => r is None,
            },
    {
        match self {
            Value::Array(a) => {
                proof {
                    lemma_array_view(*a);
                }
                Some(a.as_slice())
            },
            _ => None,
        }
    }

    pub fn as_dict(&self) -> (r: Option<&Dict>)
        ensures
            match view_value(*self) {
                PValue::Dict(m) => r matches Some(d) && d.map() == m,
                _ => r is None,
            },
    {
        match self {
            Value::Dict(d) => Some(d),
            _ => None,
        }
    }
}

impl Dict {
    pub closed spec fn map(&self) -> Map<Seq<char>, PValue>
        decreases self,
    {
        view_entries(self.entries@)
    }

    /// Sorted unique keys here and in every nested dictionary.
    pub closed spec fn deep_wf(&self) -> bool
        decreases self,
    {
        entries_sorted(self.entries@) && forall|i: int|
            0 <= i < self.entries@.len() ==> value_wf(#[trigger] self.entries@[i].1)
    }

    pub closed spec fn wf(&self) -> bool {
        entries_sorted(self.entries@)
    }

    pub open spec fn spec_len(&self) -> nat {
        self.map().dom().len()
    }

    fn new() -> (d: Dict)
        ensures
            d.entries@ == Seq::<(String, Value)>::empty(),
    {
        Dict { entries: Vec::new() }
    }

    /// The value stored under `key`.
    pub fn get(&self, key: &str) -> (r: Option<&Value>)
        ensures
            match r {
                Some(v) => self.map().contains_key(key@) && self.map()[key@] == view_value(*v),
                None => !self.map().contains_key(key@),
            },
    {
        let kb = key.as_bytes();
        let mut i = self.entries.len();
        while i > 0
            invariant
                i <= self.entries@.len(),
                kb@ == encode_utf8(key@),
                forall|j: int| i <= j < self.entries@.len() ==> self.entries@[j].0@ != key@,
            decreases i,
        {
            i = i - 1;
            if bytes_eq(self.entries[i].0.as_str().as_bytes(), kb) {
                proof {
                    lemma_encode_injective(self.entries@[i as int].0@, key@);
                    lemma_view_entries_last(self.entries@, i as int);
                }
                return Some(&self.entries[i].1);
            }
            proof {
                lemma_encode_injective(self.entries@[i as int].0@, key@);
            }
        }
        proof {
            lemma_view_entries_keys(self.entries@);
            assert(!has_key(self.entries@, key@));
            assert(self.map() == view_entries(self.entries@));
        }
        None
    }

    /// Number of keys.
    pub fn len(&self) -> (n: usize)
        requires
            self.wf(),
        ensures
            n == self.spec_len(),
    {
        proof {
            lemma_sorted_distinct(self.entries@);
            lemma_view_entries_len(self.entries@);
        }
        self.entries.len()
    }

    /// Insert or replace, keeping the keys sorted.
    fn insert(&mut self, key: String, val: Value)
        requires
            old(self).deep_wf(),
            value_wf(val),
        ensures
            final(self).deep_wf(),
            final(self).map() == old(self).map().insert(key@, view_value(val)),
    {
        let ghost old_s = self.entries@;
        let ghost kb = encode_utf8(key@);
        let mut i: usize = 0;
        let n = self.entries.len();
        while i < n
            invariant
                n == self.entries@.len(),
                self.entries@ == old_s,
                old_s == old(self).entries@,
                entries_sorted(old_s),
                forall|x: int| 0 <= x < old_s.len() ==> value_wf(#[trigger] old_s[x].1),
                value_wf(val),
                i <= n,
                kb == encode_utf8(key@),
                forall|j: int| 0 <= j < i ==> bytes_lt(#[trigger] key_bytes(old_s[j]), kb),
            decreases n - i,
        {
            let c = compare_bytes(self.entries[i].0.as_str().as_bytes(), key.as_str().as_bytes());
            if c == 0 {
                proof {
                    lemma_encode_injective(old_s[i as int].0@, key@);
                }
                let k = key;
                self.entries.set(i, (k, val));
                proof {
                    let s = self.entries@;
                    assert(s == old_s.update(i as int, (key, val)));
                    assert forall|a: int, b: int| 0 <= a < b < s.len() implies bytes_lt(
                        #[trigger] key_bytes(s[a]),
                        #[trigger] key_bytes(s[b]),
                    ) by {
                        assert(key_bytes(s[a]) == key_bytes(old_s[a]));
                        assert(key_bytes(s[b]) == key_bytes(old_s[b]));
                    }
                    lemma_sorted_distinct(old_s);
                    lemma_replace_map(old_s, i as int, (key, val));
                    assert(self.map() == view_entries(s));
                    assert(old(self).map() == view_entries(old_s));
                    assert forall|x: int| 0 <= x < s.len() implies value_wf(#[trigger] s[x].1) by {
                        if x != i {
                            assert(s[x] == old_s[x]);
                            assert(value_wf(old_s[x].1));
                        }
                    }
                }
                return;
            }
            if c > 0 {
                proof {
                    lemma_encode_injective(old_s[i as int].0@, key@);
                    lemma_sorted_distinct(old_s);
                }
                self.entries.insert(i, (key, val));
                proof {
                    let s = self.entries@;
                    assert(s == old_s.insert(i as int, (key, val)));
                    lemma_insert_sorted(old_s, i as int, (key, val));
                    lemma_insert_map(old_s, i as int, (key, val));
                    assert(self.map() == view_entries(s));
                    assert(old(self).map() == view_entries(old_s));
                    assert forall|x: int| 0 <= x < s.len() implies value_wf(#[trigger] s[x].1) by {
                        if x < i {
                            assert(s[x] == old_s[x]);
                            assert(value_wf(old_s[x].1));
                        } else if x > i {
                            assert(s[x] == old_s[x - 1]);
                            assert(value_wf(old_s[x - 1].1));
                        }
                    }
                }
                return;
            }
            i = i + 1;
        }
        proof {
            lemma_sorted_distinct(old_s);
        }
        self.entries.push((key, val));
        proof {
            let s = self.entries@;
            lemma_insert_sorted(old_s, n as int, (key, val));
            lemma_insert_map(old_s, n as int, (key, val));
            assert(s == old_s.insert(n as int, (key, val)));
            assert(self.map() == view_entries(s));
            assert(old(self).map() == view_entries(old_s));
            assert forall|x: int| 0 <= x < s.len() implies value_wf(#[trigger] s[x].1) by {
                if x < n {
                    assert(s[x] == old_s[x]);
                    assert(value_wf(old_s[x].1));
                }
            }
        }
    }
}


// ---------------------------------------------------------------------------
// Binary format: meaning
// ---------------------------------------------------------------------------

pub const MAX_DEPTH: usize = 32;

/// Big-endian unsigned value of a byte string.
pub open spec fn be_value(s: Seq<u8>) -> nat
    decreases s.len(),
{
    if s.len() == 0 {
        0
    } else {
        be_value(s.drop_last()) * 256 + s.last() as nat
    }
}

/// The big-endian value of `n` bytes at `at`.
pub open spec fn be_at(b: Seq<u8>, at: int, n: int) -> nat {
    be_value(b.subrange(at, at + n))
}

/// A stored 64-bit quantity taken as a `usize` (the platform's cast).
pub open spec fn as_index(x: nat) -> int {
    ((x as u64) as usize) as int
}

/// The trailer fields of a binary plist.
pub struct Hdr {
    pub offset_size: int,
    pub ref_size: int,
    pub count: int,
    pub top: int,
    pub table: int,
}

/// The trailer of `b`, or why it is refused.
pub open spec fn spec_header(b: Seq<u8>) -> Result<Hdr, Seq<char>> {
    if b.len() < 40 {
        Err("binary plist too short"@)
    } else {
        let t = b.len() - 32;
        let h = Hdr {
            offset_size: b[t + 6] as int,
            ref_size: b[t + 7] as int,
            count: as_index(be_at(b, t + 8, 8)),
            top: as_index(be_at(b, t + 16, 8)),
            table: as_index(be_at(b, t + 24, 8)),
        };
        if !(1 <= h.offset_size <= 8) || !(1 <= h.ref_size <= 8) {
            Err("binary plist: bad trailer sizes"@)
        } else if h.top >= h.count || h.table + h.count * h.offset_size > b.len() - 32 {
            Err("binary plist: bad trailer"@)
        } else {
            Ok(h)
        }
    }
}

/// Position of object `index`, read from the offset table.
pub open spec fn spec_offset_of(b: Seq<u8>, h: Hdr, index: int) -> Result<int, Seq<char>> {
    if index >= h.count {
        Err("binary plist: object index out of range"@)
    } else {
        let off = as_index(be_at(b, h.table + index * h.offset_size, h.offset_size));
        if off >= b.len() - 32 {
            Err("binary plist: object offset out of range"@)
        } else {
            Ok(off)
        }
    }
}

/// Whether `n` bytes at `at` lie inside the file.
pub open spec fn spec_take(b: Seq<u8>, at: int, n: int) -> Result<(), Seq<char>> {
    if at + n > usize::MAX {
        Err("binary plist: length overflow"@)
    } else if at + n > b.len() {
        Err("binary plist: object runs past the file"@)
    } else {
        Ok(())
    }
}

/// `2^k` as the format computes it.
pub open spec fn shl1(k: u8) -> int {
    (1u32 << (k as u32)) as int
}

/// Element count of a container or string, and where its payload starts:
/// the marker's low nibble, or, when that is 0xF, an integer object that
/// follows the marker.
pub open spec fn spec_count_after(b: Seq<u8>, at: int, info: u8) -> Result<(int, int), Seq<char>> {
    if info != 0x0F {
        Ok((info as int, at + 1))
    } else {
        match spec_take(b, at + 1, 1) {
            Err(e) => Err(e),
            Ok(_) => {
                let m = b[at + 1];
                if m / 16 != 1 {
                    Err("binary plist: count is not an integer"@)
                } else {
                    let n = shl1(m % 16);
                    if n > 8 {
                        Err("binary plist: count too wide"@)
                    } else {
                        match spec_take(b, at + 2, n) {
                            Err(e) => Err(e),
                            Ok(_) => Ok((as_index(be_at(b, at + 2, n)), at + 2 + n)),
                        }
                    }
                }
            },
        }
    }
}

/// One character per byte (ASCII strings).
pub open spec fn latin1(s: Seq<u8>) -> Seq<char> {
    Seq::new(s.len(), |i: int| s[i] as char)
}

/// `n` big-endian UTF-16 code units at `p`.
pub open spec fn units_at(b: Seq<u8>, p: int, n: int) -> Seq<u16> {
    Seq::new(n as nat, |k: int| (b[p + 2 * k] * 256 + b[p + 2 * k + 1]) as u16)
}

pub open spec fn hex_digit(d: u8) -> char {
    if d < 10 {
        (48 + d) as char
    } else {
        (87 + d) as char
    }
}

/// Two lowercase hex digits.
pub open spec fn hex2(x: u8) -> Seq<char> {
    seq![hex_digit(x / 16), hex_digit(x % 16)]
}

/// The object at `index`, read at nesting `depth`.
pub open spec fn spec_object(b: Seq<u8>, h: Hdr, index: int, depth: int) -> Result<
    PValue,
    Seq<char>,
>
    decreases 33 - depth, 2int,
{
    if depth > MAX_DEPTH {
        Err("binary plist: nesting too deep"@)
    } else {
        match spec_offset_of(b, h, index) {
            Err(e) => Err(e),
            Ok(at) => {
                let kind = b[at] / 16;
                if kind == 0xA || kind == 0xC || kind == 0xD {
                    spec_container(b, h, at, depth)
                } else {
                    spec_scalar(b, at)
                }
            },
        }
    }
}

/// A non-container object at `at`.
pub open spec fn spec_scalar(b: Seq<u8>, at: int) -> Result<PValue, Seq<char>> {
    let marker = b[at];
    let kind = marker / 16;
    let info = marker % 16;
    if kind == 0x0 {
        Ok(
            if info == 0x8 {
                PValue::Bool(false)
            } else if info == 0x9 {
                PValue::Bool(true)
            } else {
                PValue::Other
            },
        )
    } else if kind == 0x1 {
        let n = shl1(info);
        if n > 16 {
            Err("binary plist: integer too wide"@)
        } else {
            match spec_take(b, at + 1, n) {
                Err(e) => Err(e),
                Ok(_) => {
                    let low = min8(n);
                    Ok(PValue::Int((be_at(b, at + 1 + n - low, low) as u64) as i64))
                },
            }
        }
    } else if kind == 0x2 {
        match spec_take(b, at + 1, shl1(info)) {
            Err(e) => Err(e),
            Ok(_) => Ok(PValue::Other),
        }
    } else if kind == 0x3 {
        match spec_take(b, at + 1, 8) {
            Err(e) => Err(e),
            Ok(_) => Ok(PValue::Other),
        }
    } else if kind == 0x4 || kind == 0x5 {
        match spec_count_after(b, at, info) {
            Err(e) => Err(e),
            Ok((n, p)) => match spec_take(b, p, n) {
                Err(e) => Err(e),
                Ok(_) => Ok(
                    if kind == 0x4 {
                        PValue::Other
                    } else {
                        PValue::Str(latin1(b.subrange(p, p + n)))
                    },
                ),
            },
        }
    } else if kind == 0x6 {
        match spec_count_after(b, at, info) {
            Err(e) => Err(e),
            Ok((n, p)) => if n * 2 > usize::MAX {
                Err("binary plist: string too long"@)
            } else {
                match spec_take(b, p, n * 2) {
                    Err(e) => Err(e),
                    Ok(_) => Ok(PValue::Str(utf16_lossy(units_at(b, p, n)))),
                }
            },
        }
    } else if kind == 0x8 {
        match spec_take(b, at + 1, info + 1) {
            Err(e) => Err(e),
            Ok(_) => Ok(PValue::Other),
        }
    } else {
        Err("binary plist: unknown marker 0x"@ + hex2(marker))
    }
}

/// An array (0xA), set (0xC) or dictionary (0xD) object at `at`; its
/// members are read at `depth + 1`.
pub open spec fn spec_container(b: Seq<u8>, h: Hdr, at: int, depth: int) -> Result<
    PValue,
    Seq<char>,
>
    decreases 33 - depth, 1int,
{
    let marker = b[at];
    let kind = marker / 16;
    let info = marker % 16;
    if depth > MAX_DEPTH {
        Err("binary plist: nesting too deep"@)
    } else if kind == 0xA || kind == 0xC {
        match spec_count_after(b, at, info) {
            Err(e) => Err(e),
            Ok((n, p)) => if n * h.ref_size > usize::MAX {
                Err("binary plist: array too long"@)
            } else {
                match spec_take(b, p, n * h.ref_size) {
                    Err(e) => Err(e),
                    Ok(_) => match spec_list(b, h, p, n, 0, depth + 1, Seq::empty()) {
                        Err(e) => Err(e),
                        Ok(items) => Ok(
                            if kind == 0xA {
                                PValue::Array(items)
                            } else {
                                PValue::Other
                            },
                        ),
                    },
                }
            },
        }
    } else {
        match spec_count_after(b, at, info) {
            Err(e) => Err(e),
            Ok((n, p)) => if n * h.ref_size > usize::MAX {
                Err("binary plist: dict too long"@)
            } else {
                let span = n * h.ref_size;
                match spec_take(b, p, span) {
                    Err(e) => Err(e),
                    Ok(_) => match spec_take(b, p + span, span) {
                        Err(e) => Err(e),
                        Ok(_) => match spec_dict(b, h, p, p + span, n, 0, depth + 1, Map::empty()) {
                            Err(e) => Err(e),
                            Ok(m) => Ok(PValue::Dict(m)),
                        },
                    },
                }
            },
        }
    }
}

/// The object referenced by ref number `i` of a table at `p`.
pub open spec fn ref_at(b: Seq<u8>, h: Hdr, p: int, i: int) -> int {
    as_index(be_at(b, p + i * h.ref_size, h.ref_size))
}

/// Array elements `i..n` appended to `acc`, read in order.
pub open spec fn spec_list(
    b: Seq<u8>,
    h: Hdr,
    p: int,
    n: int,
    i: int,
    depth: int,
    acc: Seq<PValue>,
) -> Result<Seq<PValue>, Seq<char>>
    decreases 33 - depth, n - i + 2,
{
    if i >= n {
        Ok(acc)
    } else {
        match spec_object(b, h, ref_at(b, h, p, i), depth) {
            Err(e) => Err(e),
            Ok(v) => spec_list(b, h, p, n, i + 1, depth, acc.push(v)),
        }
    }
}

/// Dictionary pairs `i..n` (keys at `kp`, values at `vp`) inserted into
/// `acc`, each key read before its value.
pub open spec fn spec_dict(
    b: Seq<u8>,
    h: Hdr,
    kp: int,
    vp: int,
    n: int,
    i: int,
    depth: int,
    acc: Map<Seq<char>, PValue>,
) -> Result<Map<Seq<char>, PValue>, Seq<char>>
    decreases 33 - depth, n - i + 2,
{
    if i >= n {
        Ok(acc)
    } else {
        match spec_object(b, h, ref_at(b, h, kp, i), depth) {
            Err(e) => Err(e),
            Ok(PValue::Str(k)) => match spec_object(b, h, ref_at(b, h, vp, i), depth) {
                Err(e) => Err(e),
                Ok(v) => spec_dict(b, h, kp, vp, n, i + 1, depth, acc.insert(k, v)),
            },
            Ok(_) => Err("binary plist: non-string dictionary key"@),
        }
    }
}

/// The meaning of a binary plist: its top object.
pub open spec fn spec_binary(b: Seq<u8>) -> Result<PValue, Seq<char>> {
    match spec_header(b) {
        Err(e) => Err(e),
        Ok(h) => spec_object(b, h, h.top, 0),
    }
}


// ---------------------------------------------------------------------------
// XML format: meaning
// ---------------------------------------------------------------------------

/// ASCII whitespace: space, tab, line feed, form feed, carriage return.
pub open spec fn is_ws(c: u8) -> bool {
    c == 0x20 || c == 0x09 || c == 0x0A || c == 0x0C || c == 0x0D
}

/// `pat` occurs at `i`.
pub open spec fn at_pat(s: Seq<u8>, i: int, pat: Seq<u8>) -> bool {
    0 <= i && i + pat.len() <= s.len() && s.subrange(i, i + pat.len()) == pat
}

/// First occurrence of `pat` at or after `from`.
pub open spec fn find_spec(s: Seq<u8>, from: int, pat: Seq<u8>) -> Option<int>
    decreases s.len() - from,
{
    if from < 0 || from >= s.len() || from + pat.len() > s.len() {
        None
    } else if at_pat(s, from, pat) {
        Some(from)
    } else {
        find_spec(s, from + 1, pat)
    }
}

pub proof fn lemma_find_spec(s: Seq<u8>, from: int, pat: Seq<u8>)
    ensures
        find_spec(s, from, pat) matches Some(p) ==> from <= p && p + pat.len() <= s.len() && at_pat(
            s,
            p,
            pat,
        ),
    decreases s.len() - from,
{
    if !(from < 0 || from >= s.len() || from + pat.len() > s.len()) && !at_pat(s, from, pat) {
        lemma_find_spec(s, from + 1, pat);
    }
}

/// `<?`
pub open spec fn pat_pi_open() -> Seq<u8> {
    seq![0x3Cu8, 0x3F]
}

/// `?>`
pub open spec fn pat_pi_close() -> Seq<u8> {
    seq![0x3Fu8, 0x3E]
}

/// `<!--`
pub open spec fn pat_comment_open() -> Seq<u8> {
    seq![0x3Cu8, 0x21, 0x2D, 0x2D]
}

/// `-->`
pub open spec fn pat_comment_close() -> Seq<u8> {
    seq![0x2Du8, 0x2D, 0x3E]
}

/// `<!`
pub open spec fn pat_decl_open() -> Seq<u8> {
    seq![0x3Cu8, 0x21]
}

/// `>`
pub open spec fn pat_gt() -> Seq<u8> {
    seq![0x3Eu8]
}

/// `<`
pub open spec fn pat_lt() -> Seq<u8> {
    seq![0x3Cu8]
}

/// `</`
pub open spec fn pat_close_open() -> Seq<u8> {
    seq![0x3Cu8, 0x2F]
}

/// The UTF-8 byte-order mark.
pub open spec fn pat_bom() -> Seq<u8> {
    seq![0xEFu8, 0xBB, 0xBF]
}

/// `bplist0`
pub open spec fn pat_bplist() -> Seq<u8> {
    seq![0x62u8, 0x70, 0x6C, 0x69, 0x73, 0x74, 0x30]
}

/// `plist`
pub open spec fn pat_plist_name() -> Seq<u8> {
    seq![0x70u8, 0x6C, 0x69, 0x73, 0x74]
}

/// First position at or after `i` that is not ASCII whitespace.
pub open spec fn skip_ws_spec(s: Seq<u8>, i: int) -> int
    decreases s.len() - i,
{
    if 0 <= i < s.len() && is_ws(s[i]) {
        skip_ws_spec(s, i + 1)
    } else {
        i
    }
}

pub proof fn lemma_skip_ws(s: Seq<u8>, i: int)
    requires
        0 <= i <= s.len(),
    ensures
        i <= skip_ws_spec(s, i) <= s.len(),
    decreases s.len() - i,
{
    if 0 <= i < s.len() && is_ws(s[i]) {
        lemma_skip_ws(s, i + 1);
    }
}

/// Where a construct that starts with `open` at `j` ends: just past the
/// first `close` after `j`, or the end of the input.
pub open spec fn past(s: Seq<u8>, j: int, close: Seq<u8>) -> int {
    match find_spec(s, j, close) {
        Some(p) => p + close.len(),
        None => s.len() as int,
    }
}

/// Skip whitespace, the XML declaration, DOCTYPE and comments.
pub open spec fn skip_misc_spec(s: Seq<u8>, i: int) -> int
    decreases s.len() - i,
{
    if !(0 <= i <= s.len()) {
        i
    } else {
        let j = skip_ws_spec(s, i);
        proof {
            lemma_skip_ws(s, i);
            lemma_find_spec(s, j, pat_pi_close());
            lemma_find_spec(s, j, pat_comment_close());
            lemma_find_spec(s, j, pat_gt());
        }
        if at_pat(s, j, pat_pi_open()) {
            skip_misc_spec(s, past(s, j, pat_pi_close()))
        } else if at_pat(s, j, pat_comment_open()) {
            skip_misc_spec(s, past(s, j, pat_comment_close()))
        } else if at_pat(s, j, pat_decl_open()) {
            skip_misc_spec(s, past(s, j, pat_gt()))
        } else {
            j
        }
    }
}

pub proof fn lemma_skip_misc(s: Seq<u8>, i: int)
    requires
        0 <= i <= s.len(),
    ensures
        i <= skip_misc_spec(s, i) <= s.len(),
    decreases s.len() - i,
{
    let j = skip_ws_spec(s, i);
    lemma_skip_ws(s, i);
    lemma_find_spec(s, j, pat_pi_close());
    lemma_find_spec(s, j, pat_comment_close());
    lemma_find_spec(s, j, pat_gt());
    if at_pat(s, j, pat_pi_open()) {
        lemma_skip_misc(s, past(s, j, pat_pi_close()));
    } else if at_pat(s, j, pat_comment_open()) {
        lemma_skip_misc(s, past(s, j, pat_comment_close()));
    } else if at_pat(s, j, pat_decl_open()) {
        lemma_skip_misc(s, past(s, j, pat_gt()));
    }
}

/// `<name` followed by a space, `>`, `/`, newline or tab at `i`.
pub open spec fn open_tag_is_spec(s: Seq<u8>, i: int, name: Seq<u8>) -> bool {
    &&& at_pat(s, i, pat_lt())
    &&& at_pat(s, i + 1, name)
    &&& i + 1 + name.len() < s.len()
    &&& {
        let c = s[i + 1 + name.len()];
        c == 0x20 || c == 0x3E || c == 0x2F || c == 0x0A || c == 0x09
    }
}

/// First `>`, `/` or whitespace at or after `k`.
pub open spec fn name_end(s: Seq<u8>, k: int) -> Option<int>
    decreases s.len() - k,
{
    if k < 0 || k >= s.len() {
        None
    } else if s[k] == 0x3E || s[k] == 0x2F || is_ws(s[k]) {
        Some(k)
    } else {
        name_end(s, k + 1)
    }
}

pub proof fn lemma_name_end(s: Seq<u8>, k: int)
    ensures
        name_end(s, k) matches Some(e) ==> k <= e < s.len(),
    decreases s.len() - k,
{
    if !(k < 0 || k >= s.len()) && !(s[k] == 0x3E || s[k] == 0x2F || is_ws(s[k])) {
        lemma_name_end(s, k + 1);
    }
}

/// The tag name at `i` (after `<` or `</`), when it is well-formed UTF-8.
pub open spec fn tag_name_spec(s: Seq<u8>, i: int) -> Option<Seq<char>> {
    if !at_pat(s, i, pat_lt()) {
        None
    } else {
        let start = if at_pat(s, i, pat_close_open()) {
            2int
        } else {
            1int
        };
        match name_end(s, i + start) {
            None => None,
            Some(e) => {
                let raw = s.subrange(i + start, e);
                if valid_utf8(raw) {
                    Some(decode_utf8(raw))
                } else {
                    None
                }
            },
        }
    }
}

/// Skip one tag: whether it was self-closing, and the position after it.
pub open spec fn skip_tag_spec(s: Seq<u8>, i: int) -> Result<(bool, int), Seq<char>> {
    match find_spec(s, i, pat_gt()) {
        None => Err("xml plist: unterminated tag"@),
        Some(e) => Ok((s[e - 1] == 0x2F, e + 1)),
    }
}

pub proof fn lemma_skip_tag(s: Seq<u8>, i: int)
    requires
        0 <= i <= s.len(),
    ensures
        skip_tag_spec(s, i) matches Ok((_, k)) ==> i < k <= s.len(),
{
    lemma_find_spec(s, i, pat_gt());
}

/// Text up to the next `<`, entities decoded, and the position of that `<`.
pub open spec fn text_spec(s: Seq<u8>, i: int) -> Result<(Seq<char>, int), Seq<char>> {
    match find_spec(s, i, pat_lt()) {
        None => Err("xml plist: unterminated text"@),
        Some(e) => {
            let raw = s.subrange(i, e);
            if !valid_utf8(raw) {
                Err("xml plist: text is not UTF-8"@)
            } else {
                Ok((decode_entities(decode_utf8(raw)), e))
            }
        },
    }
}

pub proof fn lemma_text(s: Seq<u8>, i: int)
    requires
        0 <= i <= s.len(),
    ensures
        text_spec(s, i) matches Ok((_, k)) ==> i <= k <= s.len(),
{
    lemma_find_spec(s, i, pat_lt());
}

/// The closing tag `</name>` after optional misc, and the position after it.
pub open spec fn expect_close_spec(s: Seq<u8>, i: int, name: Seq<char>) -> Result<int, Seq<char>> {
    let j = skip_misc_spec(s, i);
    if at_pat(s, j, pat_close_open()) && tag_name_spec(s, j) == Some(name) {
        match skip_tag_spec(s, j) {
            Err(e) => Err(e),
            Ok((_, k)) => Ok(k),
        }
    } else {
        Err("xml plist: expected </"@ + name + ">"@)
    }
}

pub proof fn lemma_expect_close(s: Seq<u8>, i: int, name: Seq<char>)
    requires
        0 <= i <= s.len(),
    ensures
        expect_close_spec(s, i, name) matches Ok(k) ==> i < k <= s.len(),
{
    lemma_skip_misc(s, i);
    lemma_skip_tag(s, skip_misc_spec(s, i));
}

/// The value element at `i` (after optional misc) and the position after it.
pub open spec fn value_spec(s: Seq<u8>, i: int, depth: int) -> Result<(PValue, int), Seq<char>>
    decreases 33 - depth, s.len() - i + 1,
{
    if depth > MAX_DEPTH || !(0 <= i <= s.len()) {
        Err("xml plist: nesting too deep"@)
    } else {
        let j = skip_misc_spec(s, i);
        proof {
            lemma_skip_misc(s, i);
            lemma_skip_tag(s, j);
        }
        match tag_name_spec(s, j) {
            None => Err("xml plist: expected an element"@),
            Some(name) => if name == "array"@ {
                match skip_tag_spec(s, j) {
                    Err(e) => Err(e),
                    Ok((true, k)) => Ok((PValue::Array(Seq::empty()), k)),
                    Ok((false, k)) => match items_spec(s, k, depth, Seq::empty()) {
                        Err(e) => Err(e),
                        Ok((items, k2)) => match expect_close_spec(s, k2, "array"@) {
                            Err(e) => Err(e),
                            Ok(k3) => Ok((PValue::Array(items), k3)),
                        },
                    },
                }
            } else if name == "dict"@ {
                match skip_tag_spec(s, j) {
                    Err(e) => Err(e),
                    Ok((true, k)) => Ok((PValue::Dict(Map::empty()), k)),
                    Ok((false, k)) => match pairs_spec(s, k, depth, Map::empty()) {
                        Err(e) => Err(e),
                        Ok((m, k2)) => match expect_close_spec(s, k2, "dict"@) {
                            Err(e) => Err(e),
                            Ok(k3) => Ok((PValue::Dict(m), k3)),
                        },
                    },
                }
            } else if name == "string"@ || name == "date"@ || name == "data"@ {
                match skip_tag_spec(s, j) {
                    Err(e) => Err(e),
                    Ok((true, k)) => Ok(
                        (
                            if name == "string"@ {
                                PValue::Str(Seq::empty())
                            } else {
                                PValue::Other
                            },
                            k,
                        ),
                    ),
                    Ok((false, k)) => match text_spec(s, k) {
                        Err(e) => Err(e),
                        Ok((t, k2)) => match expect_close_spec(s, k2, name) {
                            Err(e) => Err(e),
                            Ok(k3) => Ok(
                                (
                                    if name == "string"@ {
                                        PValue::Str(t)
                                    } else {
                                        PValue::Other
                                    },
                                    k3,
                                ),
                            ),
                        },
                    },
                }
            } else if name == "integer"@ || name == "real"@ {
                match skip_tag_spec(s, j) {
                    Err(e) => Err(e),
                    Ok((true, k)) => Ok((PValue::Other, k)),
                    Ok((false, k)) => match text_spec(s, k) {
                        Err(e) => Err(e),
                        Ok((t, k2)) => match expect_close_spec(s, k2, name) {
                            Err(e) => Err(e),
                            Ok(k3) => Ok(
                                (
                                    match parse_i64(trim(t)) {
                                        Some(n) => if name == "integer"@ {
                                            PValue::Int(n)
                                        } else {
                                            PValue::Other
                                        },
                                        None => PValue::Other,
                                    },
                                    k3,
                                ),
                            ),
                        },
                    },
                }
            } else if name == "true"@ || name == "false"@ {
                let v = name == "true"@;
                match skip_tag_spec(s, j) {
                    Err(e) => Err(e),
                    Ok((true, k)) => Ok((PValue::Bool(v), k)),
                    Ok((false, k)) => match expect_close_spec(
                        s,
                        k,
                        if v {
                            "true"@
                        } else {
                            "false"@
                        },
                    ) {
                        Err(e) => Err(e),
                        Ok(k3) => Ok((PValue::Bool(v), k3)),
                    },
                }
            } else {
                Err("xml plist: unexpected <"@ + name + ">"@)
            },
        }
    }
}

/// Array elements from `i` up to a closing tag, appended to `acc`.
pub open spec fn items_spec(s: Seq<u8>, i: int, depth: int, acc: Seq<PValue>) -> Result<
    (Seq<PValue>, int),
    Seq<char>,
>
    decreases 33 - depth, s.len() - i,
{
    if depth > MAX_DEPTH || !(0 <= i <= s.len()) {
        Err("xml plist: nesting too deep"@)
    } else {
        let j = skip_misc_spec(s, i);
        proof {
            lemma_skip_misc(s, i);
        }
        if at_pat(s, j, pat_close_open()) {
            Ok((acc, j))
        } else {
            match value_spec(s, j, depth + 1) {
                Err(e) => Err(e),
                Ok((v, k)) => if i < k <= s.len() {
                    items_spec(s, k, depth, acc.push(v))
                } else {
                    // cannot happen: a value consumes at least its tag
                    Err(Seq::empty())
                },
            }
        }
    }
}

/// Dictionary pairs from `i` up to a closing tag, inserted into `acc`.
pub open spec fn pairs_spec(s: Seq<u8>, i: int, depth: int, acc: Map<Seq<char>, PValue>) -> Result<
    (Map<Seq<char>, PValue>, int),
    Seq<char>,
>
    decreases 33 - depth, s.len() - i,
{
    if depth > MAX_DEPTH || !(0 <= i <= s.len()) {
        Err("xml plist: nesting too deep"@)
    } else {
        let j = skip_misc_spec(s, i);
        proof {
            lemma_skip_misc(s, i);
            lemma_skip_tag(s, j);
        }
        if at_pat(s, j, pat_close_open()) {
            Ok((acc, j))
        } else if tag_name_spec(s, j) != Some("key"@) {
            Err("xml plist: expected <key>"@)
        } else {
            match skip_tag_spec(s, j) {
                Err(e) => Err(e),
                Ok((sc, j2)) => {
                    let key: Result<(Seq<char>, int), Seq<char>> = if sc {
                        Ok((Seq::empty(), j2))
                    } else {
                        match text_spec(s, j2) {
                            Err(e) => Err(e),
                            Ok((t, j3)) => match expect_close_spec(s, j3, "key"@) {
                                Err(e) => Err(e),
                                Ok(j4) => Ok((t, j4)),
                            },
                        }
                    };
                    match key {
                        Err(e) => Err(e),
                        Ok((k, j5)) => if !(0 <= j5 <= s.len()) {
                            // cannot happen: positions stay inside the input
                            Err(Seq::empty())
                        } else {
                            match value_spec(s, j5, depth + 1) {
                                Err(e) => Err(e),
                                Ok((v, j6)) => if i < j6 <= s.len() {
                                    pairs_spec(s, j6, depth, acc.insert(k, v))
                                } else {
                                    // cannot happen: a value consumes at least its tag
                                    Err(Seq::empty())
                                },
                            }
                        },
                    }
                },
            }
        }
    }
}

/// Where reading starts: past a UTF-8 byte-order mark, if any.
pub open spec fn xml_start(s: Seq<u8>) -> int {
    if at_pat(s, 0, pat_bom()) {
        3
    } else {
        0
    }
}

/// The meaning of an XML plist: the value inside `<plist>`.
pub open spec fn spec_xml(s: Seq<u8>) -> Result<PValue, Seq<char>> {
    document_spec(s, xml_start(s))
}

/// The document read from `i0`: a `<plist>` element holding one value,
/// closed by `</plist>`.
pub open spec fn document_spec(s: Seq<u8>, i0: int) -> Result<PValue, Seq<char>> {
    let j = skip_misc_spec(s, i0);
    if !open_tag_is_spec(s, j, pat_plist_name()) {
        Err("xml plist: no <plist> element"@)
    } else {
        match skip_tag_spec(s, j) {
            Err(e) => Err(e),
            Ok((_, k)) => match value_spec(s, skip_misc_spec(s, k), 0) {
                Err(e) => Err(e),
                Ok((v, k2)) => match expect_close_spec(s, k2, "plist"@) {
                    Err(e) => Err(e),
                    Ok(_) => Ok(v),
                },
            },
        }
    }
}

/// The meaning of a property list in either serialization.
pub open spec fn spec_parse(b: Seq<u8>) -> Result<PValue, Seq<char>> {
    if at_pat(b, 0, pat_bplist()) {
        spec_binary(b)
    } else {
        spec_xml(b)
    }
}

// ---------------------------------------------------------------------------
// Character-level pieces of the XML reader
// ---------------------------------------------------------------------------

/// Unicode White_Space (what `str::trim` removes).
pub open spec fn is_white_space(c: char) -> bool {
    ||| '\u{9}' <= c <= '\u{d}'
    ||| c == ' '
    ||| c == '\u{85}'
    ||| c == '\u{a0}'
    ||| c == '\u{1680}'
    ||| '\u{2000}' <= c <= '\u{200a}'
    ||| c == '\u{2028}'
    ||| c == '\u{2029}'
    ||| c == '\u{202f}'
    ||| c == '\u{205f}'
    ||| c == '\u{3000}'
}

pub open spec fn trim_start(t: Seq<char>) -> Seq<char>
    decreases t.len(),
{
    if t.len() > 0 && is_white_space(t[0]) {
        trim_start(t.drop_first())
    } else {
        t
    }
}

pub open spec fn trim_end(t: Seq<char>) -> Seq<char>
    decreases t.len(),
{
    if t.len() > 0 && is_white_space(t.last()) {
        trim_end(t.drop_last())
    } else {
        t
    }
}

/// `str::trim`.
pub open spec fn trim(t: Seq<char>) -> Seq<char> {
    trim_end(trim_start(t))
}

/// Value of a digit in `radix` (10 or 16), or none.
pub open spec fn digit_value(c: char, radix: int) -> Option<int> {
    if '0' <= c <= '9' {
        Some(c as int - 48)
    } else if radix == 16 && 'a' <= c <= 'f' {
        Some(c as int - 87)
    } else if radix == 16 && 'A' <= c <= 'F' {
        Some(c as int - 55)
    } else {
        None
    }
}

pub open spec fn all_digits(d: Seq<char>, radix: int) -> bool {
    forall|i: int| 0 <= i < d.len() ==> (#[trigger] digit_value(d[i], radix)) is Some
}

/// The number a digit string stands for.
pub open spec fn digits_value(d: Seq<char>, radix: int) -> int
    decreases d.len(),
{
    if d.len() == 0 {
        0
    } else {
        digits_value(d.drop_last(), radix) * radix + digit_value(d.last(), radix)->0
    }
}

/// `i64::from_str`: an optional `+` or `-`, then one or more decimal digits,
/// in range.
pub open spec fn parse_i64(t: Seq<char>) -> Option<i64> {
    let neg = t.len() > 0 && t[0] == '-';
    let d = if t.len() > 0 && (t[0] == '-' || t[0] == '+') {
        t.drop_first()
    } else {
        t
    };
    if d.len() == 0 || !all_digits(d, 10) {
        None
    } else {
        let v = if neg {
            -digits_value(d, 10)
        } else {
            digits_value(d, 10)
        };
        if i64::MIN <= v <= i64::MAX {
            Some(v as i64)
        } else {
            None
        }
    }
}

/// `u32::from_str_radix`: an optional `+`, then one or more digits of the
/// radix, in range.
pub open spec fn parse_u32(t: Seq<char>, radix: int) -> Option<u32> {
    let d = if t.len() > 0 && t[0] == '+' {
        t.drop_first()
    } else {
        t
    };
    if d.len() == 0 || !all_digits(d, radix) || digits_value(d, radix) > u32::MAX {
        None
    } else {
        Some(digits_value(d, radix) as u32)
    }
}

/// First occurrence of `c` in `r`.
pub open spec fn index_of(r: Seq<char>, c: char) -> Option<int>
    decreases r.len(),
{
    if r.len() == 0 {
        None
    } else if r[0] == c {
        Some(0)
    } else {
        match index_of(r.drop_first(), c) {
            Some(p) => Some(p + 1),
            None => None,
        }
    }
}

pub proof fn lemma_index_of(r: Seq<char>, c: char)
    ensures
        index_of(r, c) matches Some(p) ==> 0 <= p < r.len() && r[p] == c && forall|q: int|
            0 <= q < p ==> r[q] != c,
        index_of(r, c) is None ==> forall|q: int| 0 <= q < r.len() ==> r[q] != c,
    decreases r.len(),
{
    if r.len() > 0 && r[0] != c {
        lemma_index_of(r.drop_first(), c);
        assert forall|q: int| 0 < q < r.len() implies r[q] == r.drop_first()[q - 1] by {}
    }
}

/// The code point an entity body names: `#x` hexadecimal, else `#` decimal.
pub open spec fn entity_code(ent: Seq<char>) -> Option<u32> {
    let hex = if ent.len() >= 2 && ent[0] == '#' && ent[1] == 'x' {
        parse_u32(ent.skip(2), 16)
    } else {
        None
    };
    match hex {
        Some(c) => Some(c),
        None => if ent.len() >= 1 && ent[0] == '#' {
            parse_u32(ent.skip(1), 10)
        } else {
            None
        },
    }
}

/// What an entity `&ent;` (written `raw`) turns into.
pub open spec fn entity_out(ent: Seq<char>, raw: Seq<char>) -> Seq<char> {
    if ent == "amp"@ {
        seq!['&']
    } else if ent == "lt"@ {
        seq!['<']
    } else if ent == "gt"@ {
        seq!['>']
    } else if ent == "quot"@ {
        seq!['"']
    } else if ent == "apos"@ {
        seq!['\'']
    } else {
        match entity_code(ent) {
            Some(c) => if is_scalar(c) {
                seq![c as char]
            } else {
                raw
            },
            None => raw,
        }
    }
}

/// XML entity decoding: every `&...;` replaced by what it names (an
/// unknown or invalid entity stays as written); text after a `&` with no
/// `;` stays as written.
#[verifier::opaque]
pub open spec fn decode_entities(r: Seq<char>) -> Seq<char>
    decreases r.len(),
{
    match index_of(r, '&') {
        None => r,
        Some(p) => {
            let rest = r.skip(p);
            match index_of(rest, ';') {
                None => r,
                Some(e) => {
                    proof {
                        lemma_index_of(r, '&');
                        lemma_index_of(rest, ';');
                    }
                    r.take(p) + entity_out(rest.subrange(1, e), rest.take(e + 1)) + decode_entities(
                        rest.skip(e + 1),
                    )
                },
            }
        },
    }
}


// ---------------------------------------------------------------------------
// Character-level pieces: code
// ---------------------------------------------------------------------------

proof fn lemma_index_of_first(r: Seq<char>, c: char, p: int)
    requires
        0 <= p < r.len(),
        r[p] == c,
        forall|q: int| 0 <= q < p ==> r[q] != c,
    ensures
        index_of(r, c) == Some(p),
{
    lemma_index_of(r, c);
    if let Some(p2) = index_of(r, c) {
        if p2 < p {
            assert(r[p2] != c);
        }
        if p < p2 {
            assert(r[p] != c);
        }
    }
}

/// First position at or after `from` holding `c`.
fn index_from(v: &Vec<char>, from: usize, c: char) -> (r: Option<usize>)
    requires
        from <= v@.len(),
    ensures
        match index_of(v@.skip(from as int), c) {
            Some(p) => r == Some((p + from) as usize),
            None => r is None,
        },
{
    let mut k = from;
    let n = v.len();
    while k < n
        invariant
            n == v@.len(),
            from <= k <= n,
            forall|q: int| from <= q < k ==> v@[q] != c,
        decreases n - k,
    {
        if v[k] == c {
            proof {
                let t = v@.skip(from as int);
                assert forall|q: int| 0 <= q < k - from implies t[q] != c by {
                    assert(t[q] == v@[q + from]);
                }
                lemma_index_of_first(t, c, k - from);
            }
            return Some(k);
        }
        k = k + 1;
    }
    proof {
        let t = v@.skip(from as int);
        lemma_index_of(t, c);
        if let Some(p) = index_of(t, c) {
            assert(t[p] == v@[p + from]);
        }
    }
    None
}

/// The characters `v[a..b]` spell `lit`.
fn seg_eq(v: &Vec<char>, a: usize, b: usize, lit: &str) -> (r: bool)
    requires
        a <= b <= v@.len(),
    ensures
        r == (v@.subrange(a as int, b as int) == lit@),
{
    let l = chars_of(lit);
    if b - a != l.len() {
        assert(v@.subrange(a as int, b as int).len() != lit@.len());
        return false;
    }
    let mut k: usize = 0;
    while k < l.len()
        invariant
            b - a == l@.len(),
            l@ == lit@,
            a <= b <= v@.len(),
            k <= l@.len(),
            forall|q: int| 0 <= q < k ==> v@[a + q] == l@[q],
        decreases l@.len() - k,
    {
        if v[a + k] != l[k] {
            assert(v@.subrange(a as int, b as int)[k as int] != l@[k as int]);
            assert(v@.subrange(a as int, b as int) != lit@);
            return false;
        }
        k = k + 1;
    }
    assert(v@.subrange(a as int, b as int) =~= l@);
    true
}

/// Unicode White_Space.
pub fn is_white_space_char(c: char) -> (r: bool)
    ensures
        r == is_white_space(c),
{
    ('\u{9}' <= c && c <= '\u{d}') || c == ' ' || c == '\u{85}' || c == '\u{a0}' || c == '\u{1680}'
        || ('\u{2000}' <= c && c <= '\u{200a}') || c == '\u{2028}' || c == '\u{2029}' || c
        == '\u{202f}' || c == '\u{205f}' || c == '\u{3000}'
}

proof fn lemma_trim_start_skip(t: Seq<char>, a: int)
    requires
        0 <= a <= t.len(),
        forall|q: int| 0 <= q < a ==> is_white_space(#[trigger] t[q]),
    ensures
        trim_start(t) == trim_start(t.skip(a)),
    decreases a,
{
    if a == 0 {
        assert(t.skip(0) =~= t);
    }
    if a > 0 {
        assert(is_white_space(t[0]));
        assert forall|q: int| 0 <= q < a - 1 implies is_white_space(#[trigger] t.drop_first()[q]) by {
            assert(t.drop_first()[q] == t[q + 1]);
        }
        lemma_trim_start_skip(t.drop_first(), a - 1);
        assert(trim_start(t) == trim_start(t.drop_first()));
        assert(t.drop_first().skip(a - 1) =~= t.skip(a));
    }
}

proof fn lemma_trim_end_take(t: Seq<char>, b: int)
    requires
        0 <= b <= t.len(),
        forall|q: int| b <= q < t.len() ==> is_white_space(#[trigger] t[q]),
    ensures
        trim_end(t) == trim_end(t.take(b)),
    decreases t.len() - b,
{
    if b == t.len() {
        assert(t.take(b) =~= t);
    }
    if b < t.len() {
        assert(is_white_space(t[t.len() - 1]));
        assert forall|q: int| b <= q < t.drop_last().len() implies is_white_space(
            #[trigger] t.drop_last()[q],
        ) by {
            assert(t.drop_last()[q] == t[q]);
        }
        lemma_trim_end_take(t.drop_last(), b);
        assert(t.last() == t[t.len() - 1]);
        assert(trim_end(t) == trim_end(t.drop_last()));
        assert(t.drop_last().take(b) =~= t.take(b));
    }
}

/// The bounds of `v` with surrounding white space removed.
pub fn trim_range(v: &Vec<char>) -> (r: (usize, usize))
    ensures
        r.0 <= r.1 <= v@.len(),
        v@.subrange(r.0 as int, r.1 as int) == trim(v@),
{
    let n = v.len();
    let mut a: usize = 0;
    while a < n && is_white_space_char(v[a])
        invariant
            n == v@.len(),
            a <= n,
            forall|q: int| 0 <= q < a ==> is_white_space(#[trigger] v@[q]),
        decreases n - a,
    {
        a = a + 1;
    }
    proof {
        lemma_trim_start_skip(v@, a as int);
        assert(trim_start(v@.skip(a as int)) == v@.skip(a as int));
    }
    let mut b: usize = n;
    while b > a && is_white_space_char(v[b - 1])
        invariant
            n == v@.len(),
            a <= b <= n,
            forall|q: int| b <= q < n ==> is_white_space(#[trigger] v@[q]),
        decreases b,
    {
        b = b - 1;
    }
    proof {
        let u = v@.skip(a as int);
        assert forall|q: int| b - a <= q < u.len() implies is_white_space(#[trigger] u[q]) by {
            assert(u[q] == v@[q + a]);
        }
        lemma_trim_end_take(u, b - a);
        assert(u.take(b - a) =~= v@.subrange(a as int, b as int));
        let w = v@.subrange(a as int, b as int);
        if w.len() > 0 {
            assert(w.last() == v@[b - 1]);
        }
        assert(trim_end(w) == w);
    }
    (a, b)
}

fn digit_of(c: char, radix: u32) -> (r: Option<u32>)
    requires
        radix == 10 || radix == 16,
    ensures
        match digit_value(c, radix as int) {
            Some(d) => r == Some(d as u32),
            None => r is None,
        },
{
    if '0' <= c && c <= '9' {
        Some((c as u32) - 48)
    } else if radix == 16 && 'a' <= c && c <= 'f' {
        Some((c as u32) - 87)
    } else if radix == 16 && 'A' <= c && c <= 'F' {
        Some((c as u32) - 55)
    } else {
        None
    }
}

proof fn lemma_digits_step(d: Seq<char>, k: int, radix: int)
    requires
        0 <= k < d.len(),
    ensures
        digits_value(d.take(k + 1), radix) == digits_value(d.take(k), radix) * radix + digit_value(
            d[k],
            radix,
        )->0,
{
    assert(d.take(k + 1).drop_last() =~= d.take(k));
}

proof fn lemma_digits_nonneg(d: Seq<char>, radix: int)
    requires
        radix >= 1,
        all_digits(d, radix),
        radix == 10 || radix == 16,
    ensures
        digits_value(d, radix) >= 0,
    decreases d.len(),
{
    if d.len() > 0 {
        assert(all_digits(d.drop_last(), radix)) by {
            assert forall|i: int| 0 <= i < d.drop_last().len() implies (#[trigger] digit_value(
                d.drop_last()[i],
                radix,
            )) is Some by {
                assert(d.drop_last()[i] == d[i]);
            }
        }
        lemma_digits_nonneg(d.drop_last(), radix);
        assert(digit_value(d[d.len() - 1], radix) is Some);
        assert(digits_value(d.drop_last(), radix) * radix >= 0) by (nonlinear_arith)
            requires
                digits_value(d.drop_last(), radix) >= 0,
                radix >= 1,
        ;
    }
}

proof fn lemma_cap_step(x: int, r: int, d: int, cap: int)
    requires
        x >= 0,
        r >= 1,
        d >= 0,
        cap >= 0,
    ensures
        ({
            let m = if x < cap {
                x
            } else {
                cap
            };
            let y = m * r + d;
            let z = x * r + d;
            (if y < cap {
                y
            } else {
                cap
            }) == (if z < cap {
                z
            } else {
                cap
            })
        }),
{
    if x >= cap {
        assert(x * r >= cap * r) by (nonlinear_arith)
            requires
                x >= cap,
                r >= 1,
        ;
        assert(cap * r >= cap) by (nonlinear_arith)
            requires
                cap >= 0,
                r >= 1,
        ;
    }
}

/// Digits `v[a..b]` in `radix`: their value, capped at `cap`, or `None`
/// when one of them is not a digit.
fn digits_capped(v: &Vec<char>, a: usize, b: usize, radix: u32, cap: u64) -> (r: Option<u64>)
    requires
        a <= b <= v@.len(),
        radix == 10 || radix == 16,
        cap <= 0x8000_0000_0000_0001,
    ensures
        match r {
            Some(x) => all_digits(v@.subrange(a as int, b as int), radix as int) && x == (if digits_value(
                v@.subrange(a as int, b as int),
                radix as int,
            ) < cap {
                digits_value(v@.subrange(a as int, b as int), radix as int)
            } else {
                cap as int
            }),
            None => !all_digits(v@.subrange(a as int, b as int), radix as int),
        },
{
    let ghost d = v@.subrange(a as int, b as int);
    let mut acc: u64 = 0;
    let mut k: usize = a;
    while k < b
        invariant
            a <= k <= b <= v@.len(),
            d == v@.subrange(a as int, b as int),
            radix == 10 || radix == 16,
            cap <= 0x8000_0000_0000_0001,
            all_digits(d.take(k - a), radix as int),
            acc == (if digits_value(d.take(k - a), radix as int) < cap {
                digits_value(d.take(k - a), radix as int)
            } else {
                cap as int
            }),
            acc <= cap,
        decreases b - k,
    {
        let dv = match digit_of(v[k], radix) {
            Some(x) => x,
            None => {
                proof {
                    assert(d[k - a] == v@[k as int]);
                    assert(digit_value(d[k - a], radix as int) is None);
                }
                return None;
            },
        };
        proof {
            lemma_digits_step(d, k - a, radix as int);
            lemma_digits_nonneg(d.take(k - a), radix as int);
            assert(d[k - a] == v@[k as int]);
            lemma_cap_step(
                digits_value(d.take(k - a), radix as int),
                radix as int,
                dv as int,
                cap as int,
            );
            assert forall|i: int| 0 <= i < d.take(k - a + 1).len() implies (#[trigger] digit_value(
                d.take(k - a + 1)[i],
                radix as int,
            )) is Some by {
                if i < k - a {
                    assert(d.take(k - a + 1)[i] == d.take(k - a)[i]);
                }
            }
        }
        assert(acc as int * radix as int <= 0xFFFF_FFFF_FFFF_FFFF * 0xFFFF_FFFF) by (nonlinear_arith)
            requires
                acc <= 0xFFFF_FFFF_FFFF_FFFF,
                radix <= 0xFFFF_FFFF,
        ;
        let y: u128 = (acc as u128) * (radix as u128) + (dv as u128);
        acc = if y < cap as u128 {
            y as u64
        } else {
            cap
        };
        k = k + 1;
    }
    assert(d.take(b - a) =~= d);
    Some(acc)
}

/// `u32::from_str_radix` over `v[a..b]`.
fn parse_u32_seg(v: &Vec<char>, a: usize, b: usize, radix: u32) -> (r: Option<u32>)
    requires
        a <= b <= v@.len(),
        radix == 10 || radix == 16,
    ensures
        r == parse_u32(v@.subrange(a as int, b as int), radix as int),
{
    let ghost t = v@.subrange(a as int, b as int);
    let mut a2 = a;
    if a < b && v[a] == '+' {
        a2 = a + 1;
    }
    assert(v@.subrange(a2 as int, b as int) == (if t.len() > 0 && t[0] == '+' {
        t.drop_first()
    } else {
        t
    }));
    if a2 == b {
        return None;
    }
    match digits_capped(v, a2, b, radix, 0x1_0000_0000) {
        None => None,
        Some(x) => if x > 0xFFFF_FFFF {
            None
        } else {
            Some(x as u32)
        },
    }
}

/// `i64::from_str` over `v[a..b]`.
fn parse_i64_seg(v: &Vec<char>, a: usize, b: usize) -> (r: Option<i64>)
    requires
        a <= b <= v@.len(),
    ensures
        r == parse_i64(v@.subrange(a as int, b as int)),
{
    let ghost t = v@.subrange(a as int, b as int);
    let neg = a < b && v[a] == '-';
    let mut a2 = a;
    if a < b && (v[a] == '-' || v[a] == '+') {
        a2 = a + 1;
    }
    assert(v@.subrange(a2 as int, b as int) == (if t.len() > 0 && (t[0] == '-' || t[0] == '+') {
        t.drop_first()
    } else {
        t
    }));
    if a2 == b {
        return None;
    }
    match digits_capped(v, a2, b, 10, 0x8000_0000_0000_0001) {
        None => None,
        Some(m) => {
            if neg {
                if m > 0x8000_0000_0000_0000 {
                    None
                } else if m == 0x8000_0000_0000_0000 {
                    Some(i64::MIN)
                } else {
                    Some(-(m as i64))
                }
            } else {
                if m > 0x7FFF_FFFF_FFFF_FFFF {
                    None
                } else {
                    Some(m as i64)
                }
            }
        },
    }
}

/// The code point an entity body `v[a..b]` names.
fn entity_code_seg(v: &Vec<char>, a: usize, b: usize) -> (r: Option<u32>)
    requires
        a <= b <= v@.len(),
    ensures
        r == entity_code(v@.subrange(a as int, b as int)),
{
    let ghost ent = v@.subrange(a as int, b as int);
    let mut hex: Option<u32> = None;
    if b - a >= 2 && v[a] == '#' && v[a + 1] == 'x' {
        assert(ent.skip(2) =~= v@.subrange(a + 2, b as int));
        hex = parse_u32_seg(v, a + 2, b, 16);
    }
    match hex {
        Some(c) => Some(c),
        None => {
            if b - a >= 1 && v[a] == '#' {
                assert(ent.skip(1) =~= v@.subrange(a + 1, b as int));
                parse_u32_seg(v, a + 1, b, 10)
            } else {
                None
            }
        },
    }
}

/// Append `v[a..b]` to `out`.
fn push_seg(out: &mut String, v: &Vec<char>, a: usize, b: usize)
    requires
        a <= b <= v@.len(),
    ensures
        final(out)@ == old(out)@ + v@.subrange(a as int, b as int),
{
    let mut k = a;
    while k < b
        invariant
            a <= k <= b <= v@.len(),
            out@ == old(out)@ + v@.subrange(a as int, k as int),
        decreases b - k,
    {
        push_char(out, v[k]);
        assert(v@.subrange(a as int, k + 1) =~= v@.subrange(a as int, k as int).push(v@[k as int]));
        k = k + 1;
    }
}

/// Append what the entity `v[p..=e]` (`&` at `p`, `;` at `e`) stands for.
fn push_entity(out: &mut String, v: &Vec<char>, p: usize, e: usize)
    requires
        p < e < v@.len(),
    ensures
        final(out)@ == old(out)@ + entity_out(
            v@.subrange(p + 1, e as int),
            v@.subrange(p as int, e + 1),
        ),
{
    let n = v.len();
    assert(e + 1 <= n);
    let ghost o = out@;
    if seg_eq(v, p + 1, e, "amp") {
        push_char(out, '&');
        assert(out@ =~= o + seq!['&']);
    } else if seg_eq(v, p + 1, e, "lt") {
        push_char(out, '<');
        assert(out@ =~= o + seq!['<']);
    } else if seg_eq(v, p + 1, e, "gt") {
        push_char(out, '>');
        assert(out@ =~= o + seq!['>']);
    } else if seg_eq(v, p + 1, e, "quot") {
        push_char(out, '"');
        assert(out@ =~= o + seq!['"']);
    } else if seg_eq(v, p + 1, e, "apos") {
        push_char(out, '\'');
        assert(out@ =~= o + seq!['\'']);
    } else {
        match entity_code_seg(v, p + 1, e) {
            Some(code) => match char_from_u32(code) {
                Some(c) => {
                    push_char(out, c);
                    proof {
                        char_u32_cast(c, code);
                    }
                    assert(out@ =~= o + seq![code as char]);
                },
                None => {
                    push_seg(out, v, p, e + 1);
                },
            },
            None => {
                push_seg(out, v, p, e + 1);
            },
        }
    }
}

/// XML entity decoding (see `decode_entities`).
fn decode_entities_exec(raw: &str) -> (out: String)
    ensures
        out@ == decode_entities(raw@),
{
    let v = chars_of(raw);
    let n = v.len();
    let mut out = String::new();
    let mut pos: usize = 0;
    assert(v@.skip(0) =~= v@);
    while pos <= n
        invariant
            n == v@.len(),
            pos <= n,
            decode_entities(raw@) == out@ + decode_entities(v@.skip(pos as int)),
        decreases n - pos,
    {
        let ghost r = v@.skip(pos as int);
        let ghost out0 = out@;
        let p = match index_from(&v, pos, '&') {
            None => {
                push_seg(&mut out, &v, pos, n);
                proof {
                    lemma_decode_none(r);
                    assert(v@.subrange(pos as int, n as int) =~= r);
                }
                return out;
            },
            Some(p) => p,
        };
        proof {
            lemma_index_of(r, '&');
            assert(r.skip(p - pos) =~= v@.skip(p as int));
        }
        let e = match index_from(&v, p, ';') {
            None => {
                push_seg(&mut out, &v, pos, n);
                proof {
                    lemma_decode_unterminated(r, p - pos);
                    assert(v@.subrange(pos as int, n as int) =~= r);
                }
                return out;
            },
            Some(e) => e,
        };
        proof {
            lemma_index_of(v@.skip(p as int), ';');
        }
        push_seg(&mut out, &v, pos, p);
        push_entity(&mut out, &v, p, e);
        proof {
            let rest = r.skip(p - pos);
            lemma_decode_step(r, p - pos, e - p);
            assert(v@.subrange(pos as int, p as int) =~= r.take(p - pos));
            assert(rest.subrange(1, e - p) =~= v@.subrange(p + 1, e as int));
            assert(rest.take(e - p + 1) =~= v@.subrange(p as int, e + 1));
            assert(rest.skip(e - p + 1) =~= v@.skip(e + 1));
            assert(out@ =~= out0 + r.take(p - pos) + entity_out(
                rest.subrange(1, e - p),
                rest.take(e - p + 1),
            ));
        }
        pos = e + 1;
    }
    out
}

proof fn lemma_decode_none(r: Seq<char>)
    requires
        index_of(r, '&') is None,
    ensures
        decode_entities(r) == r,
{
    reveal(decode_entities);
}

proof fn lemma_decode_unterminated(r: Seq<char>, p: int)
    requires
        index_of(r, '&') == Some(p),
        index_of(r.skip(p), ';') is None,
    ensures
        decode_entities(r) == r,
{
    reveal(decode_entities);
}

proof fn lemma_decode_step(r: Seq<char>, p: int, e: int)
    requires
        index_of(r, '&') == Some(p),
        index_of(r.skip(p), ';') == Some(e),
    ensures
        decode_entities(r) == r.take(p) + entity_out(r.skip(p).subrange(1, e), r.skip(p).take(e + 1))
            + decode_entities(r.skip(p).skip(e + 1)),
{
    reveal(decode_entities);
}

// ---------------------------------------------------------------------------
// Facts about byte order and the entry map
// ---------------------------------------------------------------------------

pub proof fn lemma_bytes_lt_irreflexive(a: Seq<u8>)
    ensures
        !bytes_lt(a, a),
    decreases a.len(),
{
    if a.len() > 0 {
        lemma_bytes_lt_irreflexive(a.drop_first());
    }
}

pub proof fn lemma_bytes_lt_transitive(a: Seq<u8>, b: Seq<u8>, c: Seq<u8>)
    requires
        bytes_lt(a, b),
        bytes_lt(b, c),
    ensures
        bytes_lt(a, c),
    decreases a.len(),
{
    if a.len() > 0 && b.len() > 0 && c.len() > 0 {
        if a[0] == b[0] && b[0] == c[0] {
            lemma_bytes_lt_transitive(a.drop_first(), b.drop_first(), c.drop_first());
        }
    }
}

pub proof fn lemma_bytes_lt_total(a: Seq<u8>, b: Seq<u8>)
    requires
        a != b,
    ensures
        bytes_lt(a, b) || bytes_lt(b, a),
    decreases a.len(),
{
    if a.len() == 0 && b.len() == 0 {
        assert(a =~= b);
    }
    if a.len() > 0 && b.len() > 0 && a[0] == b[0] {
        if a.drop_first() == b.drop_first() {
            assert(a =~= seq![a[0]] + a.drop_first());
            assert(b =~= seq![b[0]] + b.drop_first());
        }
        lemma_bytes_lt_total(a.drop_first(), b.drop_first());
    }
}

pub proof fn lemma_bytes_lt_asymmetric(a: Seq<u8>, b: Seq<u8>)
    requires
        bytes_lt(a, b),
    ensures
        !bytes_lt(b, a),
        a != b,
    decreases a.len(),
{
    lemma_bytes_lt_irreflexive(a);
    if a.len() > 0 && b.len() > 0 && a[0] == b[0] {
        lemma_bytes_lt_asymmetric(a.drop_first(), b.drop_first());
    }
}

pub proof fn lemma_encode_injective(a: Seq<char>, b: Seq<char>)
    ensures
        encode_utf8(a) == encode_utf8(b) <==> a == b,
{
    if encode_utf8(a) == encode_utf8(b) {
        encode_utf8_decode_utf8(a);
        encode_utf8_decode_utf8(b);
    }
}

/// Sorted keys are distinct, also as character strings.
pub proof fn lemma_sorted_distinct<V>(s: Seq<(String, V)>)
    requires
        entries_sorted(s),
    ensures
        forall|i: int, j: int| 0 <= i < s.len() && 0 <= j < s.len() && i != j ==> s[i].0@ != s[j].0@,
{
    assert forall|i: int, j: int| 0 <= i < s.len() && 0 <= j < s.len() && i != j implies s[i].0@
        != s[j].0@ by {
        if i < j {
            assert(bytes_lt(key_bytes(s[i]), key_bytes(s[j])));
            lemma_bytes_lt_asymmetric(key_bytes(s[i]), key_bytes(s[j]));
        } else {
            assert(bytes_lt(key_bytes(s[j]), key_bytes(s[i])));
            lemma_bytes_lt_asymmetric(key_bytes(s[j]), key_bytes(s[i]));
        }
    }
}

/// Some entry carries key `k`.
pub open spec fn has_key(s: Seq<(String, Value)>, k: Seq<char>) -> bool {
    exists|i: int| 0 <= i < s.len() && (#[trigger] s[i]).0@ == k
}

proof fn lemma_has_key_drop_last(s: Seq<(String, Value)>, k: Seq<char>)
    requires
        s.len() > 0,
    ensures
        has_key(s, k) == (has_key(s.drop_last(), k) || s.last().0@ == k),
{
    let t = s.drop_last();
    if has_key(t, k) {
        let i = choose|i: int| 0 <= i < t.len() && (#[trigger] t[i]).0@ == k;
        assert(s[i] == t[i]);
    }
    if s.last().0@ == k {
        assert(s[s.len() - 1] == s.last());
    }
    if has_key(s, k) {
        let i = choose|i: int| 0 <= i < s.len() && (#[trigger] s[i]).0@ == k;
        if i < s.len() - 1 {
            assert(t[i] == s[i]);
        }
    }
}

/// The keys of the map are exactly the keys of the entries.
proof fn lemma_view_entries_keys(s: Seq<(String, Value)>)
    ensures
        forall|k: Seq<char>| #[trigger] view_entries(s).contains_key(k) == has_key(s, k),
    decreases s.len(),
{
    if s.len() > 0 {
        lemma_view_entries_keys(s.drop_last());
        assert forall|k: Seq<char>| #[trigger] view_entries(s).contains_key(k) == has_key(s, k) by {
            lemma_has_key_drop_last(s, k);
            assert(view_entries(s.drop_last()).contains_key(k) == has_key(s.drop_last(), k));
        }
    }
}

/// The value under the key of entry `i` when no later entry repeats it.
proof fn lemma_view_entries_last(s: Seq<(String, Value)>, i: int)
    requires
        0 <= i < s.len(),
        forall|j: int| i < j < s.len() ==> s[j].0@ != s[i].0@,
    ensures
        view_entries(s).contains_key(s[i].0@),
        view_entries(s)[s[i].0@] == view_value(s[i].1),
    decreases s.len(),
{
    if i < s.len() - 1 {
        let t = s.drop_last();
        assert forall|j: int| i < j < t.len() implies t[j].0@ != t[i].0@ by {
            assert(t[j] == s[j]);
        }
        lemma_view_entries_last(t, i);
        assert(t[i] == s[i]);
    }
}

proof fn lemma_view_entries_distinct(s: Seq<(String, Value)>)
    requires
        forall|i: int, j: int| 0 <= i < s.len() && 0 <= j < s.len() && i != j ==> s[i].0@ != s[j].0@,
    ensures
        forall|k: Seq<char>| #[trigger] view_entries(s).contains_key(k) == has_key(s, k),
        forall|i: int|
            0 <= i < s.len() ==> view_entries(s)[#[trigger] s[i].0@] == view_value(s[i].1),
{
    lemma_view_entries_keys(s);
    assert forall|i: int| 0 <= i < s.len() implies view_entries(s)[#[trigger] s[i].0@]
        == view_value(s[i].1) by {
        lemma_view_entries_last(s, i);
    }
}

proof fn lemma_view_entries_len(s: Seq<(String, Value)>)
    requires
        forall|i: int, j: int| 0 <= i < s.len() && 0 <= j < s.len() && i != j ==> s[i].0@ != s[j].0@,
    ensures
        view_entries(s).dom().len() == s.len(),
        view_entries(s).dom().finite(),
    decreases s.len(),
{
    if s.len() > 0 {
        let t = s.drop_last();
        assert forall|i: int, j: int|
            0 <= i < t.len() && 0 <= j < t.len() && i != j implies t[i].0@ != t[j].0@ by {
            assert(t[i] == s[i] && t[j] == s[j]);
        }
        lemma_view_entries_len(t);
        lemma_view_entries_keys(t);
        if view_entries(t).contains_key(s.last().0@) {
            let i = choose|i: int| 0 <= i < t.len() && (#[trigger] t[i]).0@ == s.last().0@;
            assert(t[i] == s[i]);
            assert(s[s.len() - 1] == s.last());
            assert(false);
        }
    }
}

proof fn lemma_replace_map(s: Seq<(String, Value)>, i: int, e: (String, Value))
    requires
        0 <= i < s.len(),
        s[i].0@ == e.0@,
        forall|a: int, b: int| 0 <= a < s.len() && 0 <= b < s.len() && a != b ==> s[a].0@ != s[b].0@,
    ensures
        view_entries(s.update(i, e)) == view_entries(s).insert(e.0@, view_value(e.1)),
{
    let t = s.update(i, e);
    assert forall|a: int, b: int| 0 <= a < t.len() && 0 <= b < t.len() && a != b implies t[a].0@
        != t[b].0@ by {
        if a == i {
            assert(t[b] == s[b]);
        } else if b == i {
            assert(t[a] == s[a]);
        } else {
            assert(t[a] == s[a] && t[b] == s[b]);
        }
    }
    lemma_view_entries_distinct(s);
    lemma_view_entries_distinct(t);
    let m1 = view_entries(t);
    let m2 = view_entries(s).insert(e.0@, view_value(e.1));
    assert forall|k: Seq<char>| #[trigger] m1.contains_key(k) <==> m2.contains_key(k) by {
        if m1.contains_key(k) {
            let a = choose|a: int| 0 <= a < t.len() && (#[trigger] t[a]).0@ == k;
            if a != i {
                assert(t[a] == s[a]);
            } else {
                assert(s[i] == s[i]);
            }
        }
        if m2.contains_key(k) {
            if k != e.0@ {
                let a = choose|a: int| 0 <= a < s.len() && (#[trigger] s[a]).0@ == k;
                assert(t[a] == s[a]);
            } else {
                assert(t[i] == e);
            }
        }
    }
    assert forall|k: Seq<char>| #[trigger] m1.contains_key(k) implies m1[k] == m2[k] by {
        let a = choose|a: int| 0 <= a < t.len() && (#[trigger] t[a]).0@ == k;
        assert(m1[t[a].0@] == view_value(t[a].1));
        if a != i {
            assert(t[a] == s[a]);
            assert(view_entries(s)[s[a].0@] == view_value(s[a].1));
        }
    }
    assert(m1 =~= m2);
}

proof fn lemma_insert_map(s: Seq<(String, Value)>, i: int, e: (String, Value))
    requires
        0 <= i <= s.len(),
        forall|a: int| 0 <= a < s.len() ==> s[a].0@ != e.0@,
        forall|a: int, b: int| 0 <= a < s.len() && 0 <= b < s.len() && a != b ==> s[a].0@ != s[b].0@,
    ensures
        view_entries(s.insert(i, e)) == view_entries(s).insert(e.0@, view_value(e.1)),
{
    let t = s.insert(i, e);
    assert forall|a: int, b: int| 0 <= a < t.len() && 0 <= b < t.len() && a != b implies t[a].0@
        != t[b].0@ by {
        let sa = if a < i {
            a
        } else {
            a - 1
        };
        let sb = if b < i {
            b
        } else {
            b - 1
        };
        if a != i && b != i {
            assert(t[a] == s[sa] && t[b] == s[sb]);
        } else if a == i {
            assert(t[b] == s[sb]);
        } else {
            assert(t[a] == s[sa]);
        }
    }
    lemma_view_entries_distinct(s);
    lemma_view_entries_distinct(t);
    let m1 = view_entries(t);
    let m2 = view_entries(s).insert(e.0@, view_value(e.1));
    assert(t[i] == e);
    assert forall|k: Seq<char>| #[trigger] m1.contains_key(k) <==> m2.contains_key(k) by {
        if m1.contains_key(k) {
            let a = choose|a: int| 0 <= a < t.len() && (#[trigger] t[a]).0@ == k;
            if a < i {
                assert(t[a] == s[a]);
            } else if a > i {
                assert(t[a] == s[a - 1]);
            }
        }
        if m2.contains_key(k) {
            if k != e.0@ {
                let a = choose|a: int| 0 <= a < s.len() && (#[trigger] s[a]).0@ == k;
                if a < i {
                    assert(t[a] == s[a]);
                } else {
                    assert(t[a + 1] == s[a]);
                }
            }
        }
    }
    assert forall|k: Seq<char>| #[trigger] m1.contains_key(k) implies m1[k] == m2[k] by {
        let a = choose|a: int| 0 <= a < t.len() && (#[trigger] t[a]).0@ == k;
        assert(m1[t[a].0@] == view_value(t[a].1));
        if a < i {
            assert(t[a] == s[a]);
            assert(view_entries(s)[s[a].0@] == view_value(s[a].1));
        } else if a > i {
            assert(t[a] == s[a - 1]);
            assert(view_entries(s)[s[a - 1].0@] == view_value(s[a - 1].1));
        }
    }
    assert(m1 =~= m2);
}

pub proof fn lemma_insert_sorted<V>(s: Seq<(String, V)>, i: int, e: (String, V))
    requires
        0 <= i <= s.len(),
        entries_sorted(s),
        forall|j: int| 0 <= j < i ==> bytes_lt(#[trigger] key_bytes(s[j]), key_bytes(e)),
        i < s.len() ==> bytes_lt(key_bytes(e), key_bytes(s[i])),
    ensures
        entries_sorted(s.insert(i, e)),
        forall|a: int| 0 <= a < s.len() ==> s[a].0@ != e.0@,
{
    let t = s.insert(i, e);
    assert forall|a: int, b: int| 0 <= a < b < t.len() implies bytes_lt(
        #[trigger] key_bytes(t[a]),
        #[trigger] key_bytes(t[b]),
    ) by {
        if b < i {
            assert(t[a] == s[a] && t[b] == s[b]);
        } else if b == i {
            assert(t[a] == s[a]);
        } else if a < i {
            assert(t[a] == s[a] && t[b] == s[b - 1]);
        } else if a == i {
            assert(t[b] == s[b - 1]);
            if b - 1 > i {
                lemma_bytes_lt_transitive(key_bytes(e), key_bytes(s[i]), key_bytes(s[b - 1]));
            }
        } else {
            assert(t[a] == s[a - 1] && t[b] == s[b - 1]);
        }
    }
    assert forall|a: int| 0 <= a < s.len() implies s[a].0@ != e.0@ by {
        if a < i {
            lemma_bytes_lt_asymmetric(key_bytes(s[a]), key_bytes(e));
        } else {
            if a > i {
                lemma_bytes_lt_transitive(key_bytes(e), key_bytes(s[i]), key_bytes(s[a]));
            }
            lemma_bytes_lt_asymmetric(key_bytes(e), key_bytes(s[a]));
        }
    }
}

// ---------------------------------------------------------------------------
// Byte-string helpers
// ---------------------------------------------------------------------------

/// Byte equality of two slices.
pub fn bytes_eq(a: &[u8], b: &[u8]) -> (r: bool)
    ensures
        r == (a@ == b@),
{
    if a.len() != b.len() {
        return false;
    }
    let mut i: usize = 0;
    while i < a.len()
        invariant
            a.len() == b.len(),
            i <= a.len(),
            forall|j: int| 0 <= j < i ==> a@[j] == b@[j],
        decreases a.len() - i,
    {
        if a[i] != b[i] {
            return false;
        }
        i = i + 1;
    }
    assert(a@ =~= b@);
    true
}

/// Three-way byte order: negative, zero or positive as `a` sorts before,
/// equal to or after `b`.
pub fn compare_bytes(a: &[u8], b: &[u8]) -> (r: i8)
    ensures
        r == 0 <==> a@ == b@,
        r < 0 <==> bytes_lt(a@, b@),
        r > 0 <==> bytes_lt(b@, a@),
{
    let mut i: usize = 0;
    assert(a@.skip(0) =~= a@);
    assert(b@.skip(0) =~= b@);
    while i < a.len() && i < b.len()
        invariant
            i <= a.len(),
            i <= b.len(),
            a@.take(i as int) == b@.take(i as int),
            bytes_lt(a@, b@) == bytes_lt(a@.skip(i as int), b@.skip(i as int)),
            bytes_lt(b@, a@) == bytes_lt(b@.skip(i as int), a@.skip(i as int)),
        decreases a.len() - i,
    {
        if a[i] != b[i] {
            proof {
                assert(a@.skip(i as int)[0] == a@[i as int]);
                assert(b@.skip(i as int)[0] == b@[i as int]);
            }
            if a[i] < b[i] {
                return -1;
            } else {
                return 1;
            }
        }
        proof {
            assert(a@.skip(i as int).drop_first() =~= a@.skip(i + 1));
            assert(b@.skip(i as int).drop_first() =~= b@.skip(i + 1));
            assert(a@.take(i + 1) =~= a@.take(i as int).push(a@[i as int]));
            assert(b@.take(i + 1) =~= b@.take(i as int).push(b@[i as int]));
        }
        i = i + 1;
    }
    if a.len() == b.len() {
        assert(a@ =~= a@.take(i as int));
        assert(b@ =~= b@.take(i as int));
        proof {
            lemma_bytes_lt_irreflexive(a@);
        }
        0
    } else if a.len() < b.len() {
        assert(a@.skip(i as int).len() == 0);
        -1
    } else {
        assert(b@.skip(i as int).len() == 0);
        1
    }
}


// ---------------------------------------------------------------------------
// Binary format: reader
// ---------------------------------------------------------------------------

pub open spec fn pow256(n: nat) -> nat
    decreases n,
{
    if n == 0 {
        1
    } else {
        256 * pow256((n - 1) as nat)
    }
}

proof fn lemma_be_value_bound(s: Seq<u8>)
    ensures
        be_value(s) < pow256(s.len()),
    decreases s.len(),
{
    if s.len() > 0 {
        lemma_be_value_bound(s.drop_last());
    }
}

pub proof fn lemma_pow256_mono(i: nat, j: nat)
    requires
        i <= j,
    ensures
        pow256(i) <= pow256(j),
    decreases j,
{
    if i < j {
        lemma_pow256_mono(i, (j - 1) as nat);
    }
}

proof fn lemma_pow256_8()
    ensures
        pow256(7) == 0x100000000000000,
        pow256(8) == 0x10000000000000000,
{
    reveal_with_fuel(pow256, 9);
}

/// At most eight bytes fit a `u64`.
proof fn lemma_be_value_u64(s: Seq<u8>)
    requires
        s.len() <= 8,
    ensures
        be_value(s) <= u64::MAX,
{
    lemma_be_value_bound(s);
    lemma_pow256_mono(s.len(), 8);
    lemma_pow256_8();
}

pub open spec fn min8(n: int) -> int {
    if n < 8 {
        n
    } else {
        8
    }
}

/// Big-endian unsigned integer of 1 to 8 bytes (bytes past the eighth are
/// ignored).
fn be_uint(b: &[u8]) -> (r: u64)
    ensures
        r as nat == be_value(b@.take(min8(b@.len() as int))),
{
    let n = if b.len() < 8 {
        b.len()
    } else {
        8
    };
    let mut acc: u64 = 0;
    let mut i: usize = 0;
    while i < n
        invariant
            n == min8(b@.len() as int),
            i <= n <= 8,
            n <= b@.len(),
            acc as nat == be_value(b@.take(i as int)),
        decreases n - i,
    {
        proof {
            lemma_be_value_bound(b@.take(i as int));
            lemma_pow256_mono(i as nat, 7);
            lemma_pow256_8();
        }
        let x = b[i];
        assert(acc < 0x100000000000000);
        assert((acc << 8) | (x as u64) == acc * 256 + x) by (bit_vector)
            requires
                acc < 0x100000000000000,
        ;
        acc = (acc << 8) | (x as u64);
        assert(b@.take(i + 1).drop_last() =~= b@.take(i as int));
        i = i + 1;
    }
    acc
}

fn be_u64(b: &[u8]) -> (r: u64)
    ensures
        r as nat == be_value(b@.take(min8(b@.len() as int))),
{
    be_uint(b)
}

proof fn lemma_take_all(s: Seq<u8>)
    requires
        s.len() <= 8,
    ensures
        s.take(min8(s.len() as int)) == s,
{
    assert(s.take(s.len() as int) =~= s);
}

struct Binary<'a> {
    b: &'a [u8],
    offset_size: usize,
    ref_size: usize,
    count: usize,
    top: usize,
    table: usize,
}

fn hex_digit_char(d: u8) -> (c: char)
    requires
        d < 16,
    ensures
        c == hex_digit(d),
{
    if d < 10 {
        (48u8 + d) as char
    } else {
        (87u8 + d) as char
    }
}

impl<'a> Binary<'a> {
    spec fn hdr(&self) -> Hdr {
        Hdr {
            offset_size: self.offset_size as int,
            ref_size: self.ref_size as int,
            count: self.count as int,
            top: self.top as int,
            table: self.table as int,
        }
    }

    spec fn inv(&self) -> bool {
        &&& spec_header(self.b@) == Ok::<Hdr, Seq<char>>(self.hdr())
        &&& self.b@.len() <= usize::MAX
    }

    proof fn lemma_inv(&self)
        requires
            self.inv(),
        ensures
            self.b@.len() >= 40,
            1 <= self.offset_size <= 8,
            1 <= self.ref_size <= 8,
            self.top < self.count,
            self.table + self.count * self.offset_size <= self.b@.len() - 32,
            self.b@.len() <= usize::MAX,
    {
    }

    fn new(b: &'a [u8]) -> (r: Result<Binary<'a>, String>)
        ensures
            match r {
                Ok(x) => x.b@ == b@ && x.inv(),
                Err(e) => spec_header(b@) == Err::<Hdr, Seq<char>>(e@),
            },
    {
        let len = b.len();
        if len < 40 {
            return Err(owned("binary plist too short"));
        }
        let t = b.len() - 32;
        let offset_size = b[t + 6] as usize;
        let ref_size = b[t + 7] as usize;
        let c8 = slice_subrange(b, t + 8, t + 16);
        let t8 = slice_subrange(b, t + 16, t + 24);
        let a8 = slice_subrange(b, t + 24, t + 32);
        proof {
            lemma_take_all(c8@);
            lemma_take_all(t8@);
            lemma_take_all(a8@);
        }
        let count = be_u64(c8) as usize;
        let top = be_u64(t8) as usize;
        let table = be_u64(a8) as usize;
        if !(1 <= offset_size && offset_size <= 8) || !(1 <= ref_size && ref_size <= 8) {
            return Err(owned("binary plist: bad trailer sizes"));
        }
        let span = match count.checked_mul(offset_size) {
            Some(x) => x,
            None => usize::MAX,
        };
        let end = match table.checked_add(span) {
            Some(x) => x,
            None => usize::MAX,
        };
        if top >= count || end > b.len() - 32 {
            return Err(owned("binary plist: bad trailer"));
        }
        Ok(Binary { b, offset_size, ref_size, count, top, table })
    }

    fn top(&self) -> (r: Result<Value, String>)
        requires
            self.inv(),
        ensures
            match r {
                Ok(v) => spec_object(self.b@, self.hdr(), self.top as int, 0) == Ok::<
                    PValue,
                    Seq<char>,
                >(view_value(v)) && value_wf(v),
                Err(e) => spec_object(self.b@, self.hdr(), self.top as int, 0) == Err::<
                    PValue,
                    Seq<char>,
                >(e@),
            },
    {
        self.object(self.top, 0)
    }

    fn offset_of(&self, index: usize) -> (r: Result<usize, String>)
        requires
            self.inv(),
        ensures
            match r {
                Ok(o) => spec_offset_of(self.b@, self.hdr(), index as int) == Ok::<int, Seq<char>>(
                    o as int,
                ) && o < self.b@.len() - 32,
                Err(e) => spec_offset_of(self.b@, self.hdr(), index as int) == Err::<
                    int,
                    Seq<char>,
                >(e@),
            },
    {
        proof {
            self.lemma_inv();
        }
        if index >= self.count {
            return Err(owned("binary plist: object index out of range"));
        }
        assert(index * self.offset_size + self.offset_size <= self.count * self.offset_size)
            by (nonlinear_arith)
            requires
                index < self.count,
        ;
        let at = self.table + index * self.offset_size;
        let raw = slice_subrange(self.b, at, at + self.offset_size);
        proof {
            lemma_take_all(raw@);
        }
        let off = be_uint(raw) as usize;
        if off >= self.b.len() - 32 {
            return Err(owned("binary plist: object offset out of range"));
        }
        Ok(off)
    }

    fn take(&self, at: usize, n: usize) -> (r: Result<&'a [u8], String>)
        ensures
            match r {
                Ok(s) => spec_take(self.b@, at as int, n as int) == Ok::<(), Seq<char>>(())
                    && s@ == self.b@.subrange(at as int, at + n),
                Err(e) => spec_take(self.b@, at as int, n as int) == Err::<(), Seq<char>>(e@),
            },
    {
        let end = match at.checked_add(n) {
            Some(x) => x,
            None => {
                return Err(owned("binary plist: length overflow"));
            },
        };
        if end > self.b.len() {
            return Err(owned("binary plist: object runs past the file"));
        }
        Ok(slice_subrange(self.b, at, end))
    }

    /// The element count of a container or string: the marker's low nibble,
    /// or, when that is 0xF, an integer object that follows the marker.
    /// Returns (count, offset of the payload).
    fn count_after(&self, at: usize, info: u8) -> (r: Result<(usize, usize), String>)
        requires
            self.inv(),
            at < self.b@.len() - 32,
            info < 16,
        ensures
            match r {
                Ok((n, p)) => spec_count_after(self.b@, at as int, info) == Ok::<
                    (int, int),
                    Seq<char>,
                >((n as int, p as int)) && p <= self.b@.len(),
                Err(e) => spec_count_after(self.b@, at as int, info) == Err::<
                    (int, int),
                    Seq<char>,
                >(e@),
            },
    {
        proof {
            self.lemma_inv();
        }
        if info != 0x0F {
            return Ok((info as usize, at + 1));
        }
        let m = match self.take(at + 1, 1) {
            Ok(s) => s[0],
            Err(e) => {
                return Err(e);
            },
        };
        let hi = m >> 4;
        let lo = m & 0x0F;
        assert((m >> 4) == m / 16 && (m & 0x0F) == m % 16) by (bit_vector);
        if hi != 0x1 {
            return Err(owned("binary plist: count is not an integer"));
        }
        let n = (1u32 << (lo as u32)) as usize;
        assert((1u32 << (lo as u32)) <= 32768) by (bit_vector)
            requires
                lo < 16,
        ;
        if n > 8 {
            return Err(owned("binary plist: count too wide"));
        }
        let raw = match self.take(at + 2, n) {
            Ok(s) => s,
            Err(e) => {
                return Err(e);
            },
        };
        proof {
            lemma_take_all(raw@);
        }
        Ok((be_uint(raw) as usize, at + 2 + n))
    }
}



pub open spec fn views(v: Seq<Value>) -> Seq<PValue> {
    Seq::new(v.len(), |i: int| view_value(v[i]))
}

pub proof fn lemma_array_view(v: Vec<Value>)
    ensures
        view_value(Value::Array(v)) == PValue::Array(views(v@)),
        value_wf(Value::Array(v)) == forall|i: int| 0 <= i < v@.len() ==> value_wf(#[trigger] v@[i]),
{
    let x = view_value(Value::Array(v));
    let inner = x->Array_0;
    assert(inner.len() == v@.len());
    assert forall|i: int| 0 <= i < inner.len() implies inner[i] == views(v@)[i] by {}
    assert(inner =~= views(v@));
}

impl<'a> Binary<'a> {
    /// Elements `0..n` of an array whose refs start at `p`, read at `depth`.
    fn array_items(&self, p: usize, n: usize, depth: usize) -> (r: Result<Vec<Value>, String>)
        requires
            self.inv(),
            p + n * self.ref_size <= self.b@.len(),
            depth <= MAX_DEPTH + 1,
        ensures
            match r {
                Ok(items) => spec_list(
                    self.b@,
                    self.hdr(),
                    p as int,
                    n as int,
                    0,
                    depth as int,
                    Seq::empty(),
                ) == Ok::<Seq<PValue>, Seq<char>>(views(items@)) && forall|i: int|
                    0 <= i < items@.len() ==> value_wf(#[trigger] items@[i]),
                Err(e) => spec_list(
                    self.b@,
                    self.hdr(),
                    p as int,
                    n as int,
                    0,
                    depth as int,
                    Seq::empty(),
                ) == Err::<Seq<PValue>, Seq<char>>(e@),
            },
        decreases 33 - depth, 3int,
    {
        proof {
            self.lemma_inv();
        }
        let mut items: Vec<Value> = Vec::new();
        let mut k: usize = 0;
        let rs = self.ref_size;
        assert(views(items@) =~= Seq::<PValue>::empty());
        while k < n
            invariant
                self.inv(),
                rs == self.ref_size,
                p + n * rs <= self.b@.len(),
                depth <= MAX_DEPTH + 1,
                k <= n,
                spec_list(self.b@, self.hdr(), p as int, n as int, 0, depth as int, Seq::empty())
                    == spec_list(
                    self.b@,
                    self.hdr(),
                    p as int,
                    n as int,
                    k as int,
                    depth as int,
                    views(items@),
                ),
                forall|i: int| 0 <= i < items@.len() ==> value_wf(#[trigger] items@[i]),
            decreases n - k,
        {
            assert(k * rs + rs <= n * rs) by (nonlinear_arith)
                requires
                    k < n,
            ;
            let at = p + k * rs;
            let raw = slice_subrange(self.b, at, at + rs);
            proof {
                lemma_take_all(raw@);
            }
            let idx = be_uint(raw) as usize;
            assert(idx as int == ref_at(self.b@, self.hdr(), p as int, k as int));
            match self.object(idx, depth) {
                Ok(v) => {
                    let ghost before = items@;
                    items.push(v);
                    assert(views(items@) =~= views(before).push(view_value(v)));
                },
                Err(e) => {
                    return Err(e);
                },
            }
            k = k + 1;
        }
        Ok(items)
    }

    /// Pairs `0..n` of a dictionary (keys at `kp`, values at `vp`).
    fn dict_items(&self, kp: usize, vp: usize, n: usize, depth: usize) -> (r: Result<Dict, String>)
        requires
            self.inv(),
            kp + n * self.ref_size <= self.b@.len(),
            vp + n * self.ref_size <= self.b@.len(),
            depth <= MAX_DEPTH + 1,
        ensures
            match r {
                Ok(d) => spec_dict(
                    self.b@,
                    self.hdr(),
                    kp as int,
                    vp as int,
                    n as int,
                    0,
                    depth as int,
                    Map::empty(),
                ) == Ok::<Map<Seq<char>, PValue>, Seq<char>>(d.map()) && d.deep_wf(),
                Err(e) => spec_dict(
                    self.b@,
                    self.hdr(),
                    kp as int,
                    vp as int,
                    n as int,
                    0,
                    depth as int,
                    Map::empty(),
                ) == Err::<Map<Seq<char>, PValue>, Seq<char>>(e@),
            },
        decreases 33 - depth, 3int,
    {
        proof {
            self.lemma_inv();
        }
        let mut d = Dict::new();
        let mut k: usize = 0;
        let rs = self.ref_size;
        assert(d.map() =~= Map::<Seq<char>, PValue>::empty());
        while k < n
            invariant
                self.inv(),
                rs == self.ref_size,
                kp + n * rs <= self.b@.len(),
                vp + n * rs <= self.b@.len(),
                depth <= MAX_DEPTH + 1,
                k <= n,
                d.deep_wf(),
                spec_dict(
                    self.b@,
                    self.hdr(),
                    kp as int,
                    vp as int,
                    n as int,
                    0,
                    depth as int,
                    Map::empty(),
                ) == spec_dict(
                    self.b@,
                    self.hdr(),
                    kp as int,
                    vp as int,
                    n as int,
                    k as int,
                    depth as int,
                    d.map(),
                ),
            decreases n - k,
        {
            assert(k * rs + rs <= n * rs) by (nonlinear_arith)
                requires
                    k < n,
            ;
            let kraw = slice_subrange(self.b, kp + k * rs, kp + k * rs + rs);
            let vraw = slice_subrange(self.b, vp + k * rs, vp + k * rs + rs);
            proof {
                lemma_take_all(kraw@);
                lemma_take_all(vraw@);
            }
            let ki = be_uint(kraw) as usize;
            let vi = be_uint(vraw) as usize;
            assert(ki as int == ref_at(self.b@, self.hdr(), kp as int, k as int));
            assert(vi as int == ref_at(self.b@, self.hdr(), vp as int, k as int));
            let key = match self.object(ki, depth) {
                Ok(Value::String(s)) => s,
                Ok(_) => {
                    return Err(owned("binary plist: non-string dictionary key"));
                },
                Err(e) => {
                    return Err(e);
                },
            };
            let v = match self.object(vi, depth) {
                Ok(v) => v,
                Err(e) => {
                    return Err(e);
                },
            };
            d.insert(key, v);
            k = k + 1;
        }
        Ok(d)
    }

    fn object(&self, index: usize, depth: usize) -> (r: Result<Value, String>)
        requires
            self.inv(),
        ensures
            match r {
                Ok(v) => spec_object(self.b@, self.hdr(), index as int, depth as int) == Ok::<
                    PValue,
                    Seq<char>,
                >(view_value(v)) && value_wf(v),
                Err(e) => spec_object(self.b@, self.hdr(), index as int, depth as int) == Err::<
                    PValue,
                    Seq<char>,
                >(e@),
            },
        decreases 33 - depth, 2int,
    {
        if depth > MAX_DEPTH {
            return Err(owned("binary plist: nesting too deep"));
        }
        let at = match self.offset_of(index) {
            Ok(a) => a,
            Err(e) => {
                return Err(e);
            },
        };
        let marker = self.b[at];
        let kind = marker >> 4;
        assert((marker >> 4) == marker / 16) by (bit_vector);
        if kind == 0xA || kind == 0xC || kind == 0xD {
            self.container(at, depth)
        } else {
            self.scalar(at)
        }
    }

    fn container(&self, at: usize, depth: usize) -> (r: Result<Value, String>)
        requires
            self.inv(),
            at < self.b@.len() - 32,
            depth <= MAX_DEPTH,
        ensures
            match r {
                Ok(v) => spec_container(self.b@, self.hdr(), at as int, depth as int) == Ok::<
                    PValue,
                    Seq<char>,
                >(view_value(v)) && value_wf(v),
                Err(e) => spec_container(self.b@, self.hdr(), at as int, depth as int) == Err::<
                    PValue,
                    Seq<char>,
                >(e@),
            },
        decreases 33 - depth, 1int,
    {
        proof {
            self.lemma_inv();
        }
        let marker = self.b[at];
        let kind = marker >> 4;
        let info = marker & 0x0F;
        assert((marker >> 4) == marker / 16 && (marker & 0x0F) == marker % 16) by (bit_vector);
        let (n, p) = match self.count_after(at, info) {
            Ok(x) => x,
            Err(e) => {
                return Err(e);
            },
        };
        if kind == 0xA || kind == 0xC {
            let span = match n.checked_mul(self.ref_size) {
                Some(x) => x,
                None => {
                    return Err(owned("binary plist: array too long"));
                },
            };
            match self.take(p, span) {
                Ok(_) => {},
                Err(e) => {
                    return Err(e);
                },
            }
            let items = match self.array_items(p, n, depth + 1) {
                Ok(v) => v,
                Err(e) => {
                    return Err(e);
                },
            };
            if kind == 0xA {
                proof {
                    lemma_array_view(items);
                }
                let r = Value::Array(items);
                Ok(r)
            } else {
                Ok(Value::Other)
            }
        } else {
            let span = match n.checked_mul(self.ref_size) {
                Some(x) => x,
                None => {
                    return Err(owned("binary plist: dict too long"));
                },
            };
            match self.take(p, span) {
                Ok(_) => {},
                Err(e) => {
                    return Err(e);
                },
            }
            match self.take(p + span, span) {
                Ok(_) => {},
                Err(e) => {
                    return Err(e);
                },
            }
            let d = match self.dict_items(p, p + span, n, depth + 1) {
                Ok(d) => d,
                Err(e) => {
                    return Err(e);
                },
            };
            Ok(Value::Dict(d))
        }
    }

    fn scalar(&self, at: usize) -> (r: Result<Value, String>)
        requires
            self.inv(),
            at < self.b@.len() - 32,
        ensures
            match r {
                Ok(v) => spec_scalar(self.b@, at as int) == Ok::<PValue, Seq<char>>(view_value(v))
                    && value_wf(v),
                Err(e) => spec_scalar(self.b@, at as int) == Err::<PValue, Seq<char>>(e@),
            },
    {
        proof {
            self.lemma_inv();
        }
        let marker = self.b[at];
        let kind = marker >> 4;
        let info = marker & 0x0F;
        assert((marker >> 4) == marker / 16 && (marker & 0x0F) == marker % 16) by (bit_vector);
        if kind == 0x0 {
            return Ok(
                if info == 0x8 {
                    Value::Bool(false)
                } else if info == 0x9 {
                    Value::Bool(true)
                } else {
                    Value::Other
                },
            );
        }
        if kind == 0x1 {
            let n = (1u32 << (info as u32)) as usize;
            assert((1u32 << (info as u32)) <= 32768 && (1u32 << (info as u32)) >= 1) by (bit_vector)
                requires
                    info < 16,
            ;
            if n > 16 {
                return Err(owned("binary plist: integer too wide"));
            }
            let raw = match self.take(at + 1, n) {
                Ok(s) => s,
                Err(e) => {
                    return Err(e);
                },
            };
            let low_len = if n < 8 {
                n
            } else {
                8
            };
            let low = slice_subrange(raw, raw.len() - low_len, raw.len());
            proof {
                lemma_take_all(low@);
                assert(low@ =~= self.b@.subrange(at + 1 + n - low_len, at + 1 + n));
            }
            let v = be_uint(low);
            return Ok(Value::Integer(v as i64));
        }
        if kind == 0x2 {
            let n = (1u32 << (info as u32)) as usize;
            return match self.take(at + 1, n) {
                Ok(_) => Ok(Value::Other),
                Err(e) => Err(e),
            };
        }
        if kind == 0x3 {
            return match self.take(at + 1, 8) {
                Ok(_) => Ok(Value::Other),
                Err(e) => Err(e),
            };
        }
        if kind == 0x4 || kind == 0x5 {
            let (n, p) = match self.count_after(at, info) {
                Ok(x) => x,
                Err(e) => {
                    return Err(e);
                },
            };
            let raw = match self.take(p, n) {
                Ok(s) => s,
                Err(e) => {
                    return Err(e);
                },
            };
            if kind == 0x4 {
                return Ok(Value::Other);
            }
            let mut s = String::new();
            let mut j: usize = 0;
            let rl = raw.len();
            while j < rl
                invariant
                    rl == raw@.len(),
                    j <= rl,
                    s@ =~= Seq::new(j as nat, |i: int| raw@[i] as char),
                decreases rl - j,
            {
                push_char(&mut s, raw[j] as char);
                j = j + 1;
            }
            assert(s@ =~= latin1(self.b@.subrange(p as int, p + n)));
            return Ok(Value::String(s));
        }
        if kind == 0x6 {
            let (n, p) = match self.count_after(at, info) {
                Ok(x) => x,
                Err(e) => {
                    return Err(e);
                },
            };
            let n2 = match n.checked_mul(2) {
                Some(x) => x,
                None => {
                    return Err(owned("binary plist: string too long"));
                },
            };
            let raw = match self.take(p, n2) {
                Ok(s) => s,
                Err(e) => {
                    return Err(e);
                },
            };
            let mut units: Vec<u16> = Vec::new();
            let mut j: usize = 0;
            while j < n
                invariant
                    j <= n,
                    n2 == 2 * n,
                    raw@.len() == n2,
                    units@ =~= Seq::new(
                        j as nat,
                        |k: int| (raw@[2 * k] * 256 + raw@[2 * k + 1]) as u16,
                    ),
                decreases n - j,
            {
                let u = (raw[2 * j] as u16) * 256 + (raw[2 * j + 1] as u16);
                units.push(u);
                j = j + 1;
            }
            assert(units@ =~= units_at(self.b@, p as int, n as int));
            let s = string_from_utf16_lossy(units.as_slice());
            return Ok(Value::String(s));
        }
        if kind == 0x8 {
            return match self.take(at + 1, info as usize + 1) {
                Ok(_) => Ok(Value::Other),
                Err(e) => Err(e),
            };
        }
        let mut msg = owned("binary plist: unknown marker 0x");
        push_char(&mut msg, hex_digit_char(kind));
        push_char(&mut msg, hex_digit_char(info));
        assert(msg@ =~= "binary plist: unknown marker 0x"@ + hex2(marker));
        Err(msg)
    }
}


// ---------------------------------------------------------------------------
// XML format: reader
// ---------------------------------------------------------------------------

/// `pat` occurs at `i` in `s`.
fn starts_at(s: &[u8], i: usize, pat: &[u8]) -> (r: bool)
    ensures
        r == at_pat(s@, i as int, pat@),
{
    if i > s.len() || s.len() - i < pat.len() {
        return false;
    }
    let mut k: usize = 0;
    let n = s.len();
    while k < pat.len()
        invariant
            n == s@.len(),
            i + pat@.len() <= s@.len(),
            k <= pat@.len(),
            forall|q: int| 0 <= q < k ==> s@[i + q] == pat@[q],
        decreases pat@.len() - k,
    {
        if s[i + k] != pat[k] {
            assert(s@.subrange(i as int, i + pat@.len())[k as int] != pat@[k as int]);
            return false;
        }
        k = k + 1;
    }
    assert(s@.subrange(i as int, i + pat@.len()) =~= pat@);
    true
}

/// First occurrence of `pat` at or after `from`.
fn find(s: &[u8], from: usize, pat: &[u8]) -> (r: Option<usize>)
    requires
        from <= s@.len(),
        pat@.len() > 0,
    ensures
        match r {
            Some(p) => find_spec(s@, from as int, pat@) == Some(p as int),
            None => find_spec(s@, from as int, pat@) is None,
        },
{
    let mut k = from;
    let n = s.len();
    while k < n
        invariant
            n == s@.len(),
            from <= k <= n,
            pat@.len() > 0,
            find_spec(s@, from as int, pat@) == find_spec(s@, k as int, pat@),
        decreases n - k,
    {
        if n - k < pat.len() {
            return None;
        }
        if starts_at(s, k, pat) {
            return Some(k);
        }
        k = k + 1;
    }
    None
}

fn is_ws_byte(c: u8) -> (r: bool)
    ensures
        r == is_ws(c),
{
    c == 0x20 || c == 0x09 || c == 0x0A || c == 0x0C || c == 0x0D
}

struct Xml<'a> {
    s: &'a [u8],
    i: usize,
}

impl<'a> Xml<'a> {
    fn new(s: &'a [u8]) -> (x: Xml<'a>)
        ensures
            x.s@ == s@,
            x.i == xml_start(s@),
            x.i <= s@.len(),
    {
        // A UTF-8 BOM is allowed ahead of the declaration.
        let bom: [u8; 3] = [0xEF, 0xBB, 0xBF];
        assert(bom@ =~= pat_bom());
        let i = if starts_at(s, 0, bom.as_slice()) {
            3
        } else {
            0
        };
        Xml { s, i }
    }

    /// Skip whitespace, the XML declaration, DOCTYPE and comments.
    fn skip_misc(&mut self)
        requires
            old(self).i <= old(self).s@.len(),
        ensures
            final(self).s == old(self).s,
            final(self).i == skip_misc_spec(old(self).s@, old(self).i as int),
            old(self).i <= final(self).i <= final(self).s@.len(),
    {
        let pi_open: [u8; 2] = [0x3C, 0x3F];
        let pi_close: [u8; 2] = [0x3F, 0x3E];
        let comment_open: [u8; 4] = [0x3C, 0x21, 0x2D, 0x2D];
        let comment_close: [u8; 3] = [0x2D, 0x2D, 0x3E];
        let decl_open: [u8; 2] = [0x3C, 0x21];
        let gt: [u8; 1] = [0x3E];
        assert(pi_open@ =~= pat_pi_open());
        assert(pi_close@ =~= pat_pi_close());
        assert(comment_open@ =~= pat_comment_open());
        assert(comment_close@ =~= pat_comment_close());
        assert(decl_open@ =~= pat_decl_open());
        assert(gt@ =~= pat_gt());
        let n = self.s.len();
        loop
            invariant
                self.s == old(self).s,
                n == self.s@.len(),
                old(self).i <= self.i <= n,
                skip_misc_spec(self.s@, old(self).i as int) == skip_misc_spec(
                    self.s@,
                    self.i as int,
                ),
                pi_open@ == pat_pi_open(),
                pi_close@ == pat_pi_close(),
                comment_open@ == pat_comment_open(),
                comment_close@ == pat_comment_close(),
                decl_open@ == pat_decl_open(),
                gt@ == pat_gt(),
            decreases n - self.i,
        {
            let ghost i0 = self.i as int;
            while self.i < n && is_ws_byte(self.s[self.i])
                invariant
                    self.s == old(self).s,
                    n == self.s@.len(),
                    i0 <= self.i <= n,
                    skip_ws_spec(self.s@, i0) == skip_ws_spec(self.s@, self.i as int),
                decreases n - self.i,
            {
                self.i = self.i + 1;
            }
            let j = self.i;
            proof {
                lemma_find_spec(self.s@, j as int, pat_pi_close());
                lemma_find_spec(self.s@, j as int, pat_comment_close());
                lemma_find_spec(self.s@, j as int, pat_gt());
            }
            if starts_at(self.s, j, pi_open.as_slice()) {
                self.i = match find(self.s, j, pi_close.as_slice()) {
                    Some(p) => p + 2,
                    None => n,
                };
            } else if starts_at(self.s, j, comment_open.as_slice()) {
                self.i = match find(self.s, j, comment_close.as_slice()) {
                    Some(p) => p + 3,
                    None => n,
                };
            } else if starts_at(self.s, j, decl_open.as_slice()) {
                self.i = match find(self.s, j, gt.as_slice()) {
                    Some(p) => p + 1,
                    None => n,
                };
            } else {
                return;
            }
        }
    }

    fn open_tag_is(&self, name: &[u8]) -> (r: bool)
        requires
            self.i <= self.s@.len(),
        ensures
            r == open_tag_is_spec(self.s@, self.i as int, name@),
    {
        let lt: [u8; 1] = [0x3C];
        assert(lt@ =~= pat_lt());
        let n = self.s.len();
        if !starts_at(self.s, self.i, lt.as_slice()) {
            return false;
        }
        if !starts_at(self.s, self.i + 1, name) {
            return false;
        }
        let at = self.i + 1 + name.len();
        if at >= self.s.len() {
            return false;
        }
        let c = self.s[at];
        c == 0x20 || c == 0x3E || c == 0x2F || c == 0x0A || c == 0x09
    }

    /// The tag name at the cursor (after `<` or `</`), or None.
    fn tag_name(&self) -> (r: Option<&'a str>)
        requires
            self.i <= self.s@.len(),
        ensures
            match tag_name_spec(self.s@, self.i as int) {
                Some(n) => r matches Some(x) && x@ == n,
                None => r is None,
            },
    {
        let lt: [u8; 1] = [0x3C];
        let close: [u8; 2] = [0x3C, 0x2F];
        assert(lt@ =~= pat_lt());
        assert(close@ =~= pat_close_open());
        if !starts_at(self.s, self.i, lt.as_slice()) {
            return None;
        }
        let start = if starts_at(self.s, self.i, close.as_slice()) {
            2
        } else {
            1
        };
        let n = self.s.len();
        let mut k = self.i + start;
        while k < n
            invariant
                n == self.s@.len(),
                self.i + start <= k <= n,
                name_end(self.s@, self.i + start) == name_end(self.s@, k as int),
                at_pat(self.s@, self.i as int, pat_lt()),
                start == (if at_pat(self.s@, self.i as int, pat_close_open()) {
                    2int
                } else {
                    1int
                }),
            decreases n - k,
        {
            let c = self.s[k];
            if c == 0x3E || c == 0x2F || is_ws_byte(c) {
                assert(name_end(self.s@, k as int) == Some(k as int));
                let raw = slice_subrange(self.s, self.i + start, k);
                let r = str_from_utf8(raw);
                proof {
                    let st: int = if at_pat(self.s@, self.i as int, pat_close_open()) {
                        2
                    } else {
                        1
                    };
                    assert(st == start);
                    assert(name_end(self.s@, self.i + st) == Some(k as int));
                    assert(raw@ == self.s@.subrange(self.i + st, k as int));
                }
                return r;
            }
            k = k + 1;
        }
        None
    }

    /// Skip one tag (`<x ...>`, `</x>` or `<x/>`); reports whether it was
    /// self-closing.
    fn skip_tag(&mut self) -> (r: Result<bool, String>)
        requires
            at_pat(old(self).s@, old(self).i as int, pat_lt()),
        ensures
            final(self).s == old(self).s,
            match r {
                Ok(sc) => skip_tag_spec(old(self).s@, old(self).i as int) == Ok::<
                    (bool, int),
                    Seq<char>,
                >((sc, final(self).i as int)) && old(self).i < final(self).i <= final(self).s@.len(),
                Err(e) => skip_tag_spec(old(self).s@, old(self).i as int) == Err::<
                    (bool, int),
                    Seq<char>,
                >(e@),
            },
    {
        let gt: [u8; 1] = [0x3E];
        assert(gt@ =~= pat_gt());
        proof {
            lemma_find_spec(self.s@, self.i as int, pat_gt());
        }
        let end = match find(self.s, self.i, gt.as_slice()) {
            Some(e) => e,
            None => {
                return Err(owned("xml plist: unterminated tag"));
            },
        };
        proof {
            assert(self.s@.subrange(end as int, end + 1)[0] == self.s@[end as int]);
            assert(self.s@.subrange(self.i as int, self.i + 1)[0] == self.s@[self.i as int]);
            assert(self.s@[end as int] == 0x3E);
            assert(self.s@[self.i as int] == 0x3C);
        }
        let self_closing = self.s[end - 1] == 0x2F;
        self.i = end + 1;
        Ok(self_closing)
    }

    /// Text up to the next `<`, entities decoded.
    fn text(&mut self) -> (r: Result<String, String>)
        requires
            old(self).i <= old(self).s@.len(),
        ensures
            final(self).s == old(self).s,
            match r {
                Ok(t) => text_spec(old(self).s@, old(self).i as int) == Ok::<
                    (Seq<char>, int),
                    Seq<char>,
                >((t@, final(self).i as int)) && old(self).i <= final(self).i <= final(self).s@.len(),
                Err(e) => text_spec(old(self).s@, old(self).i as int) == Err::<
                    (Seq<char>, int),
                    Seq<char>,
                >(e@),
            },
    {
        let lt: [u8; 1] = [0x3C];
        assert(lt@ =~= pat_lt());
        proof {
            lemma_find_spec(self.s@, self.i as int, pat_lt());
        }
        let lts = lt.as_slice();
        assert(lts@ == pat_lt());
        let end = match find(self.s, self.i, lts) {
            Some(e) => e,
            None => {
                return Err(owned("xml plist: unterminated text"));
            },
        };
        assert(self.i <= end);
        let raw = slice_subrange(self.s, self.i, end);
        match str_from_utf8(raw) {
            None => Err(owned("xml plist: text is not UTF-8")),
            Some(t) => {
                self.i = end;
                Ok(decode_entities_exec(t))
            },
        }
    }

    fn expect_close(&mut self, name: &str) -> (r: Result<(), String>)
        requires
            old(self).i <= old(self).s@.len(),
        ensures
            final(self).s == old(self).s,
            match r {
                Ok(_) => expect_close_spec(old(self).s@, old(self).i as int, name@) == Ok::<
                    int,
                    Seq<char>,
                >(final(self).i as int) && old(self).i < final(self).i <= final(self).s@.len(),
                Err(e) => expect_close_spec(old(self).s@, old(self).i as int, name@) == Err::<
                    int,
                    Seq<char>,
                >(e@),
            },
    {
        let close: [u8; 2] = [0x3C, 0x2F];
        assert(close@ =~= pat_close_open());
        self.skip_misc();
        let is_close = starts_at(self.s, self.i, close.as_slice());
        let named = match self.tag_name() {
            Some(n) => str_eq(n, name),
            None => false,
        };
        if is_close && named {
            proof {
                assert(self.s@.subrange(self.i as int, self.i + 1) =~= self.s@.subrange(
                    self.i as int,
                    self.i + 2,
                ).take(1));
            }
            match self.skip_tag() {
                Ok(_) => Ok(()),
                Err(e) => Err(e),
            }
        } else {
            let mut m = owned("xml plist: expected </");
            push_str(&mut m, name);
            push_str(&mut m, ">");
            Err(m)
        }
    }
}



impl<'a> Xml<'a> {
    fn value(&mut self, depth: usize) -> (r: Result<Value, String>)
        requires
            old(self).i <= old(self).s@.len(),
        ensures
            final(self).s == old(self).s,
            match r {
                Ok(v) => value_spec(old(self).s@, old(self).i as int, depth as int) == Ok::<
                    (PValue, int),
                    Seq<char>,
                >((view_value(v), final(self).i as int)) && value_wf(v) && old(self).i < final(self).i <= final(self).s@.len(),
                Err(e) => value_spec(old(self).s@, old(self).i as int, depth as int) == Err::<
                    (PValue, int),
                    Seq<char>,
                >(e@),
            },
        decreases 33 - depth, old(self).s@.len() - old(self).i + 1,
    {
        if depth > MAX_DEPTH {
            return Err(owned("xml plist: nesting too deep"));
        }
        let ghost s = self.s@;
        let ghost i0 = self.i as int;
        self.skip_misc();
        let j = self.i;
        proof {
            lemma_skip_misc(s, i0);
            lemma_skip_tag(s, j as int);
        }
        let name = match self.tag_name() {
            Some(n) => n,
            None => {
                return Err(owned("xml plist: expected an element"));
            },
        };
        assert(at_pat(s, j as int, pat_lt()));
        if str_eq(name, "array") {
            let sc = match self.skip_tag() {
                Ok(b) => b,
                Err(e) => {
                    return Err(e);
                },
            };
            if sc {
                let empty: Vec<Value> = Vec::new();
                proof {
                    lemma_array_view(empty);
                    assert(views(empty@) =~= Seq::<PValue>::empty());
                }
                return Ok(Value::Array(empty));
            }
            let items = match self.items(depth) {
                Ok(items) => items,
                Err(e) => {
                    return Err(e);
                },
            };
            match self.expect_close("array") {
                Ok(_) => {},
                Err(e) => {
                    return Err(e);
                },
            }
            proof {
                lemma_array_view(items);
            }
            return Ok(Value::Array(items));
        }
        if str_eq(name, "dict") {
            let sc = match self.skip_tag() {
                Ok(b) => b,
                Err(e) => {
                    return Err(e);
                },
            };
            if sc {
                let d = Dict::new();
                assert(d.map() =~= Map::<Seq<char>, PValue>::empty());
                assert(d.deep_wf());
                assert(view_value(Value::Dict(d)) == PValue::Dict(Map::<Seq<char>, PValue>::empty()));
                return Ok(Value::Dict(d));
            }
            let d = match self.pairs(depth) {
                Ok(d) => d,
                Err(e) => {
                    return Err(e);
                },
            };
            match self.expect_close("dict") {
                Ok(_) => {},
                Err(e) => {
                    return Err(e);
                },
            }
            return Ok(Value::Dict(d));
        }
        if str_eq(name, "string") || str_eq(name, "date") || str_eq(name, "data") {
            let is_string = str_eq(name, "string");
            let sc = match self.skip_tag() {
                Ok(b) => b,
                Err(e) => {
                    return Err(e);
                },
            };
            if sc {
                return Ok(
                    if is_string {
                        Value::String(String::new())
                    } else {
                        Value::Other
                    },
                );
            }
            let t = match self.text() {
                Ok(t) => t,
                Err(e) => {
                    return Err(e);
                },
            };
            match self.expect_close(name) {
                Ok(_) => {},
                Err(e) => {
                    return Err(e);
                },
            }
            return Ok(
                if is_string {
                    Value::String(t)
                } else {
                    Value::Other
                },
            );
        }
        if str_eq(name, "integer") || str_eq(name, "real") {
            let is_integer = str_eq(name, "integer");
            let sc = match self.skip_tag() {
                Ok(b) => b,
                Err(e) => {
                    return Err(e);
                },
            };
            if sc {
                return Ok(Value::Other);
            }
            let t = match self.text() {
                Ok(t) => t,
                Err(e) => {
                    return Err(e);
                },
            };
            match self.expect_close(name) {
                Ok(_) => {},
                Err(e) => {
                    return Err(e);
                },
            }
            let tv = chars_of(t.as_str());
            let (a, b) = trim_range(&tv);
            return Ok(
                match parse_i64_seg(&tv, a, b) {
                    Some(n) => if is_integer {
                        Value::Integer(n)
                    } else {
                        Value::Other
                    },
                    None => Value::Other,
                },
            );
        }
        if str_eq(name, "true") || str_eq(name, "false") {
            let v = str_eq(name, "true");
            let sc = match self.skip_tag() {
                Ok(b) => b,
                Err(e) => {
                    return Err(e);
                },
            };
            if !sc {
                match self.expect_close(
                    if v {
                        "true"
                    } else {
                        "false"
                    },
                ) {
                    Ok(_) => {},
                    Err(e) => {
                        return Err(e);
                    },
                }
            }
            return Ok(Value::Bool(v));
        }
        let mut m = owned("xml plist: unexpected <");
        push_str(&mut m, name);
        push_str(&mut m, ">");
        Err(m)
    }

    /// Array elements up to the closing tag.
    fn items(&mut self, depth: usize) -> (r: Result<Vec<Value>, String>)
        requires
            old(self).i <= old(self).s@.len(),
            depth <= MAX_DEPTH,
        ensures
            final(self).s == old(self).s,
            match r {
                Ok(items) => items_spec(old(self).s@, old(self).i as int, depth as int, Seq::empty())
                    == Ok::<(Seq<PValue>, int), Seq<char>>((views(items@), final(self).i as int))
                    && (forall|q: int| 0 <= q < items@.len() ==> value_wf(#[trigger] items@[q]))
                    && old(self).i <= final(self).i <= final(self).s@.len(),
                Err(e) => items_spec(old(self).s@, old(self).i as int, depth as int, Seq::empty())
                    == Err::<(Seq<PValue>, int), Seq<char>>(e@),
            },
        decreases 33 - depth, old(self).s@.len() - old(self).i,
    {
        let close: [u8; 2] = [0x3C, 0x2F];
        assert(close@ =~= pat_close_open());
        let ghost s = self.s@;
        let ghost i0 = self.i as int;
        let mut items: Vec<Value> = Vec::new();
        assert(views(items@) =~= Seq::<PValue>::empty());
        let n = self.s.len();
        loop
            invariant
                self.s == old(self).s,
                s == self.s@,
                n == s.len(),
                i0 == old(self).i,
                depth <= MAX_DEPTH,
                close@ == pat_close_open(),
                i0 <= self.i <= n,
                items_spec(s, i0, depth as int, Seq::empty()) == items_spec(
                    s,
                    self.i as int,
                    depth as int,
                    views(items@),
                ),
                forall|q: int| 0 <= q < items@.len() ==> value_wf(#[trigger] items@[q]),
            decreases n - self.i,
        {
            let ghost k = self.i as int;
            self.skip_misc();
            proof {
                lemma_skip_misc(s, k);
            }
            if starts_at(self.s, self.i, close.as_slice()) {
                return Ok(items);
            }
            let ghost before = items@;
            match self.value(depth + 1) {
                Ok(v) => {
                    items.push(v);
                    assert(views(items@) =~= views(before).push(view_value(v)));
                },
                Err(e) => {
                    return Err(e);
                },
            }
        }
    }

    /// Dictionary pairs up to the closing tag.
    fn pairs(&mut self, depth: usize) -> (r: Result<Dict, String>)
        requires
            old(self).i <= old(self).s@.len(),
            depth <= MAX_DEPTH,
        ensures
            final(self).s == old(self).s,
            match r {
                Ok(d) => pairs_spec(old(self).s@, old(self).i as int, depth as int, Map::empty())
                    == Ok::<(Map<Seq<char>, PValue>, int), Seq<char>>(
                    (d.map(), final(self).i as int),
                ) && d.deep_wf() && old(self).i <= final(self).i <= final(self).s@.len(),
                Err(e) => pairs_spec(old(self).s@, old(self).i as int, depth as int, Map::empty())
                    == Err::<(Map<Seq<char>, PValue>, int), Seq<char>>(e@),
            },
        decreases 33 - depth, old(self).s@.len() - old(self).i,
    {
        let close: [u8; 2] = [0x3C, 0x2F];
        assert(close@ =~= pat_close_open());
        let ghost s = self.s@;
        let ghost i0 = self.i as int;
        let mut d = Dict::new();
        assert(d.map() =~= Map::<Seq<char>, PValue>::empty());
        let n = self.s.len();
        loop
            invariant
                self.s == old(self).s,
                s == self.s@,
                n == s.len(),
                i0 == old(self).i,
                depth <= MAX_DEPTH,
                close@ == pat_close_open(),
                i0 <= self.i <= n,
                pairs_spec(s, i0, depth as int, Map::empty()) == pairs_spec(
                    s,
                    self.i as int,
                    depth as int,
                    d.map(),
                ),
                d.deep_wf(),
            decreases n - self.i,
        {
            let ghost k = self.i as int;
            self.skip_misc();
            let j = self.i;
            proof {
                lemma_skip_misc(s, k);
                lemma_skip_tag(s, j as int);
            }
            if starts_at(self.s, self.i, close.as_slice()) {
                return Ok(d);
            }
            let is_key = match self.tag_name() {
                Some(nm) => str_eq(nm, "key"),
                None => false,
            };
            if !is_key {
                return Err(owned("xml plist: expected <key>"));
            }
            let sc = match self.skip_tag() {
                Ok(b) => b,
                Err(e) => {
                    return Err(e);
                },
            };
            let key = if sc {
                String::new()
            } else {
                let t = match self.text() {
                    Ok(t) => t,
                    Err(e) => {
                        return Err(e);
                    },
                };
                match self.expect_close("key") {
                    Ok(_) => {},
                    Err(e) => {
                        return Err(e);
                    },
                }
                t
            };
            let v = match self.value(depth + 1) {
                Ok(v) => v,
                Err(e) => {
                    return Err(e);
                },
            };
            d.insert(key, v);
        }
    }

    fn document(&mut self) -> (r: Result<Value, String>)
        requires
            old(self).i <= old(self).s@.len(),
        ensures
            match r {
                Ok(v) => document_spec(old(self).s@, old(self).i as int) == Ok::<PValue, Seq<char>>(
                    view_value(v),
                ) && value_wf(v),
                Err(e) => document_spec(old(self).s@, old(self).i as int) == Err::<
                    PValue,
                    Seq<char>,
                >(e@),
            },
    {
        let plist_name: [u8; 5] = [0x70, 0x6C, 0x69, 0x73, 0x74];
        assert(plist_name@ =~= pat_plist_name());
        self.skip_misc();
        if !self.open_tag_is(plist_name.as_slice()) {
            return Err(owned("xml plist: no <plist> element"));
        }
        match self.skip_tag() {
            Ok(_) => {},
            Err(e) => {
                return Err(e);
            },
        }
        self.skip_misc();
        let v = match self.value(0) {
            Ok(v) => v,
            Err(e) => {
                return Err(e);
            },
        };
        match self.expect_close("plist") {
            Ok(_) => Ok(v),
            Err(e) => Err(e),
        }
    }
}

/// Parse a property list in either serialization.
pub fn parse(bytes: &[u8]) -> (r: Result<Value, String>)
    ensures
        match r {
            Ok(v) => spec_parse(bytes@) == Ok::<PValue, Seq<char>>(view_value(v)) && value_wf(v),
            Err(e) => spec_parse(bytes@) == Err::<PValue, Seq<char>>(e@),
        },
{
    let magic: [u8; 7] = [0x62, 0x70, 0x6C, 0x69, 0x73, 0x74, 0x30];
    assert(magic@ =~= pat_bplist());
    if starts_at(bytes, 0, magic.as_slice()) {
        match Binary::new(bytes) {
            Ok(b) => b.top(),
            Err(e) => Err(e),
        }
    } else {
        let mut x = Xml::new(bytes);
        x.document()
    }
}

} // verus!
