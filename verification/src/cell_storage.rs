//! Cell storage records of Numbers tables: the byte layouts of the modern
//! (version 5) record and of the pre-BNC layouts (versions 4 and 3). These
//! functions cut a record into its raw fields; what the fields mean (table
//! lookups, styles, number values) is read off by the table converter.
use vstd::prelude::*;
use crate::text_util::{push_str, owned, push_decimal};

verus! {

/// Little-endian `u32` at `at`.
pub open spec fn le_u32(b: Seq<u8>, at: int) -> u32 {
    (b[at] + 256 * b[at + 1] + 65536 * b[at + 2] + 16777216 * b[at + 3]) as u32
}

/// Little-endian `u64` at `at`.
pub open spec fn le_u64(b: Seq<u8>, at: int) -> u64 {
    (le_u32(b, at) + 4294967296 * le_u32(b, at + 4)) as u64
}

fn read_u32(b: &[u8], at: usize) -> (r: u32)
    requires
        at + 4 <= b@.len(),
    ensures
        r == le_u32(b@, at as int),
{
    let _n = b.len();
    (b[at] as u32) + 256 * (b[at + 1] as u32) + 65536 * (b[at + 2] as u32) + 16777216 * (b[at
        + 3] as u32)
}

fn read_u64(b: &[u8], at: usize) -> (r: u64)
    requires
        at + 8 <= b@.len(),
    ensures
        r == le_u64(b@, at as int),
{
    let _n = b.len();
    let lo = read_u32(b, at) as u64;
    let hi = read_u32(b, at + 4) as u64;
    lo + 4294967296 * hi
}

// ---------------------------------------------------------------------------
// Version 5
// ---------------------------------------------------------------------------

/// Bit `k` of the storage flags.
pub open spec fn has_bit(flags: u32, k: u32) -> bool {
    flags & (1u32 << k) != 0
}

/// Size of the `k`-th optional field of a version-5 record: a decimal128,
/// two doubles, then sixteen 32-bit ids.
pub open spec fn v5_size(k: int) -> int {
    if k == 0 {
        16
    } else if k <= 2 {
        8
    } else {
        4
    }
}

/// Where the `k`-th field would start: past the 12-byte header and every
/// earlier field that was present and fit in the record.
pub open spec fn v5_offset(b: Seq<u8>, flags: u32, k: int) -> int
    decreases k,
{
    if k <= 0 {
        12
    } else {
        let o = v5_offset(b, flags, k - 1);
        if has_bit(flags, (k - 1) as u32) && o + v5_size(k - 1) <= b.len() {
            o + v5_size(k - 1)
        } else {
            o
        }
    }
}

/// The start of the `k`-th field when its flag is set and it fits.
pub open spec fn v5_field(b: Seq<u8>, flags: u32, k: int) -> Option<int> {
    let o = v5_offset(b, flags, k);
    if has_bit(flags, k as u32) && o + v5_size(k) <= b.len() {
        Some(o)
    } else {
        None
    }
}

/// The `k`-th field read as a 32-bit id.
pub open spec fn v5_id(b: Seq<u8>, flags: u32, k: int) -> Option<i32> {
    match v5_field(b, flags, k) {
        Some(o) => Some(le_u32(b, o) as i32),
        None => None,
    }
}

/// The `k`-th field read as the bits of a double.
pub open spec fn v5_bits(b: Seq<u8>, flags: u32, k: int) -> Option<u64> {
    match v5_field(b, flags, k) {
        Some(o) => Some(le_u64(b, o)),
        None => None,
    }
}

/// The fields of a version-5 cell storage record. Doubles are given by
/// their bits; the decimal128 by its 16 bytes.
pub struct StorageV5 {
    pub cell_type: u8,
    pub flags: u32,
    pub decimal128: Option<Vec<u8>>,
    pub double_bits: Option<u64>,
    pub seconds_bits: Option<u64>,
    pub string_id: Option<i32>,
    pub rich_id: Option<i32>,
    pub cell_style_id: Option<i32>,
    pub text_style_id: Option<i32>,
    pub cond_style_id: Option<i32>,
    pub cond_rule_id: Option<i32>,
    pub formula_id: Option<i32>,
    pub control_id: Option<i32>,
    pub formula_error_id: Option<i32>,
    pub suggestion_id: Option<i32>,
    pub num_format_id: Option<i32>,
    pub currency_format_id: Option<i32>,
    pub date_format_id: Option<i32>,
    pub duration_format_id: Option<i32>,
    pub text_format_id: Option<i32>,
    pub bool_format_id: Option<i32>,
}

/// `s` holds the fields that record `b` gives.
pub open spec fn v5_matches(s: StorageV5, b: Seq<u8>) -> bool {
    let f = le_u32(b, 8);
    &&& s.cell_type == b[1]
    &&& s.flags == f
    &&& match v5_field(b, f, 0) {
        Some(o) => s.decimal128 matches Some(v) && v@ == b.subrange(o, o + 16),
        None => s.decimal128 is None,
    }
    &&& s.double_bits == v5_bits(b, f, 1)
    &&& s.seconds_bits == v5_bits(b, f, 2)
    &&& s.string_id == v5_id(b, f, 3)
    &&& s.rich_id == v5_id(b, f, 4)
    &&& s.cell_style_id == v5_id(b, f, 5)
    &&& s.text_style_id == v5_id(b, f, 6)
    &&& s.cond_style_id == v5_id(b, f, 7)
    &&& s.cond_rule_id == v5_id(b, f, 8)
    &&& s.formula_id == v5_id(b, f, 9)
    &&& s.control_id == v5_id(b, f, 10)
    &&& s.formula_error_id == v5_id(b, f, 11)
    &&& s.suggestion_id == v5_id(b, f, 12)
    &&& s.num_format_id == v5_id(b, f, 13)
    &&& s.currency_format_id == v5_id(b, f, 14)
    &&& s.date_format_id == v5_id(b, f, 15)
    &&& s.duration_format_id == v5_id(b, f, 16)
    &&& s.text_format_id == v5_id(b, f, 17)
    &&& s.bool_format_id == v5_id(b, f, 18)
}

/// The warning for a record of another storage version.
pub open spec fn v5_version_msg(v: u8) -> Seq<char> {
    "cell storage version "@ + crate::text_util::dec(v as nat) + " unsupported (expected 5)"@
}

proof fn lemma_v5_offset(b: Seq<u8>, flags: u32, k: int)
    ensures
        12 <= v5_offset(b, flags, k),
        v5_offset(b, flags, k) <= b.len() || v5_offset(b, flags, k) == 12,
    decreases k,
{
    if k > 0 {
        lemma_v5_offset(b, flags, k - 1);
    }
}

/// The start of the `k`-th field as an index.
pub open spec fn start_of(b: Seq<u8>, flags: u32, k: int) -> Option<usize> {
    match v5_field(b, flags, k) {
        Some(o) => Some(o as usize),
        None => None,
    }
}

fn v5_starts(b: &[u8], flags: u32) -> (r: Vec<Option<usize>>)
    ensures
        r@.len() == 19,
        forall|k: int| 0 <= k < 19 ==> #[trigger] r@[k] == start_of(b@, flags, k),
{
    let mut starts: Vec<Option<usize>> = Vec::new();
    let mut off: usize = 12;
    let mut k: u32 = 0;
    let n = b.len();
    while k < 19
        invariant
            n == b@.len(),
            k <= 19,
            starts@.len() == k,
            off == v5_offset(b@, flags, k as int),
            12 <= off,
            off <= n || off == 12,
            forall|j: int| 0 <= j < k ==> #[trigger] starts@[j] == start_of(b@, flags, j),
        decreases 19 - k,
    {
        let size: usize = if k == 0 {
            16
        } else if k <= 2 {
            8
        } else {
            4
        };
        if flags & (1u32 << k) != 0 && size <= n && off <= n - size {
            starts.push(Some(off));
            off = off + size;
        } else {
            starts.push(None);
        }
        k = k + 1;
    }
    starts
}

fn id_at(b: &[u8], flags: u32, k: usize, start: Option<usize>) -> (r: Option<i32>)
    requires
        3 <= k < 19,
        start == start_of(b@, flags, k as int),
    ensures
        r == v5_id(b@, flags, k as int),
{
    let _n = b.len();
    proof {
        lemma_v5_offset(b@, flags, k as int);
    }
    match start {
        Some(o) => Some(read_u32(b, o) as i32),
        None => None,
    }
}

fn bits_at(b: &[u8], flags: u32, k: usize, start: Option<usize>) -> (r: Option<u64>)
    requires
        1 <= k <= 2,
        start == start_of(b@, flags, k as int),
    ensures
        r == v5_bits(b@, flags, k as int),
{
    let _n = b.len();
    proof {
        lemma_v5_offset(b@, flags, k as int);
    }
    match start {
        Some(o) => Some(read_u64(b, o)),
        None => None,
    }
}

/// Cut a version-5 cell storage record into its fields: byte 0 is the
/// version, byte 1 the cell type, bytes 8–11 the flags that say which
/// optional fields follow the 12-byte header, in order. A field that does
/// not fit in what is left of the record is absent and takes no room.
pub fn parse_storage_v5(buf: &[u8]) -> (r: Result<StorageV5, String>)
    requires
        buf@.len() >= 1,
        buf@[0] == 5 ==> buf@.len() >= 12,
    ensures
        match r {
            Ok(s) => buf@[0] == 5 && v5_matches(s, buf@),
            Err(m) => buf@[0] != 5 && m@ == v5_version_msg(buf@[0]),
        },
{
    if buf[0] != 5 {
        let mut m = owned("cell storage version ");
        push_decimal(&mut m, buf[0] as u64);
        push_str(&mut m, " unsupported (expected 5)");
        return Err(m);
    }
    let flags = read_u32(buf, 8);
    let st = v5_starts(buf, flags);
    let decimal128 = match st[0] {
        Some(o) => {
            assert(v5_field(buf@, flags, 0) == Some(o as int));
            let _n = buf.len();
            let end = o + 16;
            let mut v: Vec<u8> = Vec::new();
            let mut i = o;
            while i < end
                invariant
                    end == o + 16,
                    o + 16 <= buf@.len(),
                    o <= i <= o + 16,
                    v@ == buf@.subrange(o as int, i as int),
                decreases o + 16 - i,
            {
                v.push(buf[i]);
                assert(v@ =~= buf@.subrange(o as int, i + 1));
                i = i + 1;
            }
            Some(v)
        },
        None => None,
    };
    let s = StorageV5 {
        cell_type: buf[1],
        flags,
        decimal128,
        double_bits: bits_at(buf, flags, 1, st[1]),
        seconds_bits: bits_at(buf, flags, 2, st[2]),
        string_id: id_at(buf, flags, 3, st[3]),
        rich_id: id_at(buf, flags, 4, st[4]),
        cell_style_id: id_at(buf, flags, 5, st[5]),
        text_style_id: id_at(buf, flags, 6, st[6]),
        cond_style_id: id_at(buf, flags, 7, st[7]),
        cond_rule_id: id_at(buf, flags, 8, st[8]),
        formula_id: id_at(buf, flags, 9, st[9]),
        control_id: id_at(buf, flags, 10, st[10]),
        formula_error_id: id_at(buf, flags, 11, st[11]),
        suggestion_id: id_at(buf, flags, 12, st[12]),
        num_format_id: id_at(buf, flags, 13, st[13]),
        currency_format_id: id_at(buf, flags, 14, st[14]),
        date_format_id: id_at(buf, flags, 15, st[15]),
        duration_format_id: id_at(buf, flags, 16, st[16]),
        text_format_id: id_at(buf, flags, 17, st[17]),
        bool_format_id: id_at(buf, flags, 18, st[18]),
    };
    Ok(s)
}

// ---------------------------------------------------------------------------
// Version 3
// ---------------------------------------------------------------------------

/// The flag bit of the `k`-th optional field of a version-3 record: cell
/// style, text style, format, string, double, rich text.
pub open spec fn v3_bit(k: int) -> u64 {
    if k == 0 {
        1
    } else if k == 1 {
        7
    } else if k == 2 {
        2
    } else if k == 3 {
        4
    } else if k == 4 {
        5
    } else {
        9
    }
}

/// Size of the `k`-th optional field of a version-3 record.
pub open spec fn v3_size(k: int) -> int {
    if k == 4 {
        8
    } else {
        4
    }
}

/// Flag bit `k` of a version-3 record.
pub open spec fn has_bit64(flags: u64, k: u64) -> bool {
    flags & (1u64 << k) != 0
}

/// Where the `k`-th field of a version-3 record would start.
pub open spec fn v3_offset(b: Seq<u8>, flags: u64, k: int) -> int
    decreases k,
{
    if k <= 0 {
        12
    } else {
        let o = v3_offset(b, flags, k - 1);
        if has_bit64(flags, v3_bit(k - 1)) && o + v3_size(k - 1) <= b.len() {
            o + v3_size(k - 1)
        } else {
            o
        }
    }
}

/// The start of the `k`-th field of a version-3 record when its flag is
/// set and it fits.
pub open spec fn v3_field(b: Seq<u8>, flags: u64, k: int) -> Option<int> {
    let o = v3_offset(b, flags, k);
    if has_bit64(flags, v3_bit(k)) && o + v3_size(k) <= b.len() {
        Some(o)
    } else {
        None
    }
}

pub open spec fn v3_id(b: Seq<u8>, flags: u64, k: int) -> Option<i32> {
    match v3_field(b, flags, k) {
        Some(o) => Some(le_u32(b, o) as i32),
        None => None,
    }
}

/// The storage flags a version-3 reader knows how to skip.
pub open spec fn v3_known() -> u64 {
    (1u64 << 1u64) | (1u64 << 2u64) | (1u64 << 4u64) | (1u64 << 5u64) | (1u64 << 7u64) | (1u64
        << 9u64)
}

/// The fields of a version-3 cell storage record.
pub struct StorageV3 {
    pub cell_type: u8,
    pub cell_style_id: Option<i32>,
    pub text_style_id: Option<i32>,
    pub format_id: Option<i32>,
    pub string_id: Option<i32>,
    pub double_bits: Option<u64>,
    pub rich_id: Option<i32>,
}

/// The outcome of reading a version-3 record.
pub enum V3Read {
    /// Fewer than 12 bytes.
    TooShort,
    /// Low flag bits the reader does not know: every later field would
    /// shift, so the record is refused; these are the low 16 flag bits.
    UnknownFlags(u64),
    Fields(StorageV3),
}

proof fn lemma_v3_offset(b: Seq<u8>, flags: u64, k: int)
    ensures
        12 <= v3_offset(b, flags, k),
        v3_offset(b, flags, k) <= b.len() || v3_offset(b, flags, k) == 12,
    decreases k,
{
    if k > 0 {
        lemma_v3_offset(b, flags, k - 1);
    }
}

/// Cut a version-3 cell storage record into its fields: byte 2 is the cell
/// type, bytes 4–11 the flags; the optional fields follow in the order
/// cell style, text style, format, string, double, rich text.
pub fn parse_storage_v3(buf: &[u8]) -> (r: V3Read)
    ensures
        buf@.len() < 12 ==> r is TooShort,
        buf@.len() >= 12 ==> {
            let f = le_u64(buf@, 4);
            if f & 0xffff & !v3_known() != 0 {
                r == V3Read::UnknownFlags(f & 0xffff)
            } else {
                r matches V3Read::Fields(s) && s.cell_type == buf@[2] && s.cell_style_id == v3_id(
                    buf@,
                    f,
                    0,
                ) && s.text_style_id == v3_id(buf@, f, 1) && s.format_id == v3_id(buf@, f, 2)
                    && s.string_id == v3_id(buf@, f, 3) && s.double_bits == match v3_field(
                    buf@,
                    f,
                    4,
                ) {
                    Some(o) => Some(le_u64(buf@, o)),
                    None => None,
                } && s.rich_id == v3_id(buf@, f, 5)
            }
        },
{
    let n = buf.len();
    if n < 12 {
        return V3Read::TooShort;
    }
    let flags = read_u64(buf, 4);
    let known: u64 = (1u64 << 1u64) | (1u64 << 2u64) | (1u64 << 4u64) | (1u64 << 5u64) | (1u64
        << 7u64) | (1u64 << 9u64);
    if flags & 0xffff & !known != 0 {
        return V3Read::UnknownFlags(flags & 0xffff);
    }
    let mut off: usize = 12;
    let mut ids: Vec<Option<i32>> = Vec::new();
    let mut dbl: Option<u64> = None;
    let mut k: usize = 0;
    while k < 6
        invariant
            n == buf@.len(),
            n >= 12,
            k <= 6,
            off == v3_offset(buf@, flags, k as int),
            12 <= off <= n,
            ids@.len() == (if k > 4 {
                k - 1
            } else {
                k as int
            }),
            forall|j: int| 0 <= j < k && j != 4 ==> ids@[if j > 4 {
                j - 1
            } else {
                j
            }] == #[trigger] v3_id(buf@, flags, j),
            k > 4 ==> dbl == match v3_field(buf@, flags, 4) {
                Some(o) => Some(le_u64(buf@, o)),
                None => None,
            },
        decreases 6 - k,
    {
        let bit: u64 = if k == 0 {
            1
        } else if k == 1 {
            7
        } else if k == 2 {
            2
        } else if k == 3 {
            4
        } else if k == 4 {
            5
        } else {
            9
        };
        let size: usize = if k == 4 {
            8
        } else {
            4
        };
        let take = flags & (1u64 << bit) != 0 && off <= n - size;
        if k == 4 {
            if take {
                dbl = Some(read_u64(buf, off));
            } else {
                dbl = None;
            }
        } else {
            if take {
                ids.push(Some(read_u32(buf, off) as i32));
            } else {
                ids.push(None);
            }
        }
        if take {
            off = off + size;
        }
        k = k + 1;
    }
    proof {
        assert(v3_id(buf@, flags, 0) == ids@[0]);
        assert(v3_id(buf@, flags, 1) == ids@[1]);
        assert(v3_id(buf@, flags, 2) == ids@[2]);
        assert(v3_id(buf@, flags, 3) == ids@[3]);
        assert(v3_id(buf@, flags, 5) == ids@[4]);
    }
    V3Read::Fields(
        StorageV3 {
            cell_type: buf[2],
            cell_style_id: ids[0],
            text_style_id: ids[1],
            format_id: ids[2],
            string_id: ids[3],
            double_bits: dbl,
            rich_id: ids[4],
        },
    )
}

// ---------------------------------------------------------------------------
// Version 4
// ---------------------------------------------------------------------------

/// The `i`-th little-endian 32-bit word of a record.
pub open spec fn word(b: Seq<u8>, i: int) -> u32 {
    le_u32(b, 4 * i)
}

/// Whole 32-bit words in a record.
pub open spec fn nwords(b: Seq<u8>) -> int {
    (b.len() / 4) as int
}

/// The flag bits (in word 1) of the leading fields of a version-4 record,
/// in the order the fields are laid out from word 3: cell style, text
/// style, format, two unnamed ids, formula key, string key.
pub open spec fn v4_lead_bit(j: int) -> u32 {
    if j == 0 {
        1
    } else if j == 1 {
        7
    } else if j == 2 {
        2
    } else if j == 3 {
        10
    } else if j == 4 {
        11
    } else if j == 5 {
        3
    } else {
        4
    }
}

/// The word the `j`-th leading field sits in: word 3 onwards, one word per
/// leading field whose flag is set.
pub open spec fn v4_lead_index(f1: u32, j: int) -> int
    decreases j,
{
    if j <= 0 {
        3
    } else {
        v4_lead_index(f1, j - 1) + if has_bit(f1, v4_lead_bit(j - 1)) {
            1int
        } else {
            0int
        }
    }
}

/// The `j`-th leading field when its flag is set and its word exists.
pub open spec fn v4_lead(b: Seq<u8>, j: int) -> Option<i32> {
    let f1 = word(b, 1);
    let i = v4_lead_index(f1, j);
    if has_bit(f1, v4_lead_bit(j)) && i < nwords(b) {
        Some(word(b, i) as i32)
    } else {
        None
    }
}

/// Set flag bits among bits 16 + t for t below `k` (the trailing format
/// keys, one word each).
pub open spec fn trail_count(f2: u32, k: int) -> int
    decreases k,
{
    if k <= 0 {
        0
    } else {
        trail_count(f2, k - 1) + if has_bit(f2, (16 + k - 1) as u32) {
            1int
        } else {
            0int
        }
    }
}

/// Where the numeric value of a version-4 record sits: just before its
/// trailing keys, which end the record.
pub open spec fn v4_value_offset(b: Seq<u8>) -> int {
    b.len() - (8 + 4 * trail_count(word(b, 2), 8))
}

/// The fields of a version-4 (pre-BNC) cell storage record. The value is
/// given by the bits of its double; `slot5`, `slot6` and `last_word` are
/// the raw words where rich-text and string keys may sit.
pub struct StorageV4 {
    pub cell_type: u8,
    pub cell_style_id: Option<i32>,
    pub text_style_id: Option<i32>,
    pub format_id: Option<i32>,
    pub formula_key: Option<i32>,
    pub string_key: Option<i32>,
    pub value_bits: Option<u64>,
    pub trailing_keys: Vec<i32>,
    pub slot5: Option<u32>,
    pub slot6: Option<u32>,
    pub last_word: u32,
}

/// The word `i` of a record, when it exists.
pub open spec fn word_opt(b: Seq<u8>, i: int) -> Option<u32> {
    if i < nwords(b) {
        Some(word(b, i))
    } else {
        None
    }
}

/// `s` holds the fields that version-4 record `b` gives.
pub open spec fn v4_matches(s: StorageV4, b: Seq<u8>) -> bool {
    let vo = v4_value_offset(b);
    let nt = trail_count(word(b, 2), 8);
    &&& s.cell_type == b[1]
    &&& s.cell_style_id == v4_lead(b, 0)
    &&& s.text_style_id == v4_lead(b, 1)
    &&& s.format_id == v4_lead(b, 2)
    &&& s.formula_key == v4_lead(b, 5)
    &&& s.string_key == v4_lead(b, 6)
    &&& s.value_bits == if vo >= 0 {
        Some(le_u64(b, vo))
    } else {
        None
    }
    &&& s.trailing_keys@.len() == (if vo >= 0 {
        nt
    } else {
        0
    })
    &&& forall|i: int|
        0 <= i < s.trailing_keys@.len() ==> #[trigger] s.trailing_keys@[i] == le_u32(b, vo + 8 + 4 * i) as i32
    &&& s.slot5 == word_opt(b, 5)
    &&& s.slot6 == word_opt(b, 6)
    &&& s.last_word == word(b, nwords(b) - 1)
}

fn word_at(b: &[u8], i: usize) -> (r: Option<u32>)
    ensures
        r == word_opt(b@, i as int),
{
    let n = b.len();
    if i < n / 4 {
        Some(read_u32(b, 4 * i))
    } else {
        None
    }
}

/// Cut a version-4 (pre-BNC) cell storage record into its fields; `None`
/// for a record shorter than 16 bytes. Byte 1 is the cell type; word 1
/// flags the leading fields laid out from word 3; bits 16–23 of word 2
/// count the trailing format keys that end the record, with the value's
/// 8 bytes just before them.
pub fn parse_storage_v4(buf: &[u8]) -> (r: Option<StorageV4>)
    ensures
        match r {
            None => buf@.len() < 16,
            Some(s) => buf@.len() >= 16 && v4_matches(s, buf@),
        },
{
    let n = buf.len();
    if n < 16 {
        return None;
    }
    let nw = n / 4;
    let f1 = read_u32(buf, 4);
    let f2 = read_u32(buf, 8);
    let mut lead: Vec<Option<i32>> = Vec::new();
    let mut idx: usize = 3;
    let mut j: usize = 0;
    while j < 7
        invariant
            n == buf@.len(),
            n >= 16,
            nw == n / 4,
            f1 == word(buf@, 1),
            j <= 7,
            idx == v4_lead_index(f1, j as int),
            idx <= 3 + j,
            lead@.len() == j,
            forall|t: int| 0 <= t < j ==> #[trigger] lead@[t] == v4_lead(buf@, t),
        decreases 7 - j,
    {
        let bit: u32 = if j == 0 {
            1
        } else if j == 1 {
            7
        } else if j == 2 {
            2
        } else if j == 3 {
            10
        } else if j == 4 {
            11
        } else if j == 5 {
            3
        } else {
            4
        };
        if f1 & (1u32 << bit) != 0 {
            if idx < nw {
                lead.push(Some(read_u32(buf, 4 * idx) as i32));
            } else {
                lead.push(None);
            }
            idx = idx + 1;
        } else {
            lead.push(None);
        }
        j = j + 1;
    }
    let mut nt: usize = 0;
    let mut t: u32 = 0;
    while t < 8
        invariant
            f2 == word(buf@, 2),
            t <= 8,
            nt == trail_count(f2, t as int),
            nt <= t,
        decreases 8 - t,
    {
        if f2 & (1u32 << (16 + t)) != 0 {
            nt = nt + 1;
        }
        t = t + 1;
    }
    let need = 8 + 4 * nt;
    let mut keys: Vec<i32> = Vec::new();
    let value_bits = if need <= n {
        let vo = n - need;
        let mut i: usize = 0;
        while i < nt
            invariant
                n == buf@.len(),
                vo + 8 + 4 * nt == n,
                i <= nt,
                keys@.len() == i,
                forall|q: int| 0 <= q < i ==> #[trigger] keys@[q] == le_u32(buf@, vo + 8 + 4 * q) as i32,
            decreases nt - i,
        {
            keys.push(read_u32(buf, vo + 8 + 4 * i) as i32);
            i = i + 1;
        }
        Some(read_u64(buf, vo))
    } else {
        None
    };
    let slot5 = word_at(buf, 5);
    let slot6 = word_at(buf, 6);
    let last_word = read_u32(buf, 4 * (nw - 1));
    Some(
        StorageV4 {
            cell_type: buf[1],
            cell_style_id: lead[0],
            text_style_id: lead[1],
            format_id: lead[2],
            formula_key: lead[5],
            string_key: lead[6],
            value_bits,
            trailing_keys: keys,
            slot5,
            slot6,
            last_word,
        },
    )
}

} // verus!
