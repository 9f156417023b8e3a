//! Formula text pieces: spreadsheet column and cell names, range joining,
//! table uuids written as strings, and the document-wide table names that
//! cross-table references are printed with.
use vstd::prelude::*;
use vstd::utf8::*;
use std::collections::HashMap;
use crate::text_util::{push_char, push_str, chars_of, string_of, dec_int, push_decimal_i64, owned, str_eq};
use crate::plist_lite::{pow256, lemma_pow256_mono};
use crate::pb::{Msg, vvarint, vmsg, vget, vall, deep_ref_spec, refs_of, lemma_vall};
use crate::loader::{Loaded, Record, RecordView, record_view, loaded_view};
use crate::ctx::{vstring, loaded_msg};
use vstd::std_specs::iter::IteratorSpec;
use crate::wire::{WireSpec, fields_view};

verus! {

/// The capital letter `A + d`.
pub open spec fn letter(d: int) -> char {
    (65 + d) as char
}

/// Spreadsheet name of the 0-based column `c`: A, B, …, Z, AA, AB, ….
pub open spec fn col_name(c: nat) -> Seq<char>
    decreases c,
{
    if c < 26 {
        seq![letter(c as int)]
    } else {
        col_name((c / 26 - 1) as nat) + seq![letter((c % 26) as int)]
    }
}

fn push_column(s: &mut String, c: i64)
    requires
        c >= 0,
    ensures
        final(s)@ == old(s)@ + col_name(c as nat),
    decreases c,
{
    if c >= 26 {
        push_column(s, c / 26 - 1);
    }
    let d = (c % 26) as u8;
    push_char(s, (65u8 + d) as char);
    assert(final(s)@ =~= old(s)@ + col_name(c as nat));
}

/// 0-based column → A, B, …, Z, AA, ….
pub fn column_name(c: i64) -> (r: String)
    requires
        c >= 0,
    ensures
        r@ == col_name(c as nat),
{
    let mut s = String::new();
    push_column(&mut s, c);
    assert(s@ =~= col_name(c as nat));
    s
}

proof fn lemma_col_name_len(c: nat)
    ensures
        col_name(c).len() >= 1,
        c >= 26 ==> col_name(c).len() >= 2,
    decreases c,
{
    if c >= 26 {
        lemma_col_name_len((c / 26 - 1) as nat);
    }
}

/// Distinct columns have distinct names.
pub proof fn lemma_column_name_injective(a: nat, b: nat)
    requires
        col_name(a) == col_name(b),
    ensures
        a == b,
    decreases a,
{
    lemma_col_name_len(a);
    lemma_col_name_len(b);
    if a < 26 && b < 26 {
        assert(col_name(a)[0] == letter(a as int));
        assert(col_name(b)[0] == letter(b as int));
        assert((65 + a) as char as int == 65 + a);
        assert((65 + b) as char as int == 65 + b);
    } else if a >= 26 && b >= 26 {
        let pa = (a / 26 - 1) as nat;
        let pb = (b / 26 - 1) as nat;
        let na = col_name(a);
        let nb = col_name(b);
        assert(na.last() == letter((a % 26) as int));
        assert(nb.last() == letter((b % 26) as int));
        assert((65 + a % 26) as char as int == 65 + a % 26);
        assert((65 + b % 26) as char as int == 65 + b % 26);
        assert(na.drop_last() =~= col_name(pa));
        assert(nb.drop_last() =~= col_name(pb));
        lemma_column_name_injective(pa, pb);
    }
}

/// A non-empty run of capital letters A to Z.
pub open spec fn is_column_letters(s: Seq<char>) -> bool {
    s.len() >= 1 && forall|i: int| 0 <= i < s.len() ==> 'A' <= #[trigger] s[i] <= 'Z'
}

/// Every column name is a run of capital letters.
pub proof fn lemma_column_name_letters(c: nat)
    ensures
        is_column_letters(col_name(c)),
    decreases c,
{
    if c >= 26 {
        let p = (c / 26 - 1) as nat;
        lemma_column_name_letters(p);
        assert forall|i: int| 0 <= i < col_name(c).len() implies 'A' <= #[trigger] col_name(c)[i] <= 'Z' by {
            if i < col_name(p).len() {
                assert(col_name(c)[i] == col_name(p)[i]);
            }
        }
    }
}

/// Every run of capital letters names exactly one column: with
/// `lemma_column_name_injective` and `lemma_column_name_letters`, column
/// names are a one-to-one correspondence between columns and such runs.
pub proof fn lemma_column_name_onto(s: Seq<char>) -> (c: nat)
    requires
        is_column_letters(s),
    ensures
        col_name(c) == s,
    decreases s.len(),
{
    let d = s.last() as int - 65;
    assert(s[s.len() - 1] == s.last());
    assert(0 <= d < 26);
    assert(letter(d) == s.last());
    if s.len() == 1 {
        let c = d as nat;
        assert(col_name(c) =~= s);
        c
    } else {
        let p = s.drop_last();
        assert forall|i: int| 0 <= i < p.len() implies 'A' <= #[trigger] p[i] <= 'Z' by {
            assert(p[i] == s[i]);
        }
        let cp = lemma_column_name_onto(p);
        let c = ((cp + 1) * 26 + d) as nat;
        vstd::arithmetic::div_mod::lemma_fundamental_div_mod_converse(c as int, 26, (cp + 1) as int, d);
        assert(c / 26 - 1 == cp);
        assert(c % 26 == d);
        assert(col_name(c) =~= s);
        c
    }
}

/// The `$` marking an absolute coordinate, or nothing.
pub open spec fn dollar(abs: bool) -> Seq<char> {
    if abs {
        seq!['$']
    } else {
        Seq::empty()
    }
}

/// A1-style name of the cell at 0-based (row, col).
pub open spec fn cell_name_spec(row: int, col: nat, row_abs: bool, col_abs: bool) -> Seq<char> {
    dollar(col_abs) + col_name(col) + dollar(row_abs) + dec_int(row + 1)
}

fn push_dollar(s: &mut String, abs: bool)
    ensures
        final(s)@ == old(s)@ + dollar(abs),
{
    if abs {
        push_char(s, '$');
    } else {
        assert(old(s)@ + dollar(abs) =~= old(s)@);
    }
}

/// A1-style cell name, `$` before an absolute column or row.
pub fn cell_name(row: i64, col: i64, row_abs: bool, col_abs: bool) -> (r: String)
    requires
        col >= 0,
        row < i64::MAX,
    ensures
        r@ == cell_name_spec(row as int, col as nat, row_abs, col_abs),
{
    let mut s = String::new();
    push_dollar(&mut s, col_abs);
    push_column(&mut s, col);
    push_dollar(&mut s, row_abs);
    push_decimal_i64(&mut s, row + 1);
    assert(s@ =~= cell_name_spec(row as int, col as nat, row_abs, col_abs));
    s
}

/// `::` starts at index `i` of `a`.
pub open spec fn is_sep_at(a: Seq<char>, i: int) -> bool {
    0 <= i && i + 1 < a.len() && a[i] == ':' && a[i + 1] == ':'
}

/// The last start of `::` before index `k`.
pub open spec fn rfind_sep(a: Seq<char>, k: int) -> Option<int>
    decreases k,
{
    if k <= 0 {
        None
    } else if is_sep_at(a, k - 1) {
        Some(k - 1)
    } else {
        rfind_sep(a, k - 1)
    }
}

/// Two references joined into a range `a:b`; when `b` repeats the table
/// prefix of `a` (everything up to and including its last `::`), that
/// prefix is written once.
pub open spec fn join_range_spec(a: Seq<char>, b: Seq<char>) -> Seq<char> {
    match rfind_sep(a, a.len() as int) {
        Some(p) => if b.len() >= p + 2 && b.take(p + 2) == a.take(p + 2) {
            a + seq![':'] + b.skip(p + 2)
        } else {
            a + seq![':'] + b
        },
        None => a + seq![':'] + b,
    }
}

proof fn lemma_rfind_sep(a: Seq<char>, k: int)
    requires
        k <= a.len(),
    ensures
        match rfind_sep(a, k) {
            Some(p) => 0 <= p < k && is_sep_at(a, p) && forall|j: int| p < j < k ==> !is_sep_at(a, j),
            None => forall|j: int| 0 <= j < k ==> !is_sep_at(a, j),
        },
    decreases k,
{
    if k > 0 {
        lemma_rfind_sep(a, k - 1);
    }
}

/// Join two references into a range, hoisting a shared `Table::` prefix.
pub fn join_range(a: String, b: String) -> (r: String)
    ensures
        r@ == join_range_spec(a@, b@),
{
    let ghost ga = a@;
    let ghost gb = b@;
    let va = chars_of(a.as_str());
    let vb = chars_of(b.as_str());
    let n = va.len();
    let mut k = n;
    while k > 0
        invariant
            k <= n,
            n == va@.len(),
            va@ == ga,
            rfind_sep(ga, n as int) == rfind_sep(ga, k as int),
        ensures
            k == 0 || (k < n && va@[k - 1] == ':' && va@[k as int] == ':'),
            rfind_sep(ga, n as int) == rfind_sep(ga, k as int),
        decreases k,
    {
        if k < n && va[k - 1] == ':' && va[k] == ':' {
            break;
        }
        k = k - 1;
    }
    let mut out = a;
    push_char(&mut out, ':');
    if k >= 1 && k < n && va[k - 1] == ':' && va[k] == ':' {
        let p = k - 1;
        assert(is_sep_at(ga, p as int));
        assert(rfind_sep(ga, k as int) == Some(p as int));
        let m = p + 2;
        let mut same = vb.len() >= m;
        let mut i: usize = 0;
        if same {
            while i < m && same
                invariant
                    m <= va@.len(),
                    m <= vb@.len(),
                    i <= m,
                    forall|j: int| 0 <= j < i ==> va@[j] == vb@[j],
                    !same ==> i < m && va@[i as int] != vb@[i as int],
                decreases m - i + (if same { 1int } else { 0int }),
            {
                if va[i] != vb[i] {
                    same = false;
                } else {
                    i = i + 1;
                }
            }
        }
        if same {
            assert(gb.take(m as int) =~= ga.take(m as int));
            let rest = string_of(vb.as_slice(), m, vb.len());
            push_str(&mut out, rest.as_str());
            assert(out@ =~= join_range_spec(ga, gb));
        } else {
            proof {
                if gb.len() >= m {
                    assert(gb.take(m as int)[i as int] != ga.take(m as int)[i as int]);
                }
            }
            push_str(&mut out, b.as_str());
            assert(out@ =~= join_range_spec(ga, gb));
        }
    } else {
        assert(k == 0);
        assert(rfind_sep(ga, n as int) is None);
        push_str(&mut out, b.as_str());
        assert(out@ =~= join_range_spec(ga, gb));
    }
    out
}


/// Value of an ASCII hexadecimal digit, either case.
pub open spec fn hex_val(b: u8) -> Option<int> {
    if 48 <= b <= 57 {
        Some(b - 48)
    } else if 65 <= b <= 70 {
        Some(b - 55)
    } else if 97 <= b <= 102 {
        Some(b - 87)
    } else {
        None
    }
}

/// The byte that a two-character hexadecimal field denotes, read as an
/// unsigned number in base 16: two digits, either case, or a `+` sign
/// followed by one digit.
pub open spec fn hex_pair(a: u8, b: u8) -> Option<int> {
    if a == 43 && hex_val(b) is Some {
        hex_val(b)
    } else if hex_val(a) is Some && hex_val(b) is Some {
        Some(16 * hex_val(a)->0 + hex_val(b)->0)
    } else {
        None
    }
}

/// The `k`-th two-byte field of `h`.
pub open spec fn pair_at(h: Seq<u8>, k: int) -> Option<int> {
    hex_pair(h[2 * k], h[2 * k + 1])
}

/// The first `n` two-byte fields of `h` all denote a byte.
pub open spec fn pairs_ok(h: Seq<u8>, n: int) -> bool {
    forall|j: int| 0 <= j < n ==> (#[trigger] pair_at(h, j)) is Some
}

/// A uuid string without its dashes.
pub open spec fn dashless(s: Seq<char>) -> Seq<char> {
    s.filter(|c: char| c != '-')
}

/// The UTF-8 bytes of a uuid string without its dashes.
pub open spec fn uuid_hex(s: Seq<char>) -> Seq<u8> {
    encode_utf8(dashless(s))
}

/// Little-endian value of the byte fields `k..16` of `h`.
pub open spec fn le_from(h: Seq<u8>, k: int) -> nat
    decreases 16 - k,
{
    if k < 0 || k >= 16 {
        0
    } else {
        (pair_at(h, k)->0) as nat + 256 * le_from(h, k + 1)
    }
}

/// The dashless string of 32 bytes, cut into two-byte fields, would be cut
/// inside a character before a field that fails to read: slicing a string
/// off a character boundary panics.
pub open spec fn uuid_panics(h: Seq<u8>) -> bool {
    h.len() == 32 && exists|i: int|
        0 <= i < 15 && pairs_ok(h, i) && is_continuation_byte(#[trigger] h[2 * i + 2])
}

/// The value of a `table_id` uuid string: its 16 bytes, written as 32 hex
/// digits with any dashes, read as one little-endian number (the four
/// little-endian 32-bit words of a CFUUID, the first the least significant).
pub open spec fn uuid_spec(s: Seq<char>) -> Option<u128> {
    let h = uuid_hex(s);
    if h.len() != 32 {
        None
    } else if pairs_ok(h, 16) {
        Some(le_from(h, 0) as u128)
    } else {
        None
    }
}

fn hex_val_exec(b: u8) -> (r: Option<u8>)
    ensures
        match hex_val(b) {
            Some(v) => r == Some(v as u8) && v < 16,
            None => r is None,
        },
{
    if 48 <= b && b <= 57 {
        Some(b - 48)
    } else if 65 <= b && b <= 70 {
        Some(b - 55)
    } else if 97 <= b && b <= 102 {
        Some(b - 87)
    } else {
        None
    }
}

fn hex_pair_exec(a: u8, b: u8) -> (r: Option<u8>)
    ensures
        match hex_pair(a, b) {
            Some(v) => r == Some(v as u8) && 0 <= v < 256,
            None => r is None,
        },
{
    if a == 43 {
        return hex_val_exec(b);
    }
    match (hex_val_exec(a), hex_val_exec(b)) {
        (Some(x), Some(y)) => Some(16 * x + y),
        _ => None,
    }
}

proof fn lemma_le_from_bound(h: Seq<u8>, k: int)
    requires
        0 <= k <= 16,
        h.len() == 32,
        pairs_ok(h, 16),
    ensures
        le_from(h, k) < pow256((16 - k) as nat),
    decreases 16 - k,
{
    if k < 16 {
        lemma_le_from_bound(h, k + 1);
        assert(pair_at(h, k) is Some);
        let v = hex_pair(h[2 * k], h[2 * k + 1]);
        assert(v->0 < 256);
        assert(pow256((16 - k) as nat) == 256 * pow256((16 - (k + 1)) as nat));
    }
}

/// A `TableModelArchive.table_id` string ("BF6BAE7D-1E29-4444-8CBA-…") →
/// the same u128 that a CFUUID's four little-endian words give.
pub fn uuid_from_string(s: &str) -> (r: Option<u128>)
    requires
        !uuid_panics(uuid_hex(s@)),
    ensures
        r == uuid_spec(s@),
{
    let v = chars_of(s);
    let mut hex = String::new();
    let mut i: usize = 0;
    while i < v.len()
        invariant
            i <= v@.len(),
            v@ == s@,
            hex@ == dashless(v@.take(i as int)),
        decreases v@.len() - i,
    {
        let c = v[i];
        assert(v@.take(i + 1).drop_last() =~= v@.take(i as int));
        assert(v@.take(i + 1).last() == c);
        assert(dashless(v@.take(i + 1)) == (if c != '-' {
            dashless(v@.take(i as int)).push(c)
        } else {
            dashless(v@.take(i as int))
        })) by {
            reveal(Seq::filter);
        }
        if c != '-' {
            push_char(&mut hex, c);
        }
        i = i + 1;
    }
    assert(v@.take(i as int) =~= s@);
    let h = hex.as_str().as_bytes();
    assert(h@ == uuid_hex(s@));
    if h.len() != 32 {
        return None;
    }
    let mut bytes: Vec<u8> = Vec::new();
    let mut j: usize = 0;
    while j < 16
        invariant
            h@.len() == 32,
            h@ == uuid_hex(s@),
            j <= 16,
            bytes@.len() == j,
            pairs_ok(h@, j as int),
            forall|t: int| 0 <= t < j ==> bytes@[t] == (#[trigger] pair_at(h@, t))->0,
        decreases 16 - j,
    {
        match hex_pair_exec(h[2 * j], h[2 * j + 1]) {
            None => {
                assert(pair_at(h@, j as int) is None);
                return None;
            },
            Some(x) => {
                bytes.push(x);
                assert(pair_at(h@, j as int) is Some);
            },
        }
        j = j + 1;
    }
    let mut acc: u128 = 0;
    let mut k: usize = 16;
    proof {
        reveal_with_fuel(pow256, 17);
        assert(pow256(16) == 0x1_0000_0000_0000_0000_0000_0000_0000_0000);
    }
    while k > 0
        invariant
            h@.len() == 32,
            pairs_ok(h@, 16),
            bytes@.len() == 16,
            forall|t: int| 0 <= t < 16 ==> bytes@[t] == (#[trigger] pair_at(h@, t))->0,
            k <= 16,
            acc == le_from(h@, k as int),
            pow256(16) == 0x1_0000_0000_0000_0000_0000_0000_0000_0000,
        decreases k,
    {
        k = k - 1;
        proof {
            lemma_le_from_bound(h@, k + 1);
            lemma_le_from_bound(h@, k as int);
            lemma_pow256_mono((16 - k) as nat, 16);
            assert(pair_at(h@, k as int) is Some);
        }
        acc = acc * 256 + bytes[k] as u128;
    }
    Some(acc)
}


broadcast use vstd::std_specs::hash::group_hash_axioms;

/// How many times `name` was counted: the last entry for it, or 0.
pub open spec fn count_of(s: Seq<(String, usize)>, name: Seq<char>) -> nat
    decreases s.len(),
{
    if s.len() == 0 {
        0
    } else if s.last().0@ == name {
        s.last().1 as nat
    } else {
        count_of(s.drop_last(), name)
    }
}

/// The position of the last entry for `name` before `k`.
pub open spec fn last_entry(s: Seq<(String, usize)>, name: Seq<char>, k: int) -> Option<int>
    decreases k,
{
    if k <= 0 {
        None
    } else if s[k - 1].0@ == name {
        Some(k - 1)
    } else {
        last_entry(s, name, k - 1)
    }
}

proof fn lemma_last_entry(s: Seq<(String, usize)>, name: Seq<char>, k: int)
    requires
        0 <= k <= s.len(),
    ensures
        match last_entry(s, name, k) {
            Some(i) => 0 <= i < k && s[i].0@ == name && count_of(s.take(k), name) == s[i].1
                && forall|j: int| i < j < k ==> s[j].0@ != name,
            None => count_of(s.take(k), name) == 0 && forall|j: int| 0 <= j < k ==> s[j].0@ != name,
        },
    decreases k,
{
    if k > 0 {
        assert(s.take(k).drop_last() =~= s.take(k - 1));
        lemma_last_entry(s, name, k - 1);
    }
}

proof fn lemma_count_update(s: Seq<(String, usize)>, i: int, e: (String, usize), q: Seq<char>)
    requires
        0 <= i < s.len(),
        e.0@ == s[i].0@,
        forall|j: int| i < j < s.len() ==> s[j].0@ != e.0@,
    ensures
        count_of(s.update(i, e), q) == if q == e.0@ {
            e.1 as nat
        } else {
            count_of(s, q)
        },
    decreases s.len(),
{
    let t = s.update(i, e);
    if i == s.len() - 1 {
        assert(t.drop_last() =~= s.drop_last());
    } else {
        assert(t.drop_last() =~= s.drop_last().update(i, e));
        lemma_count_update(s.drop_last(), i, e, q);
    }
}

fn find_entry(s: &Vec<(String, usize)>, name: &str) -> (r: Option<usize>)
    ensures
        match r {
            Some(i) => last_entry(s@, name@, s@.len() as int) == Some(i as int),
            None => last_entry(s@, name@, s@.len() as int) is None,
        },
{
    let mut k = s.len();
    while k > 0
        invariant
            k <= s@.len(),
            last_entry(s@, name@, s@.len() as int) == last_entry(s@, name@, k as int),
        decreases k,
    {
        if str_eq(s[k - 1].0.as_str(), name) {
            return Some(k - 1);
        }
        k = k - 1;
    }
    None
}

fn count_lookup(s: &Vec<(String, usize)>, name: &str) -> (r: usize)
    ensures
        r == count_of(s@, name@),
{
    proof {
        lemma_last_entry(s@, name@, s@.len() as int);
        assert(s@.take(s@.len() as int) =~= s@);
    }
    match find_entry(s, name) {
        Some(i) => {
            assert(last_entry(s@, name@, s@.len() as int) == Some(i as int));
            s[i].1
        },
        None => 0,
    }
}

fn count_bump(s: &mut Vec<(String, usize)>, name: &str)
    requires
        forall|j: int| 0 <= j < old(s)@.len() ==> (#[trigger] old(s)@[j]).1 < usize::MAX,
    ensures
        forall|q: Seq<char>| #[trigger] count_of(final(s)@, q) == if q == name@ {
            count_of(old(s)@, q) + 1
        } else {
            count_of(old(s)@, q)
        },
        final(s)@.len() <= old(s)@.len() + 1,
        forall|j: int| 0 <= j < final(s)@.len() ==> (#[trigger] final(s)@[j]).1 <= (if j < old(s)@.len() {
            old(s)@[j].1 + 1
        } else {
            1
        }),
{
    proof {
        lemma_last_entry(s@, name@, s@.len() as int);
        assert(s@.take(s@.len() as int) =~= s@);
    }
    match find_entry(s, name) {
        Some(i) => {
            assert(last_entry(s@, name@, s@.len() as int) == Some(i as int));
            let n = s[i].1 + 1;
            let k = owned(s[i].0.as_str());
            let ghost before = s@;
            s.set(i, (k, n));
            proof {
                assert forall|q: Seq<char>| #[trigger] count_of(s@, q) == if q == name@ {
                    count_of(before, q) + 1
                } else {
                    count_of(before, q)
                } by {
                    lemma_count_update(before, i as int, (k, n), q);
                }
            }
        },
        None => {
            let ghost before = s@;
            s.push((owned(name), 1));
            assert(s@.drop_last() =~= before);
        },
    }
}

/// One table as the document's sheets list it: the sheet's name, the
/// table's name, its `table_id` string and its haunted-owner uuid.
pub struct TableRecord {
    pub sheet: String,
    pub name: String,
    pub table_id: Option<String>,
    pub haunted: Option<u128>,
}

/// Document-wide reference targets, built once per document.
pub struct FormulaNames {
    /// Table base-owner uuid → (sheet name, table name).
    tables: HashMap<u128, (String, String)>,
    /// Haunted-owner uuid → base-owner uuid. Cross-table references name
    /// the base uuid.
    base_of_haunted: HashMap<u128, u128>,
    /// Table name → occurrences in the document (unique names need no
    /// sheet prefix).
    name_counts: Vec<(String, usize)>,
}

/// The base uuid for `haunted` under `m`: its image, or itself.
pub open spec fn base_in(m: Map<u128, u128>, haunted: u128) -> u128 {
    if m.contains_key(haunted) {
        m[haunted]
    } else {
        haunted
    }
}

/// Haunted → base mappings, a later pair for the same uuid replacing an
/// earlier one.
pub open spec fn haunted_map(owners: Seq<(u128, u128)>) -> Map<u128, u128>
    decreases owners.len(),
{
    if owners.len() == 0 {
        Map::empty()
    } else {
        haunted_map(owners.drop_last()).insert(owners.last().0, owners.last().1)
    }
}

/// The uuid of a table's `table_id` string, when it has one that reads.
pub open spec fn id_key(r: TableRecord) -> Option<u128> {
    match r.table_id {
        Some(t) => uuid_spec(t@),
        None => None,
    }
}

/// A table is named under at least one uuid.
pub open spec fn is_keyed(r: TableRecord) -> bool {
    id_key(r) is Some || r.haunted is Some
}

/// The (sheet, table) names of a record.
pub open spec fn entry_of(r: TableRecord) -> (Seq<char>, Seq<char>) {
    (r.sheet@, r.name@)
}

/// The uuid → (sheet, table) map that the records give, in order: the
/// `table_id` uuid, then the base uuid of the haunted owner, then the
/// haunted uuid itself, a later key replacing an earlier one.
pub open spec fn tables_map(recs: Seq<TableRecord>, m: Map<u128, u128>) -> Map<
    u128,
    (Seq<char>, Seq<char>),
>
    decreases recs.len(),
{
    if recs.len() == 0 {
        Map::empty()
    } else {
        let prev = tables_map(recs.drop_last(), m);
        let r = recs.last();
        let e = entry_of(r);
        let t1 = match id_key(r) {
            Some(u) => prev.insert(u, e),
            None => prev,
        };
        match r.haunted {
            Some(h) => t1.insert(base_in(m, h), e).insert(h, e),
            None => t1,
        }
    }
}

/// How many keyed tables carry `name`.
pub open spec fn name_count(recs: Seq<TableRecord>, name: Seq<char>) -> nat
    decreases recs.len(),
{
    if recs.len() == 0 {
        0
    } else {
        name_count(recs.drop_last(), name) + if is_keyed(recs.last()) && recs.last().name@
            == name {
            1nat
        } else {
            0nat
        }
    }
}

/// No record's `table_id` would make `uuid_from_string` panic.
pub open spec fn ids_readable(recs: Seq<TableRecord>) -> bool {
    forall|i: int|
        0 <= i < recs.len() ==> match (#[trigger] recs[i]).table_id {
            Some(t) => !uuid_panics(uuid_hex(t@)),
            None => true,
        }
}

impl FormulaNames {
    /// uuid → (sheet name, table name).
    pub closed spec fn tables_view(&self) -> Map<u128, (Seq<char>, Seq<char>)> {
        Map::new(
            |k: u128| self.tables@.contains_key(k),
            |k: u128| (self.tables@[k].0@, self.tables@[k].1@),
        )
    }

    /// Haunted-owner uuid → base-owner uuid.
    pub closed spec fn base_view(&self) -> Map<u128, u128> {
        self.base_of_haunted@
    }

    /// Occurrences of a table name.
    pub closed spec fn count(&self, name: Seq<char>) -> nat {
        count_of(self.name_counts@, name)
    }

    /// The names of a document: `owners` are its haunted → base owner
    /// pairs in record order, `tables` its sheets' tables in order.
    pub fn build(owners: &[(u128, u128)], tables: &[TableRecord]) -> (n: FormulaNames)
        requires
            ids_readable(tables@),
        ensures
            n.base_view() == haunted_map(owners@),
            n.tables_view() == tables_map(tables@, haunted_map(owners@)),
            forall|name: Seq<char>| #[trigger] n.count(name) == name_count(tables@, name),
    {
        let mut base_of_haunted: HashMap<u128, u128> = HashMap::new();
        let mut i: usize = 0;
        while i < owners.len()
            invariant
                i <= owners@.len(),
                base_of_haunted@ == haunted_map(owners@.take(i as int)),
            decreases owners@.len() - i,
        {
            let (h, b) = owners[i];
            base_of_haunted.insert(h, b);
            assert(owners@.take(i + 1).drop_last() =~= owners@.take(i as int));
            i = i + 1;
        }
        assert(owners@.take(i as int) =~= owners@);
        let mut out = FormulaNames {
            tables: HashMap::new(),
            base_of_haunted,
            name_counts: Vec::new(),
        };
        let ghost m = haunted_map(owners@);
        let mut i: usize = 0;
        while i < tables.len()
            invariant
                i <= tables@.len(),
                ids_readable(tables@),
                out.base_view() == m,
                out.tables_view() == tables_map(tables@.take(i as int), m),
                forall|name: Seq<char>| #[trigger] out.count(name) == name_count(tables@.take(i as int), name),
                forall|j: int| 0 <= j < out.name_counts@.len() ==> (#[trigger] out.name_counts@[j]).1 <= i,
            decreases tables@.len() - i,
        {
            let r = &tables[i];
            let ghost prev = out.tables_view();
            let ghost t_prev = tables@.take(i as int);
            let ghost before = out.name_counts@;
            assert forall|nm: Seq<char>| count_of(before, nm) == name_count(t_prev, nm) by {
                assert(out.count(nm) == name_count(t_prev, nm));
            }
            assert(tables@.take(i + 1).drop_last() =~= t_prev);
            assert(tables@.take(i + 1).last() == *r);
            let mut keyed = false;
            let id = match &r.table_id {
                Some(t) => {
                    assert(tables@[i as int].table_id == Some(*t));
                    uuid_from_string(t.as_str())
                },
                None => None,
            };
            if let Some(u) = id {
                out.tables.insert(u, (owned(r.sheet.as_str()), owned(r.name.as_str())));
                keyed = true;
            }
            let ghost t1 = out.tables_view();
            assert(t1 == match id_key(*r) {
                Some(u) => prev.insert(u, entry_of(*r)),
                None => prev,
            });
            if let Some(haunted) = r.haunted {
                let base = out.base_uid(haunted);
                out.tables.insert(base, (owned(r.sheet.as_str()), owned(r.name.as_str())));
                out.tables.insert(haunted, (owned(r.sheet.as_str()), owned(r.name.as_str())));
                keyed = true;
            }
            assert(out.tables_view() =~= tables_map(tables@.take(i + 1), m));
            assert(keyed == is_keyed(*r));
            if keyed {
                count_bump(&mut out.name_counts, r.name.as_str());
            }
            assert forall|name: Seq<char>| #[trigger] out.count(name) == name_count(tables@.take(i + 1), name) by {
                assert(name_count(tables@.take(i + 1), name) == name_count(t_prev, name) + if is_keyed(*r) && r.name@ == name {
                    1nat
                } else {
                    0nat
                });
                assert(count_of(before, name) == name_count(t_prev, name));
            }
            i = i + 1;
        }
        assert(tables@.take(i as int) =~= tables@);
        out
    }

    /// The base-owner uuid a table model's haunted uid maps to (itself when
    /// the document has no mapping for it).
    pub fn base_uid(&self, haunted: u128) -> (r: u128)
        ensures
            r == base_in(self.base_view(), haunted),
    {
        match self.base_of_haunted.get(&haunted) {
            Some(b) => *b,
            None => haunted,
        }
    }

    /// The sheet a table's base uuid belongs to.
    pub fn sheet_of(&self, base: u128) -> (r: Option<&str>)
        ensures
            match r {
                Some(s) => self.tables_view().contains_key(base) && s@ == self.tables_view()[base].0,
                None => !self.tables_view().contains_key(base),
            },
    {
        match self.tables.get(&base) {
            Some(e) => Some(e.0.as_str()),
            None => None,
        }
    }
}


/// Lower-case hexadecimal digit of `d`.
pub open spec fn hex_char(d: int) -> char {
    if d < 10 {
        (48 + d) as char
    } else {
        (87 + d) as char
    }
}

/// The low `n` hexadecimal digits of `u`, most significant first (`{:0nx}`
/// for a value below 16^n).
pub open spec fn hex_fixed(u: nat, n: nat) -> Seq<char>
    decreases n,
{
    if n == 0 {
        Seq::empty()
    } else {
        hex_fixed(u / 16, (n - 1) as nat) + seq![hex_char((u % 16) as int)]
    }
}

pub fn push_hex_fixed(s: &mut String, u: u128, n: usize)
    ensures
        final(s)@ == old(s)@ + hex_fixed(u as nat, n as nat),
    decreases n,
{
    if n > 0 {
        push_hex_fixed(s, u / 16, n - 1);
        let d = (u % 16) as u8;
        let c = if d < 10 {
            (48u8 + d) as char
        } else {
            (87u8 + d) as char
        };
        push_char(s, c);
    }
    assert(final(s)@ =~= old(s)@ + hex_fixed(u as nat, n as nat));
}

/// The table a formula belongs to: needed to resolve relative references
/// and to decide which cross-table references need a name prefix.
pub struct TableScope<'a> {
    pub names: &'a FormulaNames,
    /// This table's base-owner uuid (references to it carry no prefix).
    pub self_uid: Option<u128>,
    /// This table's sheet name (same-sheet references skip the sheet prefix).
    pub sheet: Option<&'a str>,
    /// The formula belongs to a chart's data binding, not to a cell.
    pub chart: bool,
}

/// The error for a cross-table reference that carries no uuid.
pub open spec fn no_uuid_msg() -> Seq<char> {
    "cross-table reference without a table uuid"@
}

/// The error for a reference to a table the document does not name.
pub open spec fn unknown_table_msg(uid: u128) -> Seq<char> {
    "reference to unknown table uuid "@ + hex_fixed(uid as nat, 32)
}

/// Table-name prefix of a reference: `cross` is its cross-table part —
/// absent, present without a uuid, or present with one. Empty for this
/// table; `Table::` when the name is unique in the document or the table is
/// on this sheet; `Sheet::Table::` otherwise. Unknown uuids are an error.
pub open spec fn table_prefix_spec(scope: TableScope, cross: Option<Option<u128>>) -> Result<
    Seq<char>,
    Seq<char>,
> {
    match cross {
        None => Ok(Seq::empty()),
        Some(None) => Err(no_uuid_msg()),
        Some(Some(uid)) => {
            let base = base_in(scope.names.base_view(), uid);
            let t = scope.names.tables_view();
            if scope.self_uid == Some(base) || scope.self_uid == Some(uid) {
                Ok(Seq::empty())
            } else if !t.contains_key(base) && !t.contains_key(uid) {
                Err(unknown_table_msg(uid))
            } else {
                let (sheet, table) = if t.contains_key(base) {
                    t[base]
                } else {
                    t[uid]
                };
                let same_sheet = match scope.sheet {
                    Some(s) => s@ == sheet,
                    None => false,
                };
                if same_sheet || scope.names.count(table) <= 1 {
                    Ok(table + seq![':', ':'])
                } else {
                    Ok(sheet + seq![':', ':'] + table + seq![':', ':'])
                }
            }
        },
    }
}

/// `r` is the string result that `spec` describes.
pub open spec fn same_result(r: Result<String, String>, spec: Result<Seq<char>, Seq<char>>) -> bool {
    match r {
        Ok(t) => spec == Ok::<Seq<char>, Seq<char>>(t@),
        Err(e) => spec == Err::<Seq<char>, Seq<char>>(e@),
    }
}

/// Table-name prefix for a reference carrying cross-table extra info.
pub fn table_prefix(scope: &TableScope, cross: Option<Option<u128>>) -> (r: Result<String, String>)
    ensures
        same_result(r, table_prefix_spec(*scope, cross)),
{
    let uid = match cross {
        None => return Ok(String::new()),
        Some(None) => return Err(owned("cross-table reference without a table uuid")),
        Some(Some(u)) => u,
    };
    let base = scope.names.base_uid(uid);
    if scope.self_uid == Some(base) || scope.self_uid == Some(uid) {
        return Ok(String::new());
    }
    let ghost t = scope.names.tables_view();
    let ghost mut key = base;
    let found = match scope.names.tables.get(&base) {
        Some(e) => Some(e),
        None => {
            proof {
                key = uid;
            }
            scope.names.tables.get(&uid)
        },
    };
    let (sheet, table) = match found {
        Some(e) => (e.0.as_str(), e.1.as_str()),
        None => {
            let mut m = owned("reference to unknown table uuid ");
            push_hex_fixed(&mut m, uid, 32);
            return Err(m);
        },
    };
    let same_sheet = match scope.sheet {
        Some(s) => str_eq(s, sheet),
        None => false,
    };
    assert(t.contains_key(key) && t[key] == (sheet@, table@));
    assert(t.contains_key(base) ==> key == base);
    let unique = count_lookup(&scope.names.name_counts, table) <= 1;
    assert(unique == (scope.names.count(table@) <= 1));
    let mut out = String::new();
    proof {
        reveal_strlit("::");
    }
    if !(same_sheet || unique) {
        push_str(&mut out, sheet);
        push_str(&mut out, "::");
    }
    push_str(&mut out, table);
    push_str(&mut out, "::");
    proof {
        let sp = table_prefix_spec(*scope, cross);
        if same_sheet || unique {
            assert(out@ =~= table@ + seq![':', ':']);
        } else {
            assert(out@ =~= sheet@ + seq![':', ':'] + table@ + seq![':', ':']);
        }
    }
    Ok(out)
}


/// The text of a reference to a cell that does not exist.
pub open spec fn ref_error() -> Seq<char> {
    "#REF!"@
}

/// One coordinate of a CELL_REFERENCE_NODE (AST_row or AST_column): the
/// stored value, an offset from the owning cell unless absolute.
#[derive(Debug, Clone, Copy)]
pub struct AxisRef {
    pub value: Option<i64>,
    pub absolute: bool,
}

/// A CELL_REFERENCE_NODE as the decoder reads it: its cross-table part and
/// its row and column coordinates. Row-only / column-only nodes are
/// whole-row / whole-column references.
#[derive(Debug, Clone, Copy)]
pub struct CellRefNode {
    pub cross: Option<Option<u128>>,
    pub row: Option<AxisRef>,
    pub col: Option<AxisRef>,
}

/// A coordinate resolved against the owning cell's `base`.
pub open spec fn resolve_spec(a: AxisRef, base: u32) -> Option<(int, bool)> {
    match a.value {
        Some(v) => Some(
            (
                if a.absolute {
                    v as int
                } else {
                    base + v
                },
                a.absolute,
            ),
        ),
        None => None,
    }
}

/// A node coordinate, resolved when present.
pub open spec fn resolve_opt(a: Option<AxisRef>, base: u32) -> Option<Option<(int, bool)>> {
    match a {
        Some(x) => Some(resolve_spec(x, base)),
        None => None,
    }
}

/// The decimal row number of a 0-based row.
pub open spec fn row_number(r: int) -> Seq<char> {
    dec_int(r + 1)
}

/// The text of a CELL_REFERENCE_NODE in the cell at (row, col).
pub open spec fn cell_ref_spec(scope: TableScope, node: CellRefNode, row: u32, col: u32) -> Result<
    Seq<char>,
    Seq<char>,
> {
    match table_prefix_spec(scope, node.cross) {
        Err(e) => Err(e),
        Ok(prefix) => match (resolve_opt(node.row, row), resolve_opt(node.col, col)) {
            (Some(Some((r, ra))), Some(Some((c, ca)))) => if r < 0 || c < 0 {
                Ok(ref_error())
            } else {
                Ok(prefix + cell_name_spec(r, c as nat, ra, ca))
            },
            (Some(Some((r, ra))), None) => if r < 0 {
                Ok(ref_error())
            } else {
                Ok(prefix + dollar(ra) + row_number(r) + seq![':'] + dollar(ra) + row_number(r))
            },
            (None, Some(Some((c, ca)))) => if c < 0 {
                Ok(ref_error())
            } else {
                Ok(prefix + dollar(ca) + col_name(c as nat))
            },
            _ => Err("cell reference node without coordinates"@),
        },
    }
}

/// A resolved coordinate fits in an `i64`.
pub open spec fn resolved_fits(x: Option<Option<(int, bool)>>) -> bool {
    match x {
        Some(Some((v, _))) => v <= i64::MAX,
        _ => true,
    }
}

/// Resolving the node's coordinates and numbering its row stay within
/// `i64` (the arithmetic would overflow otherwise).
pub open spec fn cell_ref_fits(node: CellRefNode, row: u32, col: u32) -> bool {
    let r = resolve_opt(node.row, row);
    let c = resolve_opt(node.col, col);
    &&& resolved_fits(r)
    &&& resolved_fits(c)
    &&& match r {
        Some(Some((rv, _))) => rv < i64::MAX,
        _ => true,
    }
}

fn resolve(a: &AxisRef, base: u32) -> (r: Option<(i64, bool)>)
    requires
        resolved_fits(Some(resolve_spec(*a, base))),
    ensures
        match resolve_spec(*a, base) {
            Some((v, abs)) => r == Some((v as i64, abs)) && (r->0).0 == v,
            None => r is None,
        },
{
    match a.value {
        Some(v) => Some(
            (
                if a.absolute {
                    v
                } else {
                    base as i64 + v
                },
                a.absolute,
            ),
        ),
        None => None,
    }
}

fn push_row_number(s: &mut String, r: i64)
    requires
        r < i64::MAX,
    ensures
        final(s)@ == old(s)@ + row_number(r as int),
{
    push_decimal_i64(s, r + 1);
}

/// CELL_REFERENCE_NODE: relative offsets add to the owning cell at
/// (row, col); a negative coordinate gives `#REF!`.
pub fn cell_reference(scope: &TableScope, node: &CellRefNode, row: u32, col: u32) -> (res: Result<
    String,
    String,
>)
    requires
        table_prefix_spec(*scope, node.cross) is Ok ==> cell_ref_fits(*node, row, col),
    ensures
        same_result(res, cell_ref_spec(*scope, *node, row, col)),
{
    let prefix = match table_prefix(scope, node.cross) {
        Ok(p) => p,
        Err(e) => return Err(e),
    };
    let r = match &node.row {
        Some(a) => Some(resolve(a, row)),
        None => None,
    };
    let c = match &node.col {
        Some(a) => Some(resolve(a, col)),
        None => None,
    };
    let mut out = prefix;
    let ghost p = out@;
    match (r, c) {
        (Some(Some((r, ra))), Some(Some((c, ca)))) => {
            if r < 0 || c < 0 {
                return Ok(owned("#REF!"));
            }
            let name = cell_name(r, c, ra, ca);
            push_str(&mut out, name.as_str());
            assert(resolve_opt(node.row, row) == Some(Some((r as int, ra))));
            assert(resolve_opt(node.col, col) == Some(Some((c as int, ca))));
            assert(out@ =~= p + cell_name_spec(r as int, c as nat, ra, ca));
        },
        (Some(Some((r, ra))), None) => {
            if r < 0 {
                return Ok(owned("#REF!"));
            }
            push_dollar(&mut out, ra);
            push_row_number(&mut out, r);
            push_char(&mut out, ':');
            push_dollar(&mut out, ra);
            push_row_number(&mut out, r);
            assert(resolve_opt(node.row, row) == Some(Some((r as int, ra))));
            assert(out@ =~= p + dollar(ra) + row_number(r as int) + seq![':'] + dollar(ra) + row_number(r as int));
        },
        (None, Some(Some((c, ca)))) => {
            if c < 0 {
                return Ok(owned("#REF!"));
            }
            push_dollar(&mut out, ca);
            push_column(&mut out, c);
            assert(resolve_opt(node.col, col) == Some(Some((c as int, ca))));
            assert(out@ =~= p + dollar(ca) + col_name(c as nat));
        },
        _ => return Err(owned("cell reference node without coordinates")),
    }
    Ok(out)
}


/// The first absolute range entry of one axis of a colon tract.
#[derive(Debug, Clone, Copy)]
pub struct AbsRange {
    pub begin: Option<u64>,
    pub end: Option<u64>,
}

/// The first relative range entry of one axis of a colon tract.
#[derive(Debug, Clone, Copy)]
pub struct RelRange {
    pub begin: Option<i64>,
    pub end: Option<i64>,
}

/// AST_colon_tract: the first entry of each of its four lists, absent when
/// the list is empty.
#[derive(Debug, Clone, Copy)]
pub struct Tract {
    pub rel_col: Option<RelRange>,
    pub rel_row: Option<RelRange>,
    pub abs_col: Option<AbsRange>,
    pub abs_row: Option<AbsRange>,
}

/// AST_sticky_bits: which range ends are absolute.
#[derive(Debug, Clone, Copy)]
pub struct StickyBits {
    pub begin_row_abs: bool,
    pub begin_col_abs: bool,
    pub end_row_abs: bool,
    pub end_col_abs: bool,
}

/// A COLON_TRACT_NODE as the decoder reads it.
#[derive(Debug, Clone, Copy)]
pub struct ColonTractNode {
    pub cross: Option<Option<u128>>,
    pub tract: Option<Tract>,
    pub sticky: Option<StickyBits>,
}

/// The begin of an absolute entry, as a signed value.
pub open spec fn abs_begin(a: Option<AbsRange>) -> Option<int> {
    match a {
        Some(x) => match x.begin {
            Some(v) => Some(v as i64 as int),
            None => None,
        },
        None => None,
    }
}

/// The end of an absolute entry (its begin when it has no end).
pub open spec fn abs_end(a: Option<AbsRange>) -> Option<int> {
    match a {
        Some(x) => match x.end {
            Some(v) => Some(v as i64 as int),
            None => abs_begin(a),
        },
        None => None,
    }
}

pub open spec fn rel_begin(r: Option<RelRange>) -> Option<int> {
    match r {
        Some(x) => match x.begin {
            Some(v) => Some(v as int),
            None => None,
        },
        None => None,
    }
}

pub open spec fn rel_end(r: Option<RelRange>) -> Option<int> {
    match r {
        Some(x) => match x.end {
            Some(v) => Some(v as int),
            None => rel_begin(r),
        },
        None => None,
    }
}

pub open spec fn abs_entry_msg() -> Seq<char> {
    "absolute range without an absolute entry"@
}

pub open spec fn rel_entry_msg() -> Seq<char> {
    "relative range without a relative entry"@
}

/// One end of a range on one axis: the absolute entry when that end is
/// absolute; `max` (unbounded) when the axis has no relative entry and the
/// absolute entry is `max`; otherwise the relative entry added to the
/// owning cell's `base`.
pub open spec fn range_end_spec(is_abs: bool, absv: Option<int>, rel: Option<RelRange>, relv: Option<
    int,
>, base: u32, max: int) -> Result<int, Seq<char>> {
    if is_abs {
        match absv {
            Some(v) => Ok(v),
            None => Err(abs_entry_msg()),
        }
    } else if rel is None && absv == Some(max) {
        Ok(max)
    } else {
        match relv {
            Some(v) => Ok(base + v),
            None => Err(rel_entry_msg()),
        }
    }
}

/// The (begin, end) of one axis, `None` when it is unbounded.
pub open spec fn axis_spec(begin_abs: bool, end_abs: bool, a: Option<AbsRange>, r: Option<RelRange>, base: u32, max: int) -> Result<
    Option<(int, int)>,
    Seq<char>,
> {
    match range_end_spec(begin_abs, abs_begin(a), r, rel_begin(r), base, max) {
        Err(e) => Err(e),
        Ok(b) => match range_end_spec(end_abs, abs_end(a), r, rel_end(r), base, max) {
            Err(e) => Err(e),
            Ok(e) => if b == max || e == max {
                Ok(None)
            } else {
                Ok(Some((b, e)))
            },
        },
    }
}

/// Computing one range end stays within `i64`.
pub open spec fn range_end_fits(is_abs: bool, absv: Option<int>, rel: Option<RelRange>, relv: Option<
    int,
>, base: u32, max: int) -> bool {
    match range_end_spec(is_abs, absv, rel, relv, base, max) {
        Ok(v) => v <= i64::MAX,
        Err(_) => true,
    }
}

/// Computing one axis stays within `i64`.
pub open spec fn axis_fits(begin_abs: bool, end_abs: bool, a: Option<AbsRange>, r: Option<RelRange>, base: u32, max: int) -> bool {
    &&& range_end_fits(begin_abs, abs_begin(a), r, rel_begin(r), base, max)
    &&& (range_end_spec(begin_abs, abs_begin(a), r, rel_begin(r), base, max) is Ok ==> range_end_fits(
        end_abs,
        abs_end(a),
        r,
        rel_end(r),
        base,
        max,
    ))
}

/// The largest row index, which marks an unbounded row range.
pub open spec fn row_max() -> int {
    0x7FFF_FFFF
}

/// The largest column index, which marks an unbounded column range.
pub open spec fn col_max() -> int {
    0x7FFF
}

/// The text of a range with (r1, r2) rows and (c1, c2) columns, either
/// unbounded.
pub open spec fn tract_body(rows: Option<(int, int)>, cols: Option<(int, int)>, st: StickyBits) -> Result<
    Seq<char>,
    Seq<char>,
> {
    match (rows, cols) {
        (Some((r1, r2)), Some((c1, c2))) => if r1 < 0 || r2 < 0 || c1 < 0 || c2 < 0 {
            Ok(ref_error())
        } else {
            Ok(
                cell_name_spec(r1, c1 as nat, st.begin_row_abs, st.begin_col_abs) + seq![':']
                    + cell_name_spec(r2, c2 as nat, st.end_row_abs, st.end_col_abs),
            )
        },
        (Some((r1, r2)), None) => if r1 < 0 || r2 < 0 {
            Ok(ref_error())
        } else {
            Ok(
                dollar(st.begin_row_abs) + row_number(r1) + seq![':'] + dollar(st.end_row_abs)
                    + row_number(r2),
            )
        },
        (None, Some((c1, c2))) => if c1 < 0 || c2 < 0 {
            Ok(ref_error())
        } else {
            Ok(
                dollar(st.begin_col_abs) + col_name(c1 as nat) + seq![':'] + dollar(st.end_col_abs)
                    + col_name(c2 as nat),
            )
        },
        (None, None) => Err("colon tract unbounded on both axes"@),
    }
}

/// A bounded axis of the range has a negative coordinate (the range text
/// is then `#REF!`, with no table prefix).
pub open spec fn has_negative(rows: Option<(int, int)>, cols: Option<(int, int)>) -> bool {
    (rows matches Some((r1, r2)) && (r1 < 0 || r2 < 0)) || (cols matches Some((c1, c2)) && (c1 < 0
        || c2 < 0))
}

/// The text of a COLON_TRACT_NODE in the cell at (row, col).
pub open spec fn colon_tract_spec(scope: TableScope, node: ColonTractNode, row: u32, col: u32) -> Result<
    Seq<char>,
    Seq<char>,
> {
    match table_prefix_spec(scope, node.cross) {
        Err(e) => Err(e),
        Ok(prefix) => match node.tract {
            None => Err("colon tract node without a tract"@),
            Some(t) => match node.sticky {
                None => Err("colon tract node without sticky bits"@),
                Some(st) => match axis_spec(
                    st.begin_row_abs,
                    st.end_row_abs,
                    t.abs_row,
                    t.rel_row,
                    row,
                    row_max(),
                ) {
                    Err(e) => Err(e),
                    Ok(rows) => match axis_spec(
                        st.begin_col_abs,
                        st.end_col_abs,
                        t.abs_col,
                        t.rel_col,
                        col,
                        col_max(),
                    ) {
                        Err(e) => Err(e),
                        Ok(cols) => match tract_body(rows, cols, st) {
                            Err(e) => Err(e),
                            Ok(body) => if has_negative(rows, cols) {
                                Ok(body)
                            } else {
                                Ok(prefix + body)
                            },
                        },
                    },
                },
            },
        },
    }
}

/// Computing the node's ranges and numbering its rows stay within `i64`.
pub open spec fn colon_fits(node: ColonTractNode, row: u32, col: u32) -> bool {
    match (node.tract, node.sticky) {
        (Some(t), Some(st)) => {
            &&& axis_fits(st.begin_row_abs, st.end_row_abs, t.abs_row, t.rel_row, row, row_max())
            &&& match axis_spec(st.begin_row_abs, st.end_row_abs, t.abs_row, t.rel_row, row, row_max()) {
                Ok(rows) => {
                    &&& axis_fits(st.begin_col_abs, st.end_col_abs, t.abs_col, t.rel_col, col, col_max())
                    &&& match rows {
                        Some((r1, r2)) => r1 < i64::MAX && r2 < i64::MAX,
                        None => true,
                    }
                },
                Err(_) => true,
            }
        },
        _ => true,
    }
}


fn range_end(
    is_abs: bool,
    absv: Option<i64>,
    rel_empty: bool,
    relv: Option<i64>,
    base: u32,
    max: i64,
) -> (r: Result<i64, String>)
    requires
        max > 0,
        ({
            let av = match absv {
                Some(v) => Some(v as int),
                None => None,
            };
            let rv = match relv {
                Some(v) => Some(v as int),
                None => None,
            };
            !is_abs && !(rel_empty && av == Some(max as int)) && rv is Some ==> base + rv->0 <= i64::MAX
        }),
    ensures
        ({
            let av = match absv {
                Some(v) => Some(v as int),
                None => None,
            };
            let rv = match relv {
                Some(v) => Some(v as int),
                None => None,
            };
            let sp = if is_abs {
                match av {
                    Some(v) => Ok(v),
                    None => Err(abs_entry_msg()),
                }
            } else if rel_empty && av == Some(max as int) {
                Ok(max as int)
            } else {
                match rv {
                    Some(v) => Ok(base + v),
                    None => Err(rel_entry_msg()),
                }
            };
            match r {
                Ok(v) => sp == Ok::<int, Seq<char>>(v as int),
                Err(e) => sp == Err::<int, Seq<char>>(e@),
            }
        }),
{
    if is_abs {
        match absv {
            Some(v) => Ok(v),
            None => Err(owned("absolute range without an absolute entry")),
        }
    } else if rel_empty && absv == Some(max) {
        Ok(max)
    } else {
        match relv {
            Some(v) => Ok(base as i64 + v),
            None => Err(owned("relative range without a relative entry")),
        }
    }
}

fn axis(
    begin_abs: bool,
    end_abs: bool,
    a: Option<AbsRange>,
    r: Option<RelRange>,
    base: u32,
    max: i64,
) -> (res: Result<Option<(i64, i64)>, String>)
    requires
        max > 0,
        axis_fits(begin_abs, end_abs, a, r, base, max as int),
    ensures
        match res {
            Ok(None) => axis_spec(begin_abs, end_abs, a, r, base, max as int) == Ok::<
                Option<(int, int)>,
                Seq<char>,
            >(None),
            Ok(Some((b, e))) => axis_spec(begin_abs, end_abs, a, r, base, max as int) == Ok::<
                Option<(int, int)>,
                Seq<char>,
            >(Some((b as int, e as int))),
            Err(m) => axis_spec(begin_abs, end_abs, a, r, base, max as int) == Err::<
                Option<(int, int)>,
                Seq<char>,
            >(m@),
        },
{
    let ab: Option<i64> = match a {
        Some(x) => match x.begin {
            Some(v) => Some(v as i64),
            None => None,
        },
        None => None,
    };
    let ae: Option<i64> = match a {
        Some(x) => match x.end {
            Some(v) => Some(v as i64),
            None => ab,
        },
        None => None,
    };
    let rb: Option<i64> = match r {
        Some(x) => x.begin,
        None => None,
    };
    let re: Option<i64> = match r {
        Some(x) => match x.end {
            Some(v) => Some(v),
            None => rb,
        },
        None => None,
    };
    let rel_empty = r.is_none();
    let b = match range_end(begin_abs, ab, rel_empty, rb, base, max) {
        Ok(v) => v,
        Err(m) => return Err(m),
    };
    let e = match range_end(end_abs, ae, rel_empty, re, base, max) {
        Ok(v) => v,
        Err(m) => return Err(m),
    };
    if b == max || e == max {
        return Ok(None);
    }
    Ok(Some((b, e)))
}

/// COLON_TRACT_NODE: a range whose ends are absolute or relative to the
/// owning cell at (row, col); an axis whose begin and end are both the
/// largest index with no relative entry is unbounded (a whole-column or
/// whole-row range).
pub fn colon_tract(scope: &TableScope, node: &ColonTractNode, row: u32, col: u32) -> (res: Result<
    String,
    String,
>)
    requires
        table_prefix_spec(*scope, node.cross) is Ok ==> colon_fits(*node, row, col),
    ensures
        same_result(res, colon_tract_spec(*scope, *node, row, col)),
{
    let prefix = match table_prefix(scope, node.cross) {
        Ok(p) => p,
        Err(e) => return Err(e),
    };
    let t = match node.tract {
        Some(t) => t,
        None => return Err(owned("colon tract node without a tract")),
    };
    let st = match node.sticky {
        Some(st) => st,
        None => return Err(owned("colon tract node without sticky bits")),
    };
    let rows = match axis(st.begin_row_abs, st.end_row_abs, t.abs_row, t.rel_row, row, 0x7FFF_FFFF) {
        Ok(x) => x,
        Err(m) => return Err(m),
    };
    let cols = match axis(st.begin_col_abs, st.end_col_abs, t.abs_col, t.rel_col, col, 0x7FFF) {
        Ok(x) => x,
        Err(m) => return Err(m),
    };
    let body = match tract_text(rows, cols, st) {
        Ok(b) => b,
        Err(m) => return Err(m),
    };
    let neg = match (rows, cols) {
        (Some((r1, r2)), _) if r1 < 0 || r2 < 0 => true,
        (_, Some((c1, c2))) if c1 < 0 || c2 < 0 => true,
        _ => false,
    };
    assert(neg == has_negative(as_ints(rows), as_ints(cols)));
    if neg {
        return Ok(body);
    }
    let mut out = prefix;
    push_str(&mut out, body.as_str());
    Ok(out)
}

/// A range of `i64` coordinates as integers.
pub open spec fn as_ints(x: Option<(i64, i64)>) -> Option<(int, int)> {
    match x {
        Some((a, b)) => Some((a as int, b as int)),
        None => None,
    }
}

fn tract_text(rows: Option<(i64, i64)>, cols: Option<(i64, i64)>, st: StickyBits) -> (res: Result<
    String,
    String,
>)
    requires
        rows matches Some((r1, r2)) ==> r1 < i64::MAX && r2 < i64::MAX,
    ensures
        same_result(res, tract_body(as_ints(rows), as_ints(cols), st)),
{
    let mut out = String::new();
    match (rows, cols) {
        (Some((r1, r2)), Some((c1, c2))) => {
            if r1 < 0 || r2 < 0 || c1 < 0 || c2 < 0 {
                return Ok(owned("#REF!"));
            }
            let a = cell_name(r1, c1, st.begin_row_abs, st.begin_col_abs);
            let b = cell_name(r2, c2, st.end_row_abs, st.end_col_abs);
            push_str(&mut out, a.as_str());
            push_char(&mut out, ':');
            push_str(&mut out, b.as_str());
            assert(out@ =~= cell_name_spec(r1 as int, c1 as nat, st.begin_row_abs, st.begin_col_abs) + seq![':']
                + cell_name_spec(r2 as int, c2 as nat, st.end_row_abs, st.end_col_abs));
        },
        (Some((r1, r2)), None) => {
            if r1 < 0 || r2 < 0 {
                return Ok(owned("#REF!"));
            }
            push_dollar(&mut out, st.begin_row_abs);
            push_row_number(&mut out, r1);
            push_char(&mut out, ':');
            push_dollar(&mut out, st.end_row_abs);
            push_row_number(&mut out, r2);
            assert(out@ =~= dollar(st.begin_row_abs) + row_number(r1 as int) + seq![':'] + dollar(
                st.end_row_abs,
            ) + row_number(r2 as int));
        },
        (None, Some((c1, c2))) => {
            if c1 < 0 || c2 < 0 {
                return Ok(owned("#REF!"));
            }
            push_dollar(&mut out, st.begin_col_abs);
            push_column(&mut out, c1);
            push_char(&mut out, ':');
            push_dollar(&mut out, st.end_col_abs);
            push_column(&mut out, c2);
            assert(out@ =~= dollar(st.begin_col_abs) + col_name(c1 as nat) + seq![':'] + dollar(
                st.end_col_abs,
            ) + col_name(c2 as nat));
        },
        (None, None) => return Err(owned("colon tract unbounded on both axes")),
    }
    Ok(out)
}

/// The u128 a `TSP.CFUUIDArchive` / `TSP.UUID` stands for, from its varint
/// fields 1–5 (`f[i]` is field i + 1): four 32-bit words in fields 2–5,
/// field 5 the most significant; or, without fields 4 and 5, the lower and
/// upper 64 bits in fields 1 and 2.
pub open spec fn uuid_of_fields(f: Seq<Option<u64>>) -> Option<u128> {
    if f[3] is Some && f[4] is Some {
        if f[1] is Some && f[2] is Some {
            Some(
                ((f[4]->0 as u128) << 96u128) | ((f[3]->0 as u128) << 64u128) | ((f[2]->0 as u128)
                    << 32u128) | (f[1]->0 as u128),
            )
        } else {
            None
        }
    } else if f[0] is Some && f[1] is Some {
        Some(((f[1]->0 as u128) << 64u128) | (f[0]->0 as u128))
    } else {
        None
    }
}

/// A uuid from the varint fields 1 to 5 of a `TSP.CFUUIDArchive` (words
/// in fields 2 to 5) or a `TSP.UUID` (halves in fields 1 and 2).
pub fn uuid_of_words(fields: [Option<u64>; 5]) -> (r: Option<u128>)
    ensures
        r == uuid_of_fields(fields@),
{
    if let (Some(w2), Some(w3)) = (fields[3], fields[4]) {
        let w0 = match fields[1] {
            Some(v) => v,
            None => return None,
        };
        let w1 = match fields[2] {
            Some(v) => v,
            None => return None,
        };
        return Some(
            ((w3 as u128) << 96u128) | ((w2 as u128) << 64u128) | ((w1 as u128) << 32u128) | (w0
                as u128),
        );
    }
    let lower = match fields[0] {
        Some(v) => v,
        None => return None,
    };
    let upper = match fields[1] {
        Some(v) => v,
        None => return None,
    };
    Some(((upper as u128) << 64u128) | (lower as u128))
}

} // verus!

verus! {

/// The varint fields 1 to 5 of a uuid message.
pub open spec fn uuid_fields(m: Seq<(u32, WireSpec)>) -> Seq<Option<u64>> {
    seq![vvarint(m, 1), vvarint(m, 2), vvarint(m, 3), vvarint(m, 4), vvarint(m, 5)]
}

/// `TSP.CFUUIDArchive` / `TSP.UUID` → u128 (both wire layouts).
pub fn uuid_u128(m: &Msg) -> (r: Option<u128>)
    ensures
        r == uuid_of_fields(uuid_fields(fields_view(m.fields@))),
{
    proof {
        lemma_vall(m.fields@, 1);
        lemma_vall(m.fields@, 2);
        lemma_vall(m.fields@, 3);
        lemma_vall(m.fields@, 4);
        lemma_vall(m.fields@, 5);
    }
    let f = [m.varint(1), m.varint(2), m.varint(3), m.varint(4), m.varint(5)];
    assert(f@ =~= uuid_fields(fields_view(m.fields@)));
    uuid_of_words(f)
}

} // verus!

verus! {

/// A table record as mathematical values.
pub struct TableView {
    pub sheet: Seq<char>,
    pub name: Seq<char>,
    pub table_id: Option<Seq<char>>,
    pub haunted: Option<u128>,
}

pub open spec fn table_view(r: TableRecord) -> TableView {
    TableView {
        sheet: r.sheet@,
        name: r.name@,
        table_id: match r.table_id {
            Some(t) => Some(t@),
            None => None,
        },
        haunted: r.haunted,
    }
}

/// The uuid a nested uuid message holds.
pub open spec fn uuid_of_msg(m: Option<Seq<(u32, WireSpec)>>) -> Option<u128> {
    match m {
        Some(x) => uuid_of_fields(uuid_fields(x)),
        None => None,
    }
}

/// The haunted → base owner pair of a formula-owner record (type 4008 of
/// kind 35): the uuids in its fields 1 and 12.
pub open spec fn owner_pair(r: RecordView) -> Option<(u128, u128)> {
    match r.msg {
        Some(fo) => if r.type_id == 4008 && vvarint(fo, 3) == Some(35u64) {
            match (uuid_of_msg(vmsg(fo, 1)), uuid_of_msg(vmsg(fo, 12))) {
                (Some(h), Some(b)) => Some((h, b)),
                _ => None,
            }
        } else {
            None
        },
        None => None,
    }
}

/// The owner pairs of records met in order.
pub open spec fn owner_pairs(walk: Seq<RecordView>) -> Seq<(u128, u128)>
    decreases walk.len(),
{
    if walk.len() == 0 {
        Seq::empty()
    } else {
        match owner_pair(walk.last()) {
            Some(p) => owner_pairs(walk.drop_last()).push(p),
            None => owner_pairs(walk.drop_last()),
        }
    }
}

/// A sheet record's fields.
pub open spec fn sheet_msg(r: RecordView) -> Option<Seq<(u32, WireSpec)>> {
    if r.name == Some("TN.SheetArchive"@) {
        r.msg
    } else {
        None
    }
}

/// The table model a sheet's drawable `info_id` shows: a table info
/// (type 6000 or 6007) whose field 2 refers to a loaded model.
pub open spec fn table_model(records: Map<u64, RecordView>, info_id: u64) -> Option<
    Seq<(u32, WireSpec)>,
> {
    if records.contains_key(info_id) && (records[info_id].type_id == 6000
        || records[info_id].type_id == 6007) {
        match records[info_id].msg {
            Some(m) => match vget(m, 2) {
                Some(v) => match deep_ref_spec(v) {
                    Some(mid) => loaded_msg(records, mid),
                    None => None,
                },
                None => None,
            },
            None => None,
        }
    } else {
        None
    }
}

pub open spec fn or_empty(o: Option<Seq<char>>) -> Seq<char> {
    match o {
        Some(s) => s,
        None => Seq::empty(),
    }
}

/// A sheet's table: the sheet's name (1), the model's name (8), its
/// `table_id` string (1) and its haunted-owner uuid (84 → 1).
pub open spec fn table_of(sheet: Seq<(u32, WireSpec)>, model: Seq<(u32, WireSpec)>) -> TableView {
    TableView {
        sheet: or_empty(vstring(sheet, 1)),
        name: or_empty(vstring(model, 8)),
        table_id: vstring(model, 1),
        haunted: match vmsg(model, 84) {
            Some(h) => uuid_of_msg(vmsg(h, 1)),
            None => None,
        },
    }
}

/// The tables of a sheet's drawables `ids`, in order.
pub open spec fn sheet_tables(records: Map<u64, RecordView>, sheet: Seq<(u32, WireSpec)>, ids: Seq<u64>) -> Seq<
    TableView,
>
    decreases ids.len(),
{
    if ids.len() == 0 {
        Seq::empty()
    } else {
        let h = sheet_tables(records, sheet, ids.drop_last());
        match table_model(records, ids.last()) {
            Some(model) => h.push(table_of(sheet, model)),
            None => h,
        }
    }
}

/// The tables of the sheets among records met in order.
pub open spec fn walk_tables(records: Map<u64, RecordView>, walk: Seq<RecordView>) -> Seq<TableView>
    decreases walk.len(),
{
    if walk.len() == 0 {
        Seq::empty()
    } else {
        let h = walk_tables(records, walk.drop_last());
        match sheet_msg(walk.last()) {
            Some(s) => h + sheet_tables(records, s, refs_of(vall(s, 2))),
            None => h,
        }
    }
}

/// Every table model a sheet shows has a `table_id` string that reads
/// without fault.
pub open spec fn tables_readable(records: Map<u64, RecordView>) -> bool {
    forall|info: u64|
        #![trigger table_model(records, info)]
        table_model(records, info) matches Some(model) ==> match vstring(model, 1) {
            Some(t) => !uuid_panics(uuid_hex(t)),
            None => true,
        }
}

/// `ks` lists the keys of `m`, each once.
pub open spec fn is_key_walk<V>(ks: Seq<u64>, m: Map<u64, V>) -> bool {
    ks.no_duplicates() && ks.to_set() == m.dom()
}

fn uuid_in(m: Option<Msg>) -> (r: Option<u128>)
    ensures
        r == uuid_of_msg(match m {
            Some(x) => Some(fields_view(x.fields@)),
            None => None,
        }),
{
    match m {
        Some(x) => uuid_u128(&x),
        None => None,
    }
}

fn owner_pair_of(rec: &Record) -> (r: Option<(u128, u128)>)
    ensures
        r == owner_pair(record_view(*rec)),
{
    if rec.type_id != 4008 {
        return None;
    }
    match &rec.msg {
        Some(fo) => {
            proof {
                lemma_vall(fo.fields@, 3);
            }
            if fo.varint(3) != Some(35u64) {
                return None;
            }
            match (uuid_in(fo.msg(1)), uuid_in(fo.msg(12))) {
                (Some(h), Some(b)) => Some((h, b)),
                _ => None,
            }
        },
        None => None,
    }
}

fn str_or_empty(o: Option<String>) -> (r: String)
    ensures
        r@ == or_empty(match o {
            Some(s) => Some(s@),
            None => None,
        }),
{
    match o {
        Some(s) => s,
        None => {
            let e = String::new();
            assert(e@ =~= Seq::<char>::empty());
            e
        },
    }
}

/// The table model a sheet's drawable shows.
fn table_model_exec(loaded: &Loaded, info_id: u64) -> (r: Option<Msg>)
    ensures
        match table_model(loaded_view(*loaded).records, info_id) {
            Some(m) => r matches Some(x) && fields_view(x.fields@) == m,
            None => r is None,
        },
{
    match loaded.record(info_id) {
        Some(info) => {
            if info.type_id != 6000 && info.type_id != 6007 {
                return None;
            }
            match &info.msg {
                Some(m) => {
                    proof {
                        lemma_vall(m.fields@, 2);
                    }
                    match m.reference(2) {
                        Some(mid) => match loaded.msg(mid) {
                            Some(model) => Some(Msg { fields: crate::pb::clone_fields(&model.fields) }),
                            None => None,
                        },
                        None => None,
                    }
                },
                None => None,
            }
        },
        None => None,
    }
}

/// A sheet's tables appended to `tables`.
fn push_sheet_tables(loaded: &Loaded, sheet: &Msg, tables: &mut Vec<TableRecord>)
    requires
        tables_readable(loaded_view(*loaded).records),
        ids_readable(old(tables)@),
    ensures
        ids_readable(final(tables)@),
        final(tables)@.map_values(|r: TableRecord| table_view(r)) == old(tables)@.map_values(
            |r: TableRecord| table_view(r),
        ) + sheet_tables(
            loaded_view(*loaded).records,
            fields_view(sheet.fields@),
            refs_of(vall(fields_view(sheet.fields@), 2)),
        ),
{
    let ghost records = loaded_view(*loaded).records;
    let ghost sv = fields_view(sheet.fields@);
    let ghost start = tables@.map_values(|r: TableRecord| table_view(r));
    let ids = sheet.references(2);
    let ghost idv = refs_of(vall(sv, 2));
    proof {
        lemma_vall(sheet.fields@, 1);
    }
    let mut i: usize = 0;
    assert(start + sheet_tables(records, sv, idv.take(0)) =~= start) by {
        assert(idv.take(0) =~= Seq::<u64>::empty());
    }
    while i < ids.len()
        invariant
            i <= ids@.len(),
            ids@ == idv,
            records == loaded_view(*loaded).records,
            sv == fields_view(sheet.fields@),
            tables_readable(records),
            ids_readable(tables@),
            tables@.map_values(|r: TableRecord| table_view(r)) == start + sheet_tables(
                records,
                sv,
                idv.take(i as int),
            ),
        decreases ids@.len() - i,
    {
        let info_id = ids[i];
        assert(idv.take(i + 1).drop_last() =~= idv.take(i as int));
        assert(idv.take(i + 1).last() == info_id);
        match table_model_exec(loaded, info_id) {
            Some(model) => {
                proof {
                    lemma_vall(model.fields@, 1);
                    lemma_vall(model.fields@, 8);
                    lemma_vall(sheet.fields@, 1);
                }
                let sheet_name = str_or_empty(sheet.string(1));
                let name = str_or_empty(model.string(8));
                let table_id = model.string(1);
                let haunted = match model.msg(84) {
                    Some(h) => uuid_in(h.msg(1)),
                    None => None,
                };
                let r = TableRecord { sheet: sheet_name, name, table_id, haunted };
                assert(table_view(r) == table_of(sv, fields_view(model.fields@)));
                assert(table_model(records, info_id) is Some);
                let ghost before = tables@;
                tables.push(r);
                assert(tables@.map_values(|r: TableRecord| table_view(r)) =~= before.map_values(
                    |r: TableRecord| table_view(r),
                ).push(table_view(r)));
                assert forall|j: int| 0 <= j < tables@.len() implies match (#[trigger] tables@[j]).table_id {
                    Some(t) => !uuid_panics(uuid_hex(t@)),
                    None => true,
                } by {
                    if j < before.len() {
                        assert(tables@[j] == before[j]);
                    }
                }
            },
            None => {},
        }
        i = i + 1;
    }
    assert(idv.take(i as int) =~= idv);
}

} // verus!

verus! {

/// The views of table records.
pub open spec fn table_views(t: Seq<TableRecord>) -> Seq<TableView> {
    t.map_values(|r: TableRecord| table_view(r))
}

/// The records met along the keys `ks`.
pub open spec fn walk_of(ks: Seq<u64>, m: Map<u64, Record>) -> Seq<RecordView> {
    ks.map_values(|k: u64| record_view(m[k]))
}

/// The names cross-table references are printed with, read from the
/// loaded objects: formula owners (type 4008, kind 35) map haunted-owner
/// uuids to base-owner uuids, and every table a sheet shows is keyed by its
/// `table_id` string, its haunted uuid and that uuid's base. The objects
/// are met in the record map's own order, which is not fixed: the result
/// is what `build` makes of them met in some order, each once.
pub fn names(loaded: &Loaded) -> (n: FormulaNames)
    requires
        tables_readable(loaded_view(*loaded).records),
    ensures
        exists|ks: Seq<u64>, tables: Seq<TableRecord>|
            #![trigger is_key_walk(ks, loaded.records@), table_views(tables)]
            is_key_walk(ks, loaded.records@) && table_views(tables) == walk_tables(
                loaded_view(*loaded).records,
                walk_of(ks, loaded.records@),
            )
                && n.base_view() == haunted_map(owner_pairs(walk_of(ks, loaded.records@)))
                && n.tables_view() == tables_map(
                tables,
                haunted_map(owner_pairs(walk_of(ks, loaded.records@))),
            ) && forall|name: Seq<char>| #[trigger] n.count(name) == name_count(tables, name),
{
    let ghost records = loaded_view(*loaded).records;
    let ghost m = loaded.records@;
    let ghost kr = vstd::std_specs::hash::spec_keys_iter(&loaded.records).remaining();
    let ghost kv = kr.unref();
    let mut owners: Vec<(u128, u128)> = Vec::new();
    let mut tables: Vec<TableRecord> = Vec::new();
    assert(walk_of(kv.take(0), m) =~= Seq::<RecordView>::empty());
    assert(tables@.map_values(|r: TableRecord| table_view(r)) =~= Seq::<TableView>::empty());
    for k in it: loaded.records.keys()
        invariant
            it.seq() == kr,
            kv == kr.unref(),
            kv.to_set() == m.dom(),
            m == loaded.records@,
            records == loaded_view(*loaded).records,
            tables_readable(records),
            ids_readable(tables@),
            owners@ == owner_pairs(walk_of(kv.take(it.index()), m)),
            tables@.map_values(|r: TableRecord| table_view(r)) == walk_tables(
                records,
                walk_of(kv.take(it.index()), m),
            ),
    {
        let ghost i = it.index();
        let ghost before = walk_of(kv.take(i), m);
        assert(kv[i] == *k);
        assert(kv.to_set().contains(kv[i]));
        assert(walk_of(kv.take(i + 1), m) =~= before.push(record_view(m[*k])));
        let ghost after = before.push(record_view(m[*k]));
        assert(after.drop_last() =~= before);
        assert(after.last() == record_view(m[*k]));
        match loaded.record(*k) {
            Some(rec) => {
                match owner_pair_of(rec) {
                    Some(p) => {
                        owners.push(p);
                    },
                    None => {},
                }
                let is_sheet = match &rec.name {
                    Some(n) => str_eq(n.as_str(), "TN.SheetArchive"),
                    None => false,
                };
                if is_sheet {
                    match &rec.msg {
                        Some(sheet) => {
                            push_sheet_tables(loaded, sheet, &mut tables);
                        },
                        None => {},
                    }
                }
                assert(records[*k] == record_view(m[*k]));
            },
            None => {
                assert(false);
            },
        }
    }
    proof {
        assert(kv.take(kv.len() as int) =~= kv);
        assert(kr.no_duplicates());
        assert(kv.no_duplicates()) by {
            assert forall|a: int, b: int| 0 <= a < kv.len() && 0 <= b < kv.len() && a != b implies kv[a]
                != kv[b] by {
                assert(kr[a] != kr[b]);
            }
        }
    }
    let n = FormulaNames::build(owners.as_slice(), tables.as_slice());
    assert(is_key_walk(kv, loaded.records@));
    assert(table_views(tables@) == walk_tables(records, walk_of(kv, m)));
    n
}

/// No tables and no owner mappings: every uuid maps to itself and no
/// table is named.
impl Default for FormulaNames {
    fn default() -> (n: FormulaNames)
        ensures
            n.base_view() == Map::<u128, u128>::empty(),
            forall|u: u128| #[trigger] base_in(n.base_view(), u) == u,
            n.tables_view() == Map::<u128, (Seq<char>, Seq<char>)>::empty(),
            forall|name: Seq<char>| #[trigger] n.count(name) == 0,
    {
        let n = FormulaNames { tables: HashMap::new(), base_of_haunted: HashMap::new(), name_counts: Vec::new() };
        assert(n.tables_view() =~= Map::<u128, (Seq<char>, Seq<char>)>::empty());
        n
    }
}

} // verus!
