//! The protobuf wire walk: an archive payload's bytes read as a flat list of
//! fields (number and payload by wire type), with inline groups read as
//! nested field lists. Malformed input yields `None`, never a panic.
use vstd::prelude::*;
use vstd::slice::{slice_subrange, slice_to_vec};
use crate::pb::{Field, WireValue};

verus! {

/// The deepest nesting of inline groups the walk follows.
pub const MAX_GROUP_DEPTH: u32 = 64;

/// A field's payload as a mathematical value.
pub enum WireSpec {
    Varint(u64),
    Fixed64(Seq<u8>),
    Fixed32(Seq<u8>),
    Bytes(Seq<u8>),
    Group(Seq<(u32, WireSpec)>),
}

/// The mathematical value of a payload.
pub open spec fn value_view(v: WireValue) -> WireSpec
    decreases v,
{
    match v {
        WireValue::Varint(x) => WireSpec::Varint(x),
        WireValue::Fixed64(a) => WireSpec::Fixed64(a@),
        WireValue::Fixed32(a) => WireSpec::Fixed32(a@),
        WireValue::Bytes(b) => WireSpec::Bytes(b@),
        WireValue::Group(fs) => WireSpec::Group(fields_view(fs@)),
    }
}

/// The mathematical value of a field list: (number, payload) pairs in order.
pub open spec fn fields_view(fs: Seq<Field>) -> Seq<(u32, WireSpec)>
    decreases fs,
{
    if fs.len() == 0 {
        Seq::empty()
    } else {
        seq![(fs[0].number, value_view(fs[0].value))] + fields_view(fs.drop_first())
    }
}

pub proof fn lemma_fields_view_push(fs: Seq<Field>, f: Field)
    ensures
        fields_view(fs.push(f)) == fields_view(fs) + seq![(f.number, value_view(f.value))],
    decreases fs.len(),
{
    let y = seq![(f.number, value_view(f.value))];
    if fs.len() == 0 {
        assert(fs.push(f).drop_first() =~= Seq::<Field>::empty());
        assert(fs.push(f)[0] == f);
        assert(fields_view(fs.push(f).drop_first()) =~= Seq::empty());
        assert(fields_view(fs) =~= Seq::empty());
        assert(fields_view(fs.push(f)) =~= fields_view(fs) + y);
    } else {
        let x = seq![(fs[0].number, value_view(fs[0].value))];
        assert(fs.push(f).drop_first() =~= fs.drop_first().push(f));
        lemma_fields_view_push(fs.drop_first(), f);
        assert(x + (fields_view(fs.drop_first()) + y) =~= (x + fields_view(fs.drop_first())) + y);
    }
}

pub proof fn lemma_fields_view_len(fs: Seq<Field>)
    ensures
        fields_view(fs).len() == fs.len(),
        forall|i: int|
            0 <= i < fs.len() ==> #[trigger] fields_view(fs)[i] == (
                fs[i].number,
                value_view(fs[i].value),
            ),
    decreases fs.len(),
{
    if fs.len() > 0 {
        lemma_fields_view_len(fs.drop_first());
        assert forall|i: int| 0 <= i < fs.len() implies #[trigger] fields_view(fs)[i] == (
            fs[i].number,
            value_view(fs[i].value),
        ) by {
            if i > 0 {
                assert(fs.drop_first()[i - 1] == fs[i]);
            }
        }
    }
}

/// The base-128 varint whose `k`-th byte sits at `pos + k`, read from that
/// byte on: its value and the position after its last byte. A varint has at
/// most ten bytes.
pub open spec fn varint_tail(b: Seq<u8>, pos: int, k: int) -> Option<(int, int)>
    decreases 10 - k,
{
    if k < 0 || k >= 10 || pos < 0 || pos + k >= b.len() {
        None
    } else if b[pos + k] < 128 {
        Some((b[pos + k] as int, pos + k + 1))
    } else {
        match varint_tail(b, pos, k + 1) {
            Some((v, e)) => Some((b[pos + k] - 128 + 128 * v, e)),
            None => None,
        }
    }
}

/// The varint at `pos`, when its value fits 64 bits.
pub open spec fn varint_at(b: Seq<u8>, pos: int) -> Option<(u64, int)> {
    match varint_tail(b, pos, 0) {
        Some((v, e)) => if v <= u64::MAX {
            Some((v as u64, e))
        } else {
            None
        },
        None => None,
    }
}

pub proof fn lemma_varint_tail_bounds(b: Seq<u8>, pos: int, k: int)
    ensures
        varint_tail(b, pos, k) matches Some((v, e)) ==> v >= 0 && pos + k < e <= b.len(),
    decreases 10 - k,
{
    if 0 <= k < 10 && 0 <= pos && pos + k < b.len() && b[pos + k] >= 128 {
        lemma_varint_tail_bounds(b, pos, k + 1);
    }
}

/// A non-group payload of wire type `wire` at `p`: varint (0), eight bytes
/// (1), a length-prefixed run (2) or four bytes (5).
pub open spec fn scalar_at(b: Seq<u8>, p: int, wire: int) -> Option<(WireSpec, int)> {
    if wire == 0 {
        match varint_at(b, p) {
            Some((v, e)) => Some((WireSpec::Varint(v), e)),
            None => None,
        }
    } else if wire == 1 {
        if 0 <= p && p + 8 <= b.len() {
            Some((WireSpec::Fixed64(b.subrange(p, p + 8)), p + 8))
        } else {
            None
        }
    } else if wire == 2 {
        match varint_at(b, p) {
            Some((n, e)) => if e + n <= b.len() {
                Some((WireSpec::Bytes(b.subrange(e, e + n)), e + n))
            } else {
                None
            },
            None => None,
        }
    } else if wire == 5 {
        if 0 <= p && p + 4 <= b.len() {
            Some((WireSpec::Fixed32(b.subrange(p, p + 4)), p + 4))
        } else {
            None
        }
    } else {
        None
    }
}

/// The fields from `pos` on: to the end of the bytes at top level, or to the
/// end-group tag of field `group` inside a group (the position after that
/// tag is returned). Field number 0 or above 32 bits, an unknown wire type,
/// an end-group tag that closes nothing open, a truncated payload or groups
/// nested deeper than `MAX_GROUP_DEPTH` make the walk fail.
pub open spec fn walk(b: Seq<u8>, pos: int, group: Option<u32>, depth: nat) -> Option<
    (Seq<(u32, WireSpec)>, int),
>
    decreases b.len() - pos,
{
    if pos < 0 || pos > b.len() {
        None
    } else if pos == b.len() {
        if group is None {
            Some((Seq::empty(), pos))
        } else {
            None
        }
    } else {
        match varint_at(b, pos) {
            None => None,
            Some((key, p1)) => {
                let num = key / 8;
                let wire = key % 8;
                if !(pos < p1 <= b.len()) || num == 0 || num > u32::MAX {
                    None
                } else if wire == 4 {
                    if group == Some(num as u32) {
                        Some((Seq::empty(), p1))
                    } else {
                        None
                    }
                } else {
                    let item: Option<(WireSpec, int)> = if wire == 3 {
                        if depth >= MAX_GROUP_DEPTH {
                            None
                        } else {
                            match walk(b, p1, Some(num as u32), depth + 1) {
                                Some((inner, p2)) => Some((WireSpec::Group(inner), p2)),
                                None => None,
                            }
                        }
                    } else {
                        scalar_at(b, p1, wire as int)
                    };
                    match item {
                        Some((v, p2)) => if pos < p2 <= b.len() {
                            match walk(b, p2, group, depth) {
                                Some((rest, p3)) => Some((seq![(num as u32, v)] + rest, p3)),
                                None => None,
                            }
                        } else {
                            None
                        },
                        None => None,
                    }
                }
            },
        }
    }
}

/// A whole payload as a field list.
pub open spec fn parse_spec(b: Seq<u8>) -> Option<Seq<(u32, WireSpec)>> {
    match walk(b, 0, None, 0) {
        Some((fs, _)) => Some(fs),
        None => None,
    }
}

/// A non-group payload of wire type `wire` at `p`.
fn read_scalar(b: &[u8], p: usize, wire: u64) -> (r: Option<(WireValue, usize)>)
    requires
        p <= b@.len(),
    ensures
        match scalar_at(b@, p as int, wire as int) {
            Some((v, e)) => r matches Some((x, e2)) && value_view(x) == v && e2 == e && p < e
                <= b@.len(),
            None => r is None,
        },
{
    if wire == 0 {
        match read_varint(b, p) {
            Some((v, e)) => Some((WireValue::Varint(v), e)),
            None => None,
        }
    } else if wire == 1 {
        if b.len() - p >= 8 {
            let a: [u8; 8] = [b[p], b[p + 1], b[p + 2], b[p + 3], b[p + 4], b[p + 5], b[p + 6], b[p + 7]];
            assert(a@ =~= b@.subrange(p as int, p + 8));
            Some((WireValue::Fixed64(a), p + 8))
        } else {
            None
        }
    } else if wire == 2 {
        match read_varint(b, p) {
            Some((n, e)) => {
                if n <= (b.len() - e) as u64 {
                    let end = e + n as usize;
                    let v = slice_to_vec(slice_subrange(b, e, end));
                    assert(v@ =~= b@.subrange(e as int, e + n));
                    Some((WireValue::Bytes(v), end))
                } else {
                    None
                }
            },
            None => None,
        }
    } else if wire == 5 {
        if b.len() - p >= 4 {
            let a: [u8; 4] = [b[p], b[p + 1], b[p + 2], b[p + 3]];
            assert(a@ =~= b@.subrange(p as int, p + 4));
            Some((WireValue::Fixed32(a), p + 4))
        } else {
            None
        }
    } else {
        None
    }
}

spec fn prepend(pre: Seq<(u32, WireSpec)>, o: Option<(Seq<(u32, WireSpec)>, int)>) -> Option<
    (Seq<(u32, WireSpec)>, int),
> {
    match o {
        Some((fs, e)) => Some((pre + fs, e)),
        None => None,
    }
}

/// The fields from `start` on, as `walk` reads them.
fn walk_exec(b: &[u8], start: usize, group: Option<u32>, depth: u32) -> (r: Option<
    (Vec<Field>, usize),
>)
    requires
        start <= b@.len(),
        depth <= MAX_GROUP_DEPTH,
    ensures
        match walk(b@, start as int, group, depth as nat) {
            Some((fs, e)) => r matches Some((v, e2)) && fields_view(v@) == fs && e2 == e && start
                <= e <= b@.len() && (group is Some ==> start < e),
            None => r is None,
        },
    decreases b@.len() - start,
{
    let mut out: Vec<Field> = Vec::new();
    let mut pos = start;
    assert(fields_view(out@) =~= Seq::empty());
    assert(prepend(Seq::empty(), walk(b@, start as int, group, depth as nat)) =~= walk(
        b@,
        start as int,
        group,
        depth as nat,
    )) by {
        match walk(b@, start as int, group, depth as nat) {
            Some((fs, e)) => {
                assert(Seq::<(u32, WireSpec)>::empty() + fs =~= fs);
            },
            None => {},
        }
    }
    loop
        invariant
            start <= pos <= b@.len(),
            depth <= MAX_GROUP_DEPTH,
            walk(b@, start as int, group, depth as nat) == prepend(
                fields_view(out@),
                walk(b@, pos as int, group, depth as nat),
            ),
        decreases b@.len() - pos,
    {
        if pos == b.len() {
            if group.is_none() {
                assert(fields_view(out@) + Seq::<(u32, WireSpec)>::empty() =~= fields_view(out@));
                return Some((out, pos));
            } else {
                return None;
            }
        }
        let (key, p1) = match read_varint(b, pos) {
            Some(x) => x,
            None => {
                return None;
            },
        };
        let num = key / 8;
        let wire = key % 8;
        if num == 0 || num > 0xffff_ffffu64 {
            return None;
        }
        let number = num as u32;
        if wire == 4 {
            let closes = match group {
                Some(g) => g == number,
                None => false,
            };
            if closes {
                assert(fields_view(out@) + Seq::<(u32, WireSpec)>::empty() =~= fields_view(out@));
                return Some((out, p1));
            } else {
                return None;
            }
        }
        let (v, p2) = if wire == 3 {
            if depth >= MAX_GROUP_DEPTH {
                return None;
            }
            match walk_exec(b, p1, Some(number), depth + 1) {
                Some((inner, p2)) => (WireValue::Group(inner), p2),
                None => {
                    return None;
                },
            }
        } else {
            match read_scalar(b, p1, wire) {
                Some(x) => x,
                None => {
                    return None;
                },
            }
        };
        let f = Field { number, value: v };
        proof {
            lemma_fields_view_push(out@, f);
            let x = seq![(number, value_view(v))];
            match walk(b@, p2 as int, group, depth as nat) {
                Some((rest, p3)) => {
                    assert(fields_view(out@) + (x + rest) =~= (fields_view(out@) + x) + rest);
                },
                None => {},
            }
        }
        out.push(f);
        pos = p2;
    }
}

/// A payload's fields, when the whole payload walks cleanly.
pub fn parse_fields(b: &[u8]) -> (r: Option<Vec<Field>>)
    ensures
        match parse_spec(b@) {
            Some(fs) => r matches Some(v) && fields_view(v@) == fs,
            None => r is None,
        },
{
    match walk_exec(b, 0, None, 0) {
        Some((v, _)) => Some(v),
        None => None,
    }
}

/// A run of packed varints from `pos` to the end of the bytes.
pub open spec fn packed_from(b: Seq<u8>, pos: int) -> Option<Seq<u64>>
    decreases b.len() - pos,
{
    if pos < 0 || pos > b.len() {
        None
    } else if pos == b.len() {
        Some(Seq::empty())
    } else {
        match varint_at(b, pos) {
            Some((v, e)) => if pos < e <= b.len() {
                match packed_from(b, e) {
                    Some(rest) => Some(seq![v] + rest),
                    None => None,
                }
            } else {
                None
            },
            None => None,
        }
    }
}

/// The packed varints that fill `b`, when every one of them reads cleanly.
pub fn packed_u64s(b: &[u8]) -> (r: Option<Vec<u64>>)
    ensures
        match packed_from(b@, 0) {
            Some(vs) => r matches Some(v) && v@ == vs,
            None => r is None,
        },
{
    let mut out: Vec<u64> = Vec::new();
    let mut pos: usize = 0;
    assert(packed_from(b@, 0) == match packed_from(b@, 0) {
        Some(rest) => Some(out@ + rest),
        None => None::<Seq<u64>>,
    }) by {
        match packed_from(b@, 0) {
            Some(rest) => {
                assert(out@ + rest =~= rest);
            },
            None => {},
        }
    }
    while pos < b.len()
        invariant
            pos <= b@.len(),
            packed_from(b@, 0) == match packed_from(b@, pos as int) {
                Some(rest) => Some(out@ + rest),
                None => None::<Seq<u64>>,
            },
        decreases b@.len() - pos,
    {
        match read_varint(b, pos) {
            Some((v, e)) => {
                proof {
                    match packed_from(b@, e as int) {
                        Some(rest) => {
                            assert(out@ + (seq![v] + rest) =~= out@.push(v) + rest);
                        },
                        None => {},
                    }
                }
                out.push(v);
                pos = e;
            },
            None => {
                return None;
            },
        }
    }
    assert(out@ + Seq::<u64>::empty() =~= out@);
    Some(out)
}

/// The power of 128.
pub open spec fn pow128(k: nat) -> int
    decreases k,
{
    if k == 0 {
        1
    } else {
        128 * pow128((k - 1) as nat)
    }
}

spec fn scaled(acc: int, mult: int, o: Option<(int, int)>) -> Option<(int, int)> {
    match o {
        Some((v, e)) => Some((acc + mult * v, e)),
        None => None,
    }
}

/// The varint at `pos`: its value and the position after it.
pub fn read_varint(b: &[u8], pos: usize) -> (r: Option<(u64, usize)>)
    ensures
        match varint_at(b@, pos as int) {
            Some((v, e)) => r matches Some((v2, e2)) && v2 == v && e2 == e && pos < e <= b@.len(),
            None => r is None,
        },
{
    let mut acc: u128 = 0;
    let mut mult: u128 = 1;
    let mut k: usize = 0;
    proof {
        lemma_varint_tail_bounds(b@, pos as int, 0);
        lemma_pow128_mono(0, 10);
    }
    while k < 10
        invariant
            k <= 10,
            mult == pow128(k as nat),
            0 <= acc < mult,
            mult <= pow128(10),
            varint_tail(b@, pos as int, 0) == scaled(
                acc as int,
                mult as int,
                varint_tail(b@, pos as int, k as int),
            ),
        decreases 10 - k,
    {
        if k >= b.len() || pos >= b.len() - k {
            return None;
        }
        let byte = b[pos + k];
        proof {
            assert(pow128(10) == 1180591620717411303424) by {
                reveal_with_fuel(pow128, 11);
            }
            assert(mult * byte <= mult * 255) by (nonlinear_arith)
                requires
                    byte <= 255,
                    mult >= 0,
            ;
        }
        if byte < 128 {
            let v: u128 = acc + mult * (byte as u128);
            if v > 0xffff_ffff_ffff_ffffu128 {
                return None;
            }
            return Some((v as u64, pos + k + 1));
        }
        let c: u128 = (byte - 128) as u128;
        proof {
            match varint_tail(b@, pos as int, k + 1) {
                Some((v, e)) => {
                    assert(mult * (c + 128 * v) == mult * c + (mult * 128) * v)
                        by (nonlinear_arith);
                },
                None => {},
            }
            assert(mult * c <= mult * 127) by (nonlinear_arith)
                requires
                    c <= 127,
                    mult >= 0,
            ;
            lemma_pow128_mono((k + 1) as nat, 10);
        }
        acc = acc + mult * c;
        mult = mult * 128;
        k = k + 1;
    }
    None
}

proof fn lemma_pow128_mono(i: nat, j: nat)
    requires
        i <= j,
    ensures
        1 <= pow128(i) <= pow128(j),
    decreases j,
{
    if j > 0 {
        if i == j {
            lemma_pow128_mono((j - 1) as nat, (j - 1) as nat);
        } else {
            lemma_pow128_mono(i, (j - 1) as nat);
        }
    }
}

} // verus!

verus! {

spec fn shifted<T>(o: Option<(T, int)>, d: int) -> Option<(T, int)> {
    match o {
        Some((v, e)) => Some((v, e + d)),
        None => None,
    }
}

proof fn lemma_varint_prefix(a: Seq<u8>, b: Seq<u8>, pos: int, k: int)
    requires
        varint_tail(a, pos, k) is Some,
    ensures
        varint_tail(a + b, pos, k) == varint_tail(a, pos, k),
    decreases 10 - k,
{
    assert((a + b)[pos + k] == a[pos + k]);
    if a[pos + k] >= 128 {
        lemma_varint_prefix(a, b, pos, k + 1);
    }
}

proof fn lemma_varint_shift(x: Seq<u8>, b: Seq<u8>, pos: int, k: int)
    requires
        0 <= pos,
    ensures
        varint_tail(x + b, x.len() + pos, k) == shifted(varint_tail(b, pos, k), x.len() as int),
    decreases 10 - k,
{
    if 0 <= k < 10 && pos + k < b.len() {
        assert((x + b)[x.len() + pos + k] == b[pos + k]);
        if b[pos + k] >= 128 {
            lemma_varint_shift(x, b, pos, k + 1);
        }
    }
}

proof fn lemma_scalar_prefix(a: Seq<u8>, b: Seq<u8>, p: int, wire: int)
    requires
        scalar_at(a, p, wire) is Some,
    ensures
        scalar_at(a + b, p, wire) == scalar_at(a, p, wire),
{
    if wire == 0 || wire == 2 {
        lemma_varint_prefix(a, b, p, 0);
        lemma_varint_tail_bounds(a, p, 0);
        if wire == 2 {
            let (n, e) = varint_at(a, p).unwrap();
            assert((a + b).subrange(e, e + n) =~= a.subrange(e, e + n));
        }
    } else if wire == 1 {
        assert((a + b).subrange(p, p + 8) =~= a.subrange(p, p + 8));
    } else if wire == 5 {
        assert((a + b).subrange(p, p + 4) =~= a.subrange(p, p + 4));
    }
}

proof fn lemma_scalar_shift(x: Seq<u8>, b: Seq<u8>, p: int, wire: int)
    requires
        0 <= p,
    ensures
        scalar_at(x + b, x.len() + p, wire) == shifted(scalar_at(b, p, wire), x.len() as int),
{
    let d = x.len() as int;
    lemma_varint_shift(x, b, p, 0);
    lemma_varint_tail_bounds(b, p, 0);
    if wire == 2 {
        match varint_at(b, p) {
            Some((n, e)) => {
                if e + n <= b.len() {
                    assert((x + b).subrange(e + d, e + d + n) =~= b.subrange(e, e + n));
                }
            },
            None => {},
        }
    } else if wire == 1 {
        if p + 8 <= b.len() {
            assert((x + b).subrange(d + p, d + p + 8) =~= b.subrange(p, p + 8));
        }
    } else if wire == 5 {
        if p + 4 <= b.len() {
            assert((x + b).subrange(d + p, d + p + 4) =~= b.subrange(p, p + 4));
        }
    }
}

proof fn lemma_walk_shift(x: Seq<u8>, b: Seq<u8>, pos: int, group: Option<u32>, depth: nat)
    requires
        0 <= pos,
    ensures
        walk(x + b, x.len() + pos, group, depth) == shifted(walk(b, pos, group, depth), x.len() as int),
    decreases b.len() - pos,
{
    let d = x.len() as int;
    let xb = x + b;
    if pos < b.len() {
        lemma_varint_shift(x, b, pos, 0);
        lemma_varint_tail_bounds(b, pos, 0);
        match varint_at(b, pos) {
            None => {},
            Some((key, p1)) => {
                let num = key / 8;
                let wire = key % 8;
                if pos < p1 <= b.len() && num != 0 && num <= u32::MAX && wire != 4 {
                    if wire == 3 {
                        if depth < MAX_GROUP_DEPTH {
                            lemma_walk_shift(x, b, p1, Some(num as u32), depth + 1);
                            match walk(b, p1, Some(num as u32), depth + 1) {
                                Some((inner, p2)) => {
                                    if pos < p2 <= b.len() {
                                        lemma_walk_shift(x, b, p2, group, depth);
                                    }
                                },
                                None => {},
                            }
                        }
                    } else {
                        lemma_scalar_shift(x, b, p1, wire as int);
                        match scalar_at(b, p1, wire as int) {
                            Some((v, p2)) => {
                                if pos < p2 <= b.len() {
                                    lemma_walk_shift(x, b, p2, group, depth);
                                }
                            },
                            None => {},
                        }
                    }
                }
            },
        }
    }
}

proof fn lemma_walk_prefix(a: Seq<u8>, b: Seq<u8>, pos: int, group: Option<u32>, depth: nat)
    requires
        walk(a, pos, group, depth) is Some,
    ensures
        group is Some ==> walk(a + b, pos, group, depth) == walk(a, pos, group, depth),
        group is None ==> walk(a, pos, group, depth).unwrap().1 == a.len() && walk(a + b, pos, group, depth)
            == match walk(a + b, a.len() as int, group, depth) {
            Some((rest, e)) => Some((walk(a, pos, group, depth).unwrap().0 + rest, e)),
            None => None,
        },
    decreases a.len() - pos,
{
    let ab = a + b;
    if pos == a.len() {
        if group is None {
            match walk(ab, a.len() as int, group, depth) {
                Some((rest, e)) => {
                    assert(Seq::<(u32, WireSpec)>::empty() + rest =~= rest);
                },
                None => {},
            }
        }
    } else {
        lemma_varint_prefix(a, b, pos, 0);
        let (key, p1) = varint_at(a, pos).unwrap();
        let num = key / 8;
        let wire = key % 8;
        if wire != 4 {
            let item: Option<(WireSpec, int)> = if wire == 3 {
                lemma_walk_prefix(a, b, p1, Some(num as u32), depth + 1);
                match walk(a, p1, Some(num as u32), depth + 1) {
                    Some((inner, p2)) => Some((WireSpec::Group(inner), p2)),
                    None => None,
                }
            } else {
                lemma_scalar_prefix(a, b, p1, wire as int);
                scalar_at(a, p1, wire as int)
            };
            let (v, p2) = item.unwrap();
            lemma_walk_prefix(a, b, p2, group, depth);
            if group is None {
                let rest_a = walk(a, p2, group, depth).unwrap().0;
                match walk(ab, a.len() as int, group, depth) {
                    Some((rest, e)) => {
                        assert(seq![(num as u32, v)] + (rest_a + rest) =~= (seq![(num as u32, v)] + rest_a)
                            + rest);
                    },
                    None => {},
                }
            }
        }
    }
}

/// Two payloads that each walk as fields walk together as one: the fields
/// of the joined bytes are those of the first followed by those of the
/// second (protobuf's merge of concatenated messages, which is how a
/// repeated message field reads as one).
pub proof fn lemma_parse_concat(a: Seq<u8>, b: Seq<u8>)
    requires
        parse_spec(a) is Some,
        parse_spec(b) is Some,
    ensures
        parse_spec(a + b) == Some(parse_spec(a).unwrap() + parse_spec(b).unwrap()),
{
    lemma_walk_prefix(a, b, 0, None, 0);
    lemma_walk_shift(a, b, 0, None, 0);
}

} // verus!
