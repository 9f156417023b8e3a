//! Typed accessors over a decoded protobuf message: the flat field list of
//! one archive message. The archives carry no schema registry, so every
//! message is read by hand-written field numbers; a wrong wire type yields
//! `None`, never a panic.
use vstd::prelude::*;
use crate::text_util::{utf8_lossy, string_from_utf8_lossy};
use crate::wire::{
    WireSpec, value_view, fields_view, parse_spec, packed_from, parse_fields, packed_u64s,
    lemma_fields_view_len, lemma_fields_view_push, lemma_parse_concat,
};

verus! {

/// One field's payload, by wire type.
pub enum WireValue {
    Varint(u64),
    Fixed64([u8; 8]),
    Fixed32([u8; 4]),
    Bytes(Vec<u8>),
    Group(Vec<Field>),
}

/// One field of a message: its number and payload.
pub struct Field {
    pub number: u32,
    pub value: WireValue,
}

/// A decoded payload: the flat field list of one archive message.
pub struct Msg {
    pub fields: Vec<Field>,
}

/// The position of the last field numbered `n` among the first `k`.
pub open spec fn last_field(fs: Seq<Field>, n: u32, k: int) -> Option<int>
    decreases k,
{
    if k <= 0 {
        None
    } else if fs[k - 1].number == n {
        Some(k - 1)
    } else {
        last_field(fs, n, k - 1)
    }
}

/// The value of the last field numbered `n` (proto2 optional: last wins).
pub open spec fn get_spec(fs: Seq<Field>, n: u32) -> Option<WireValue> {
    match last_field(fs, n, fs.len() as int) {
        Some(i) => Some(fs[i].value),
        None => None,
    }
}

/// The positions of the fields numbered `n` among the first `k`, in order.
pub open spec fn field_positions(fs: Seq<Field>, n: u32, k: int) -> Seq<int>
    decreases k,
{
    if k <= 0 {
        Seq::empty()
    } else if fs[k - 1].number == n {
        field_positions(fs, n, k - 1).push(k - 1)
    } else {
        field_positions(fs, n, k - 1)
    }
}

/// The value of a varint field numbered `n`.
pub open spec fn varint_spec(fs: Seq<Field>, n: u32) -> Option<u64> {
    match get_spec(fs, n) {
        Some(WireValue::Varint(v)) => Some(v),
        _ => None,
    }
}

impl Msg {
    /// Last occurrence of field `n` (proto2 optional: last wins).
    pub fn get(&self, n: u32) -> (r: Option<&WireValue>)
        ensures
            match get_spec(self.fields@, n) {
                Some(v) => r matches Some(x) && *x == v,
                None => r is None,
            },
    {
        let mut k = self.fields.len();
        while k > 0
            invariant
                k <= self.fields@.len(),
                last_field(self.fields@, n, self.fields@.len() as int) == last_field(
                    self.fields@,
                    n,
                    k as int,
                ),
            decreases k,
        {
            if self.fields[k - 1].number == n {
                return Some(&self.fields[k - 1].value);
            }
            k = k - 1;
        }
        None
    }

    /// Every occurrence of field `n`, in order.
    pub fn all(&self, n: u32) -> (r: Vec<&WireValue>)
        ensures
            r@.len() == field_positions(self.fields@, n, self.fields@.len() as int).len(),
            forall|i: int|
                0 <= i < r@.len() ==> *(#[trigger] r@[i]) == self.fields@[field_positions(
                    self.fields@,
                    n,
                    self.fields@.len() as int,
                )[i]].value,
    {
        let mut out: Vec<&WireValue> = Vec::new();
        let mut k: usize = 0;
        while k < self.fields.len()
            invariant
                k <= self.fields@.len(),
                out@.len() == field_positions(self.fields@, n, k as int).len(),
                forall|i: int|
                    0 <= i < out@.len() ==> *(#[trigger] out@[i]) == self.fields@[field_positions(
                        self.fields@,
                        n,
                        k as int,
                    )[i]].value,
            decreases self.fields@.len() - k,
        {
            if self.fields[k].number == n {
                out.push(&self.fields[k].value);
            }
            k = k + 1;
        }
        out
    }

    /// Whether field `n` occurs.
    pub fn has(&self, n: u32) -> (r: bool)
        ensures
            r == (last_field(self.fields@, n, self.fields@.len() as int) is Some),
    {
        self.get(n).is_some()
    }

    /// A varint field.
    pub fn varint(&self, n: u32) -> (r: Option<u64>)
        ensures
            r == varint_spec(self.fields@, n),
    {
        match self.get(n) {
            Some(WireValue::Varint(v)) => Some(*v),
            _ => None,
        }
    }

    /// A signed enum/int field (proto2 int32/int64/enum: sign-extended
    /// varint).
    pub fn int64(&self, n: u32) -> (r: Option<i64>)
        ensures
            r == match varint_spec(self.fields@, n) {
                Some(v) => Some(v as i64),
                None => None::<i64>,
            },
    {
        match self.varint(n) {
            Some(v) => Some(v as i64),
            None => None,
        }
    }

    /// A boolean field: a non-zero varint.
    pub fn boolean(&self, n: u32) -> (r: Option<bool>)
        ensures
            r == match varint_spec(self.fields@, n) {
                Some(v) => Some(v != 0),
                None => None::<bool>,
            },
    {
        match self.varint(n) {
            Some(v) => Some(v != 0),
            None => None,
        }
    }

    /// A length-delimited field's bytes.
    pub fn bytes(&self, n: u32) -> (r: Option<&[u8]>)
        ensures
            match get_spec(self.fields@, n) {
                Some(WireValue::Bytes(b)) => r matches Some(x) && x@ == b@,
                _ => r is None,
            },
    {
        match self.get(n) {
            Some(WireValue::Bytes(b)) => Some(b.as_slice()),
            _ => None,
        }
    }

    /// A string field: its bytes decoded as UTF-8, ill-formed sequences
    /// replaced by U+FFFD.
    pub fn string(&self, n: u32) -> (r: Option<String>)
        ensures
            match get_spec(self.fields@, n) {
                Some(WireValue::Bytes(b)) => r matches Some(s) && s@ == utf8_lossy(b@),
                _ => r is None,
            },
    {
        match self.bytes(n) {
            Some(b) => Some(string_from_utf8_lossy(b)),
            None => None,
        }
    }
}

} // verus!

verus! {

/// The position of the last entry numbered `n` among the first `k` of a
/// viewed field list.
pub open spec fn vlast(fs: Seq<(u32, WireSpec)>, n: u32, k: int) -> Option<int>
    decreases k,
{
    if k <= 0 {
        None
    } else if fs[k - 1].0 == n {
        Some(k - 1)
    } else {
        vlast(fs, n, k - 1)
    }
}

/// The last payload numbered `n`.
pub open spec fn vget(fs: Seq<(u32, WireSpec)>, n: u32) -> Option<WireSpec> {
    match vlast(fs, n, fs.len() as int) {
        Some(i) => Some(fs[i].1),
        None => None,
    }
}

/// The positions of the entries numbered `n` among the first `k`.
pub open spec fn vpositions(fs: Seq<(u32, WireSpec)>, n: u32, k: int) -> Seq<int>
    decreases k,
{
    if k <= 0 {
        Seq::empty()
    } else if fs[k - 1].0 == n {
        vpositions(fs, n, k - 1).push(k - 1)
    } else {
        vpositions(fs, n, k - 1)
    }
}

/// Every payload numbered `n`, in order.
pub open spec fn vall(fs: Seq<(u32, WireSpec)>, n: u32) -> Seq<WireSpec> {
    vpositions(fs, n, fs.len() as int).map_values(|i: int| fs[i].1)
}

/// The varint numbered `n`.
pub open spec fn vvarint(fs: Seq<(u32, WireSpec)>, n: u32) -> Option<u64> {
    match vget(fs, n) {
        Some(WireSpec::Varint(v)) => Some(v),
        _ => None,
    }
}

/// A payload read as a nested message: length-delimited bytes walked as
/// fields, or an inline group.
pub open spec fn nested(v: WireSpec) -> Option<Seq<(u32, WireSpec)>> {
    match v {
        WireSpec::Bytes(b) => parse_spec(b),
        WireSpec::Group(g) => Some(g),
        _ => None,
    }
}

/// The occurrences that read as messages, concatenated; `None` when none
/// does.
pub open spec fn merge_nested(vs: Seq<WireSpec>) -> Option<Seq<(u32, WireSpec)>>
    decreases vs.len(),
{
    if vs.len() == 0 {
        None
    } else {
        let head = merge_nested(vs.drop_last());
        match nested(vs.last()) {
            Some(m) => match head {
                Some(h) => Some(h + m),
                None => Some(m),
            },
            None => head,
        }
    }
}

/// Field `n` as a nested message. A singular message field that occurs
/// more than once merges: the occurrences concatenate.
pub open spec fn vmsg(fs: Seq<(u32, WireSpec)>, n: u32) -> Option<Seq<(u32, WireSpec)>> {
    if vall(fs, n).len() > 1 {
        merge_nested(vall(fs, n))
    } else {
        match vget(fs, n) {
            Some(v) => nested(v),
            None => None,
        }
    }
}

/// The occurrences that read as messages, each on its own.
pub open spec fn nested_all(vs: Seq<WireSpec>) -> Seq<Seq<(u32, WireSpec)>>
    decreases vs.len(),
{
    if vs.len() == 0 {
        Seq::empty()
    } else {
        match nested(vs.last()) {
            Some(m) => nested_all(vs.drop_last()).push(m),
            None => nested_all(vs.drop_last()),
        }
    }
}

/// The deepest chain of single-field wrappers a reference is read through.
pub const MAX_WRAPPERS: u32 = 16;

/// A reference id inside message `m`: field 1 as a varint, or else field 1
/// as a nested wrapper read again, at most `fuel` levels deep.
pub open spec fn unwrap_ref(m: Seq<(u32, WireSpec)>, fuel: nat) -> Option<u64>
    decreases fuel,
{
    if fuel == 0 {
        None
    } else {
        match vvarint(m, 1) {
            Some(id) => Some(id),
            None => match vmsg(m, 1) {
                Some(inner) => unwrap_ref(inner, (fuel - 1) as nat),
                None => None,
            },
        }
    }
}

/// A reference payload: a bare varint id, or a message holding one.
pub open spec fn deep_ref_spec(v: WireSpec) -> Option<u64> {
    match v {
        WireSpec::Varint(x) => Some(x),
        WireSpec::Bytes(b) => match parse_spec(b) {
            Some(m) => unwrap_ref(m, MAX_WRAPPERS as nat),
            None => None,
        },
        _ => None,
    }
}

/// The reference ids among the payloads, in order.
pub open spec fn refs_of(vs: Seq<WireSpec>) -> Seq<u64>
    decreases vs.len(),
{
    if vs.len() == 0 {
        Seq::empty()
    } else {
        match deep_ref_spec(vs.last()) {
            Some(id) => refs_of(vs.drop_last()).push(id),
            None => refs_of(vs.drop_last()),
        }
    }
}

/// Packed repeated varints: a length-delimited run holds a packed list, a
/// bare varint holds one, anything else none.
pub open spec fn packed_of(vs: Seq<WireSpec>) -> Seq<u64>
    decreases vs.len(),
{
    if vs.len() == 0 {
        Seq::empty()
    } else {
        let head = packed_of(vs.drop_last());
        match vs.last() {
            WireSpec::Bytes(b) => match packed_from(b, 0) {
                Some(xs) => head + xs,
                None => head,
            },
            WireSpec::Varint(v) => head.push(v),
            _ => head,
        }
    }
}

pub proof fn lemma_fields_view_concat(a: Seq<Field>, b: Seq<Field>)
    ensures
        fields_view(a + b) == fields_view(a) + fields_view(b),
    decreases b.len(),
{
    if b.len() == 0 {
        assert(a + b =~= a);
        assert(fields_view(b) =~= Seq::empty());
        assert(fields_view(a) + fields_view(b) =~= fields_view(a));
    } else {
        let bl = b.drop_last();
        lemma_fields_view_concat(a, bl);
        assert(a + b =~= (a + bl).push(b.last()));
        assert(b =~= bl.push(b.last()));
        lemma_fields_view_push(a + bl, b.last());
        lemma_fields_view_push(bl, b.last());
        let y = seq![(b.last().number, value_view(b.last().value))];
        assert((fields_view(a) + fields_view(bl)) + y =~= fields_view(a) + (fields_view(bl) + y));
    }
}

/// The field lists and their views agree entry by entry, so lookups agree.
pub proof fn lemma_view_lookups(fs: Seq<Field>, n: u32, k: int)
    requires
        0 <= k <= fs.len(),
    ensures
        vlast(fields_view(fs), n, k) == last_field(fs, n, k),
        vpositions(fields_view(fs), n, k) == field_positions(fs, n, k),
    decreases k,
{
    lemma_fields_view_len(fs);
    if k > 0 {
        lemma_view_lookups(fs, n, k - 1);
        assert(fields_view(fs)[k - 1] == (fs[k - 1].number, value_view(fs[k - 1].value)));
    }
}

pub proof fn lemma_positions_bounds(fs: Seq<Field>, n: u32, k: int)
    requires
        0 <= k <= fs.len(),
    ensures
        forall|i: int|
            0 <= i < field_positions(fs, n, k).len() ==> 0 <= #[trigger] field_positions(
                fs,
                n,
                k,
            )[i] < k && fs[field_positions(fs, n, k)[i]].number == n,
    decreases k,
{
    if k > 0 {
        lemma_positions_bounds(fs, n, k - 1);
    }
}

pub proof fn lemma_last_bounds(fs: Seq<Field>, n: u32, k: int)
    requires
        0 <= k <= fs.len(),
    ensures
        last_field(fs, n, k) matches Some(i) ==> 0 <= i < k,
    decreases k,
{
    if k > 0 {
        lemma_last_bounds(fs, n, k - 1);
    }
}

/// The views of the payloads numbered `n`, in order.
pub proof fn lemma_vall(fs: Seq<Field>, n: u32)
    ensures
        vall(fields_view(fs), n).len() == field_positions(fs, n, fs.len() as int).len(),
        forall|i: int|
            0 <= i < vall(fields_view(fs), n).len() ==> #[trigger] vall(fields_view(fs), n)[i]
                == value_view(fs[field_positions(fs, n, fs.len() as int)[i]].value),
        vget(fields_view(fs), n) == match get_spec(fs, n) {
            Some(v) => Some(value_view(v)),
            None => None::<WireSpec>,
        },
{
    lemma_fields_view_len(fs);
    lemma_view_lookups(fs, n, fs.len() as int);
    lemma_positions_bounds(fs, n, fs.len() as int);
    lemma_last_bounds(fs, n, fs.len() as int);
    assert forall|i: int| 0 <= i < vall(fields_view(fs), n).len() implies #[trigger] vall(
        fields_view(fs),
        n,
    )[i] == value_view(fs[field_positions(fs, n, fs.len() as int)[i]].value) by {
        let j = field_positions(fs, n, fs.len() as int)[i];
        assert(fields_view(fs)[j] == (fs[j].number, value_view(fs[j].value)));
    }
    match last_field(fs, n, fs.len() as int) {
        Some(i) => {
            assert(fields_view(fs)[i] == (fs[i].number, value_view(fs[i].value)));
        },
        None => {},
    }
}

/// A deep copy of a field list.
pub fn clone_fields(fs: &Vec<Field>) -> (r: Vec<Field>)
    ensures
        fields_view(r@) == fields_view(fs@),
    decreases fs@,
{
    let mut out: Vec<Field> = Vec::new();
    let mut i: usize = 0;
    while i < fs.len()
        invariant
            i <= fs@.len(),
            fields_view(out@) == fields_view(fs@.take(i as int)),
        decreases fs@.len() - i,
    {
        let v = clone_value(&fs[i].value);
        let f = Field { number: fs[i].number, value: v };
        proof {
            lemma_fields_view_push(out@, f);
            lemma_fields_view_push(fs@.take(i as int), fs@[i as int]);
            assert(fs@.take(i as int).push(fs@[i as int]) =~= fs@.take(i + 1));
        }
        out.push(f);
        i = i + 1;
    }
    assert(fs@.take(i as int) =~= fs@);
    out
}

/// A deep copy of a payload.
pub fn clone_value(v: &WireValue) -> (r: WireValue)
    ensures
        value_view(r) == value_view(*v),
    decreases v,
{
    match v {
        WireValue::Varint(x) => WireValue::Varint(*x),
        WireValue::Fixed64(a) => WireValue::Fixed64(*a),
        WireValue::Fixed32(a) => WireValue::Fixed32(*a),
        WireValue::Bytes(b) => WireValue::Bytes(b.clone()),
        WireValue::Group(fs) => WireValue::Group(clone_fields(fs)),
    }
}

} // verus!

verus! {

impl Msg {
    /// The fields of a payload, when it walks cleanly.
    pub fn parse(payload: &[u8]) -> (r: Option<Msg>)
        ensures
            match parse_spec(payload@) {
                Some(fs) => r matches Some(m) && fields_view(m.fields@) == fs,
                None => r is None,
            },
    {
        match parse_fields(payload) {
            Some(fields) => Some(Msg { fields }),
            None => None,
        }
    }

    /// A payload read as a nested message.
    fn nested_of(v: &WireValue) -> (r: Option<Msg>)
        ensures
            match nested(value_view(*v)) {
                Some(fs) => r matches Some(m) && fields_view(m.fields@) == fs,
                None => r is None,
            },
    {
        match v {
            WireValue::Bytes(b) => Msg::parse(b.as_slice()),
            WireValue::Group(fs) => Some(Msg { fields: clone_fields(fs) }),
            _ => None,
        }
    }

    /// Field `n` as a nested message (bytes walked as fields, or an inline
    /// group). A singular message field that occurs more than once merges:
    /// the occurrences that read as messages concatenate, and scalars
    /// inside then resolve last-wins on read.
    pub fn msg(&self, n: u32) -> (r: Option<Msg>)
        ensures
            match vmsg(fields_view(self.fields@), n) {
                Some(fs) => r matches Some(m) && fields_view(m.fields@) == fs,
                None => r is None,
            },
    {
        let occurrences = self.all(n);
        proof {
            lemma_vall(self.fields@, n);
        }
        let ghost vs = vall(fields_view(self.fields@), n);
        if occurrences.len() > 1 {
            let mut merged: Vec<Field> = Vec::new();
            let mut any = false;
            let mut i: usize = 0;
            while i < occurrences.len()
                invariant
                    i <= occurrences@.len(),
                    occurrences@.len() == vs.len(),
                    forall|j: int|
                        0 <= j < occurrences@.len() ==> value_view(*#[trigger] occurrences@[j])
                            == vs[j],
                    !any ==> merged@.len() == 0,
                    merge_nested(vs.take(i as int)) == if any {
                        Some(fields_view(merged@))
                    } else {
                        None::<Seq<(u32, WireSpec)>>
                    },
                decreases occurrences@.len() - i,
            {
                let m = Msg::nested_of(occurrences[i]);
                proof {
                    assert(value_view(*occurrences@[i as int]) == vs[i as int]);
                    assert(vs.take(i + 1).drop_last() =~= vs.take(i as int));
                    assert(vs.take(i + 1).last() == vs[i as int]);
                }
                match m {
                    Some(mut m) => {
                        let ghost mf = m.fields@;
                        proof {
                            lemma_fields_view_concat(merged@, mf);
                            if !any {
                                assert(merged@ + mf =~= mf);
                            }
                        }
                        merged.append(&mut m.fields);
                        any = true;
                    },
                    None => {},
                }
                i = i + 1;
            }
            assert(vs.take(i as int) =~= vs);
            if any {
                Some(Msg { fields: merged })
            } else {
                None
            }
        } else {
            match self.get(n) {
                Some(v) => Msg::nested_of(v),
                None => None,
            }
        }
    }

    /// Every occurrence of field `n` that reads as a nested message.
    pub fn msgs(&self, n: u32) -> (r: Vec<Msg>)
        ensures
            r@.len() == nested_all(vall(fields_view(self.fields@), n)).len(),
            forall|i: int|
                0 <= i < r@.len() ==> fields_view(#[trigger] r@[i].fields@) == nested_all(
                    vall(fields_view(self.fields@), n),
                )[i],
    {
        let occurrences = self.all(n);
        proof {
            lemma_vall(self.fields@, n);
        }
        let ghost vs = vall(fields_view(self.fields@), n);
        let mut out: Vec<Msg> = Vec::new();
        let mut i: usize = 0;
        while i < occurrences.len()
            invariant
                i <= occurrences@.len(),
                occurrences@.len() == vs.len(),
                forall|j: int|
                    0 <= j < occurrences@.len() ==> value_view(*#[trigger] occurrences@[j])
                        == vs[j],
                out@.len() == nested_all(vs.take(i as int)).len(),
                forall|j: int|
                    0 <= j < out@.len() ==> fields_view(#[trigger] out@[j].fields@)
                        == nested_all(vs.take(i as int))[j],
            decreases occurrences@.len() - i,
        {
            let m = Msg::nested_of(occurrences[i]);
            proof {
                assert(vs.take(i + 1).drop_last() =~= vs.take(i as int));
                assert(vs.take(i + 1).last() == vs[i as int]);
            }
            match m {
                Some(m) => {
                    out.push(m);
                },
                None => {},
            }
            i = i + 1;
        }
        assert(vs.take(i as int) =~= vs);
        out
    }

    /// A reference payload's id: a bare varint, or field 1 of the message
    /// the bytes hold, unwrapping nested single-field wrappers at most
    /// `MAX_WRAPPERS` levels deep.
    pub fn deep_reference(v: &WireValue) -> (r: Option<u64>)
        ensures
            r == deep_ref_spec(value_view(*v)),
    {
        let mut current = match v {
            WireValue::Varint(x) => {
                return Some(*x);
            },
            WireValue::Bytes(b) => match Msg::parse(b.as_slice()) {
                Some(m) => m,
                None => {
                    return None;
                },
            },
            _ => {
                return None;
            },
        };
        let mut k: u32 = 0;
        while k < MAX_WRAPPERS
            invariant
                k <= MAX_WRAPPERS,
                deep_ref_spec(value_view(*v)) == unwrap_ref(
                    fields_view(current.fields@),
                    (MAX_WRAPPERS - k) as nat,
                ),
            decreases MAX_WRAPPERS - k,
        {
            proof {
                lemma_vall(current.fields@, 1);
            }
            match current.varint(1) {
                Some(id) => {
                    return Some(id);
                },
                None => {},
            }
            current = match current.msg(1) {
                Some(m) => m,
                None => {
                    return None;
                },
            };
            k = k + 1;
        }
        None
    }

    /// Field `n` as a reference id.
    pub fn reference(&self, n: u32) -> (r: Option<u64>)
        ensures
            r == match vget(fields_view(self.fields@), n) {
                Some(v) => deep_ref_spec(v),
                None => None::<u64>,
            },
    {
        proof {
            lemma_vall(self.fields@, n);
        }
        match self.get(n) {
            Some(v) => Msg::deep_reference(v),
            None => None,
        }
    }

    /// Every occurrence of field `n` read as a reference id, those that do
    /// not read as one left out.
    pub fn references(&self, n: u32) -> (r: Vec<u64>)
        ensures
            r@ == refs_of(vall(fields_view(self.fields@), n)),
    {
        let occurrences = self.all(n);
        proof {
            lemma_vall(self.fields@, n);
        }
        let ghost vs = vall(fields_view(self.fields@), n);
        let mut out: Vec<u64> = Vec::new();
        let mut i: usize = 0;
        while i < occurrences.len()
            invariant
                i <= occurrences@.len(),
                occurrences@.len() == vs.len(),
                forall|j: int|
                    0 <= j < occurrences@.len() ==> value_view(*#[trigger] occurrences@[j])
                        == vs[j],
                out@ == refs_of(vs.take(i as int)),
            decreases occurrences@.len() - i,
        {
            let id = Msg::deep_reference(occurrences[i]);
            proof {
                assert(vs.take(i + 1).drop_last() =~= vs.take(i as int));
                assert(vs.take(i + 1).last() == vs[i as int]);
            }
            match id {
                Some(id) => {
                    out.push(id);
                },
                None => {},
            }
            i = i + 1;
        }
        assert(vs.take(i as int) =~= vs);
        out
    }

    /// Packed repeated varints of field `n` (or single varints), in order.
    pub fn packed_varints(&self, n: u32) -> (r: Vec<u64>)
        ensures
            r@ == packed_of(vall(fields_view(self.fields@), n)),
    {
        let occurrences = self.all(n);
        proof {
            lemma_vall(self.fields@, n);
        }
        let ghost vs = vall(fields_view(self.fields@), n);
        let mut out: Vec<u64> = Vec::new();
        let mut i: usize = 0;
        while i < occurrences.len()
            invariant
                i <= occurrences@.len(),
                occurrences@.len() == vs.len(),
                forall|j: int|
                    0 <= j < occurrences@.len() ==> value_view(*#[trigger] occurrences@[j])
                        == vs[j],
                out@ == packed_of(vs.take(i as int)),
            decreases occurrences@.len() - i,
        {
            proof {
                assert(vs.take(i + 1).drop_last() =~= vs.take(i as int));
                assert(vs.take(i + 1).last() == vs[i as int]);
            }
            match occurrences[i] {
                WireValue::Bytes(b) => match packed_u64s(b.as_slice()) {
                    Some(mut xs) => {
                        out.append(&mut xs);
                    },
                    None => {},
                },
                WireValue::Varint(v) => {
                    out.push(*v);
                },
                _ => {},
            }
            i = i + 1;
        }
        assert(vs.take(i as int) =~= vs);
        out
    }
}

} // verus!

verus! {

impl Msg {
    /// A four-byte field's raw bytes (a proto `float` or `fixed32`, little
    /// endian).
    pub fn fixed32(&self, n: u32) -> (r: Option<[u8; 4]>)
        ensures
            match get_spec(self.fields@, n) {
                Some(WireValue::Fixed32(a)) => r == Some(a),
                _ => r is None,
            },
    {
        match self.get(n) {
            Some(WireValue::Fixed32(a)) => Some(*a),
            _ => None,
        }
    }

    /// An eight-byte field's raw bytes (a proto `double` or `fixed64`,
    /// little endian).
    pub fn fixed64(&self, n: u32) -> (r: Option<[u8; 8]>)
        ensures
            match get_spec(self.fields@, n) {
                Some(WireValue::Fixed64(a)) => r == Some(a),
                _ => r is None,
            },
    {
        match self.get(n) {
            Some(WireValue::Fixed64(a)) => Some(*a),
            _ => None,
        }
    }
}

} // verus!

verus! {

/// A message field stored in two length-delimited pieces reads (merged) as
/// the message the joined pieces hold.
pub proof fn lemma_merge_is_concat(a: Seq<u8>, b: Seq<u8>)
    requires
        parse_spec(a) is Some,
        parse_spec(b) is Some,
    ensures
        merge_nested(seq![WireSpec::Bytes(a), WireSpec::Bytes(b)]) == parse_spec(a + b),
{
    let vs = seq![WireSpec::Bytes(a), WireSpec::Bytes(b)];
    let one = seq![WireSpec::Bytes(a)];
    assert(vs.drop_last() =~= one);
    assert(one.drop_last() =~= Seq::<WireSpec>::empty());
    assert(merge_nested(Seq::<WireSpec>::empty()) is None);
    assert(merge_nested(one) == parse_spec(a));
    assert(vs.last() == WireSpec::Bytes(b));
    lemma_parse_concat(a, b);
    assert(merge_nested(vs) == Some(parse_spec(a).unwrap() + parse_spec(b).unwrap()));
}

} // verus!
