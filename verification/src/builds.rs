//! A Keynote slide's builds: the animations that bring its drawables in
//! and out, each attached to the painted drawable it names.
use vstd::prelude::*;
use crate::model::{BuildDelivery, BuildAcceleration, BuildTextDelivery};
use crate::pb::{Msg, vvarint, vmsg, lemma_vall};
use crate::wire::{WireSpec, fields_view};
use crate::loader::{Loaded, loaded_view, RecordView};
use crate::ctx::{loaded_msg, vstring};
use crate::keynote::{ref_of, bool_of};
use crate::numbers::opt_text;
use crate::text_util::str_eq;

verus! {

/// A build: the drawable it animates, its place among the slide's builds
/// (field 2 of the slide), how it delivers the drawable (in, out, or an
/// action), its effect and animation type, whether it starts on its own,
/// its acceleration and how it delivers text.
pub struct SlideBuild {
    pub drawable_id: u64,
    pub order: u32,
    pub delivery: BuildDelivery,
    pub effect: Option<String>,
    pub animation_type: Option<String>,
    pub automatic: Option<bool>,
    pub acceleration: Option<BuildAcceleration>,
    pub text_delivery: Option<BuildTextDelivery>,
}

/// A build's delivery, from its delivery name (field 2).
pub open spec fn delivery_of(s: Option<Seq<char>>) -> BuildDelivery {
    match s {
        Some(x) => if x == "build-in"@ || x == "in"@ {
            BuildDelivery::In
        } else if x == "build-out"@ || x == "out"@ {
            BuildDelivery::Out
        } else if x == "action"@ {
            BuildDelivery::Action
        } else {
            BuildDelivery::Other
        },
        None => BuildDelivery::Other,
    }
}

/// A build's acceleration code (1 ease in, 2 ease out, 3 both, 4 custom,
/// anything else none).
pub open spec fn acceleration_of(v: Option<u64>) -> Option<BuildAcceleration> {
    match v {
        Some(1) => Some(BuildAcceleration::EaseIn),
        Some(2) => Some(BuildAcceleration::EaseOut),
        Some(3) => Some(BuildAcceleration::EaseBoth),
        Some(4) => Some(BuildAcceleration::Custom),
        Some(_) => Some(BuildAcceleration::NoAcceleration),
        None => None,
    }
}

/// A build's text delivery code (1 by object, 2 by word, 3 by character,
/// anything else by line).
pub open spec fn text_delivery_of(v: Option<u64>) -> Option<BuildTextDelivery> {
    match v {
        Some(1) => Some(BuildTextDelivery::ByObject),
        Some(2) => Some(BuildTextDelivery::ByWord),
        Some(3) => Some(BuildTextDelivery::ByCharacter),
        Some(_) => Some(BuildTextDelivery::ByLine),
        None => None,
    }
}

/// The drawable build `id` animates (field 1), when the build is loaded.
pub open spec fn build_target(records: Map<u64, RecordView>, id: u64) -> Option<u64> {
    match loaded_msg(records, id) {
        Some(b) => ref_of(b, 1),
        None => None,
    }
}

/// Whether build `k` of `refs` stays: it animates a painted drawable and
/// no later build animates the same one (a later build replaces it).
pub open spec fn kept(records: Map<u64, RecordView>, refs: Seq<u64>, painted: Seq<u64>, k: int) -> bool {
    match build_target(records, refs[k]) {
        Some(d) => painted.contains(d) && forall|j: int|
            k < j < refs.len() ==> build_target(records, #[trigger] refs[j]) != Some(d),
        None => false,
    }
}

/// The places of the builds that stay, among the first `n`, in order.
pub open spec fn kept_upto(records: Map<u64, RecordView>, refs: Seq<u64>, painted: Seq<u64>, n: int) -> Seq<int>
    decreases n,
{
    if n <= 0 {
        Seq::empty()
    } else if kept(records, refs, painted, n - 1) {
        kept_upto(records, refs, painted, n - 1).push(n - 1)
    } else {
        kept_upto(records, refs, painted, n - 1)
    }
}

/// `s` is build `refs[k]`, the `k`-th build of its slide, read.
pub open spec fn build_ok(records: Map<u64, RecordView>, refs: Seq<u64>, k: int, s: SlideBuild) -> bool {
    match loaded_msg(records, refs[k]) {
        Some(b) => {
            let attrs = vmsg(b, 4);
            let anim = match attrs {
                Some(a) => vmsg(a, 18),
                None => None,
            };
            &&& Some(s.drawable_id) == ref_of(b, 1)
            &&& s.order == k as u32
            &&& s.delivery == delivery_of(vstring(b, 2))
            &&& opt_text(s.effect) == match anim {
                Some(x) => vstring(x, 2),
                None => None,
            }
            &&& opt_text(s.animation_type) == match anim {
                Some(x) => vstring(x, 1),
                None => None,
            }
            &&& s.automatic == match anim {
                Some(x) => bool_of(x, 6),
                None => None,
            }
            &&& s.acceleration == acceleration_of(
                match attrs {
                    Some(a) => vvarint(a, 13),
                    None => None,
                },
            )
            &&& s.text_delivery == text_delivery_of(
                match attrs {
                    Some(a) => vvarint(a, 20),
                    None => None,
                },
            )
        },
        None => false,
    }
}

/// `r` is the builds of a slide whose builds are `refs` and whose painted
/// drawables are `painted`: those that stay (see `kept`), in order.
pub open spec fn builds_ok(records: Map<u64, RecordView>, refs: Seq<u64>, painted: Seq<u64>, r: Seq<SlideBuild>) -> bool {
    let ks = kept_upto(records, refs, painted, refs.len() as int);
    &&& r.len() == ks.len()
    &&& forall|j: int| 0 <= j < r.len() ==> build_ok(records, refs, ks[j], #[trigger] r[j])
}

fn target_exec(loaded: &Loaded, id: u64) -> (r: Option<u64>)
    ensures
        r == build_target(loaded_view(*loaded).records, id),
{
    match loaded.msg(id) {
        Some(b) => b.reference(1),
        None => None,
    }
}

fn contains_exec(v: &Vec<u64>, x: u64) -> (r: bool)
    ensures
        r == v@.contains(x),
{
    let mut i: usize = 0;
    while i < v.len()
        invariant
            i <= v@.len(),
            forall|j: int| 0 <= j < i ==> v@[j] != x,
        decreases v@.len() - i,
    {
        if v[i] == x {
            assert(v@[i as int] == x);
            return true;
        }
        i = i + 1;
    }
    false
}

fn kept_exec(loaded: &Loaded, refs: &Vec<u64>, painted: &Vec<u64>, k: usize) -> (r: bool)
    requires
        k < refs@.len(),
    ensures
        r == kept(loaded_view(*loaded).records, refs@, painted@, k as int),
{
    let ghost records = loaded_view(*loaded).records;
    let d = match target_exec(loaded, refs[k]) {
        Some(d) => d,
        None => {
            return false;
        },
    };
    if !contains_exec(painted, d) {
        return false;
    }
    let n = refs.len();
    let mut j: usize = k + 1;
    while j < n
        invariant
            k < j <= refs@.len(),
            n == refs@.len(),
            records == loaded_view(*loaded).records,
            build_target(records, refs@[k as int]) == Some(d),
            painted@.contains(d),
            forall|q: int| k < q < j ==> build_target(records, #[trigger] refs@[q]) != Some(d),
        decreases refs@.len() - j,
    {
        if target_exec(loaded, refs[j]) == Some(d) {
            assert(build_target(records, refs@[j as int]) == Some(d));
            return false;
        }
        j = j + 1;
    }
    true
}

fn string_field(m: &Msg, n: u32) -> (r: Option<String>)
    ensures
        opt_text(r) == vstring(fields_view(m.fields@), n),
{
    crate::cell_formats::string_of(m, n)
}

fn read_build(loaded: &Loaded, refs: &Vec<u64>, k: usize) -> (r: Option<SlideBuild>)
    requires
        k < refs@.len(),
        build_target(loaded_view(*loaded).records, refs@[k as int]) is Some,
    ensures
        r matches Some(s) && build_ok(loaded_view(*loaded).records, refs@, k as int, s),
{
    let b = match loaded.msg(refs[k]) {
        Some(b) => b,
        None => {
            return None;
        },
    };
    let d = match b.reference(1) {
        Some(d) => d,
        None => {
            return None;
        },
    };
    let delivery = match string_field(b, 2) {
        Some(s) => if str_eq(s.as_str(), "build-in") || str_eq(s.as_str(), "in") {
            BuildDelivery::In
        } else if str_eq(s.as_str(), "build-out") || str_eq(s.as_str(), "out") {
            BuildDelivery::Out
        } else if str_eq(s.as_str(), "action") {
            BuildDelivery::Action
        } else {
            BuildDelivery::Other
        },
        None => BuildDelivery::Other,
    };
    let attrs = b.msg(4);
    let anim = match &attrs {
        Some(a) => a.msg(18),
        None => None,
    };
    let (effect, animation_type, automatic) = match &anim {
        Some(x) => {
            proof {
                lemma_vall(x.fields@, 6);
            }
            (string_field(x, 2), string_field(x, 1), x.boolean(6))
        },
        None => (None, None, None),
    };
    let (acc, td) = match &attrs {
        Some(a) => {
            proof {
                lemma_vall(a.fields@, 13);
                lemma_vall(a.fields@, 20);
            }
            (a.varint(13), a.varint(20))
        },
        None => (None, None),
    };
    let acceleration = match acc {
        Some(1) => Some(BuildAcceleration::EaseIn),
        Some(2) => Some(BuildAcceleration::EaseOut),
        Some(3) => Some(BuildAcceleration::EaseBoth),
        Some(4) => Some(BuildAcceleration::Custom),
        Some(_) => Some(BuildAcceleration::NoAcceleration),
        None => None,
    };
    let text_delivery = match td {
        Some(1) => Some(BuildTextDelivery::ByObject),
        Some(2) => Some(BuildTextDelivery::ByWord),
        Some(3) => Some(BuildTextDelivery::ByCharacter),
        Some(_) => Some(BuildTextDelivery::ByLine),
        None => None,
    };
    Some(
        SlideBuild {
            drawable_id: d,
            order: k as u32,
            delivery,
            effect,
            animation_type,
            automatic,
            acceleration,
            text_delivery,
        },
    )
}

/// The builds of a slide (see `builds_ok`): its builds (field 2), each
/// attached to the drawable it names when that drawable is among
/// `painted` and no later build names it too.
pub fn slide_builds(loaded: &Loaded, slide: &Msg, painted: &Vec<u64>) -> (r: Vec<SlideBuild>)
    ensures
        builds_ok(loaded_view(*loaded).records, crate::pb::refs_of(crate::pb::vall(fields_view(slide.fields@), 2)), painted@, r@),
{
    let ghost records = loaded_view(*loaded).records;
    let refs = slide.references(2);
    let ghost rv = refs@;
    let mut out: Vec<SlideBuild> = Vec::new();
    let mut k: usize = 0;
    while k < refs.len()
        invariant
            k <= refs@.len(),
            rv == refs@,
            records == loaded_view(*loaded).records,
            out@.len() == kept_upto(records, rv, painted@, k as int).len(),
            forall|j: int| 0 <= j < out@.len() ==> build_ok(records, rv, kept_upto(records, rv, painted@, k as int)[j], #[trigger] out@[j]),
        decreases refs@.len() - k,
    {
        if kept_exec(loaded, &refs, painted, k) {
            match read_build(loaded, &refs, k) {
                Some(s) => {
                    out.push(s);
                },
                None => {},
            }
        }
        assert(kept_upto(records, rv, painted@, k + 1) == if kept(records, rv, painted@, k as int) {
            kept_upto(records, rv, painted@, k as int).push(k as int)
        } else {
            kept_upto(records, rv, painted@, k as int)
        });
        k = k + 1;
    }
    out
}

} // verus!
