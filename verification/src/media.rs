//! Media: the package's data registry (`TSP.PackageMetadata.datas`),
//! references into it, and the envelope's list of referenced assets.
use vstd::prelude::*;
use std::collections::{BTreeSet, HashMap};
use crate::pb::{Msg, vall, vmsg, vvarint, vget, nested_all, lemma_vall};
use crate::wire::{WireSpec, fields_view};
use crate::ctx::vstring;
use crate::members::{has_data_file, holds_data_file};
use crate::model::{Warning, WarningCode};
use crate::text_util::{dec, push_decimal, push_str, owned, lex_lt, str_lt, lemma_lex_lt_transitive, lemma_lex_lt_irreflexive};
use crate::counts::{sorted_ids, sorted_elements_of, lemma_sorted_elements_unique};
use crate::ctx::{media_kind, media_kind_spec};
use crate::model::MediaKind;
use crate::{WarningView, view_warning, view_warnings};

verus! {

broadcast use {vstd::std_specs::hash::group_hash_axioms, vstd::std_specs::btree::group_btree_axioms};

/// What the package metadata says of one data object (`TSP.DataInfo`).
pub struct DataInfoEntry {
    pub preferred_file_name: Option<String>,
    pub file_name: Option<String>,
    pub remote_url: Option<String>,
    pub materialized_length: Option<u64>,
    /// An image's pixel size as stored: width and height, each the four
    /// little-endian bytes of a `float`.
    pub pixel_size: Option<([u8; 4], [u8; 4])>,
}

/// A data object's entry as mathematical values.
pub struct DataView {
    pub preferred_file_name: Option<Seq<char>>,
    pub file_name: Option<Seq<char>>,
    pub remote_url: Option<Seq<char>>,
    pub materialized_length: Option<u64>,
    pub pixel_size: Option<(Seq<u8>, Seq<u8>)>,
}

pub open spec fn opt_view(o: Option<String>) -> Option<Seq<char>> {
    match o {
        Some(s) => Some(s@),
        None => None,
    }
}

pub open spec fn data_view(e: DataInfoEntry) -> DataView {
    DataView {
        preferred_file_name: opt_view(e.preferred_file_name),
        file_name: opt_view(e.file_name),
        remote_url: opt_view(e.remote_url),
        materialized_length: e.materialized_length,
        pixel_size: match e.pixel_size {
            Some((w, h)) => Some((w@, h@)),
            None => None,
        },
    }
}

pub open spec fn datas_view(m: Map<u64, DataInfoEntry>) -> Map<u64, DataView> {
    Map::new(|k: u64| m.contains_key(k), |k: u64| data_view(m[k]))
}

/// A four-byte field of a viewed message.
pub open spec fn vfixed32(m: Seq<(u32, WireSpec)>, n: u32) -> Option<Seq<u8>> {
    match vget(m, n) {
        Some(WireSpec::Fixed32(b)) => Some(b),
        _ => None,
    }
}

/// The pixel size in a data object's attributes: the image attributes
/// (field 100) hold a size (field 1) of width (1) and height (2).
pub open spec fn pixel_spec(attrs: Seq<(u32, WireSpec)>) -> Option<(Seq<u8>, Seq<u8>)> {
    match vmsg(attrs, 100) {
        Some(img) => match vmsg(img, 1) {
            Some(m) => match (vfixed32(m, 1), vfixed32(m, 2)) {
                (Some(w), Some(h)) => Some((w, h)),
                _ => None,
            },
            None => None,
        },
        None => None,
    }
}

/// A `TSP.DataInfo` message read: preferred file name (3), file name (4),
/// remote URL (7), materialized length (18) and attributes (10).
pub open spec fn data_entry_spec(d: Seq<(u32, WireSpec)>) -> DataView {
    DataView {
        preferred_file_name: vstring(d, 3),
        file_name: vstring(d, 4),
        remote_url: vstring(d, 7),
        materialized_length: vvarint(d, 18),
        pixel_size: match vmsg(d, 10) {
            Some(a) => pixel_spec(a),
            None => None,
        },
    }
}

/// A data object's identifier (field 1, 0 by default).
pub open spec fn data_id_spec(d: Seq<(u32, WireSpec)>) -> u64 {
    match vvarint(d, 1) {
        Some(x) => x,
        None => 0,
    }
}

/// The registry the data infos make, later entries replacing earlier ones
/// with the same identifier.
pub open spec fn datas_spec(ds: Seq<Seq<(u32, WireSpec)>>) -> Map<u64, DataView>
    decreases ds.len(),
{
    if ds.len() == 0 {
        Map::empty()
    } else {
        datas_spec(ds.drop_last()).insert(data_id_spec(ds.last()), data_entry_spec(ds.last()))
    }
}

fn str_field(m: &Msg, n: u32) -> (r: Option<String>)
    ensures
        opt_view(r) == vstring(fields_view(m.fields@), n),
{
    proof {
        lemma_vall(m.fields@, n);
    }
    m.string(n)
}

fn varint_field(m: &Msg, n: u32) -> (r: Option<u64>)
    ensures
        r == vvarint(fields_view(m.fields@), n),
{
    proof {
        lemma_vall(m.fields@, n);
    }
    m.varint(n)
}

fn fixed32_field(m: &Msg, n: u32) -> (r: Option<[u8; 4]>)
    ensures
        match r {
            Some(a) => vfixed32(fields_view(m.fields@), n) == Some(a@),
            None => vfixed32(fields_view(m.fields@), n) is None,
        },
{
    proof {
        lemma_vall(m.fields@, n);
    }
    m.fixed32(n)
}

/// The pixel size in a data object's attributes.
fn pixel_size_of(attrs: &Msg) -> (r: Option<([u8; 4], [u8; 4])>)
    ensures
        match r {
            Some((w, h)) => pixel_spec(fields_view(attrs.fields@)) == Some((w@, h@)),
            None => pixel_spec(fields_view(attrs.fields@)) is None,
        },
{
    let img = match attrs.msg(100) {
        Some(i) => i,
        None => {
            return None;
        },
    };
    let m = match img.msg(1) {
        Some(m) => m,
        None => {
            return None;
        },
    };
    match (fixed32_field(&m, 1), fixed32_field(&m, 2)) {
        (Some(w), Some(h)) => Some((w, h)),
        _ => None,
    }
}

/// One `TSP.DataInfo` read.
pub fn data_entry(d: &Msg) -> (r: DataInfoEntry)
    ensures
        data_view(r) == data_entry_spec(fields_view(d.fields@)),
{
    let pixel_size = match d.msg(10) {
        Some(attrs) => pixel_size_of(&attrs),
        None => None,
    };
    let ghost pv: Option<(Seq<u8>, Seq<u8>)> = match pixel_size {
        Some((w, h)) => Some((w@, h@)),
        None => None,
    };
    assert(pv == data_entry_spec(fields_view(d.fields@)).pixel_size);
    DataInfoEntry {
        preferred_file_name: str_field(d, 3),
        file_name: str_field(d, 4),
        remote_url: str_field(d, 7),
        materialized_length: varint_field(d, 18),
        pixel_size,
    }
}

/// The data registry of a package metadata object (field 4, one
/// `TSP.DataInfo` each), keyed by identifier.
pub fn package_datas(pkg: &Msg) -> (r: HashMap<u64, DataInfoEntry>)
    ensures
        datas_view(r@) == datas_spec(nested_all(vall(fields_view(pkg.fields@), 4))),
{
    let ds = pkg.msgs(4);
    let ghost dv = nested_all(vall(fields_view(pkg.fields@), 4));
    let mut out: HashMap<u64, DataInfoEntry> = HashMap::new();
    let mut i: usize = 0;
    assert(datas_view(out@) =~= Map::empty());
    assert(dv.take(0) =~= Seq::<Seq<(u32, WireSpec)>>::empty());
    while i < ds.len()
        invariant
            i <= ds@.len(),
            ds@.len() == dv.len(),
            forall|j: int| 0 <= j < ds@.len() ==> fields_view(#[trigger] ds@[j].fields@) == dv[j],
            datas_view(out@) == datas_spec(dv.take(i as int)),
        decreases ds@.len() - i,
    {
        let d = &ds[i];
        let id = match varint_field(d, 1) {
            Some(x) => x,
            None => 0,
        };
        let e = data_entry(d);
        let ghost ev = data_view(e);
        out.insert(id, e);
        assert(dv.take(i + 1).drop_last() =~= dv.take(i as int));
        assert(dv.take(i + 1).last() == dv[i as int]);
        assert(datas_view(out@) =~= datas_spec(dv.take(i as int)).insert(id, ev));
        i = i + 1;
    }
    assert(dv.take(i as int) =~= dv);
    out
}

/// The document identifier a package metadata object records: its
/// revision (field 2) identifier (field 2).
pub fn package_document_id(pkg: &Msg) -> (r: Option<String>)
    ensures
        opt_view(r) == match vmsg(fields_view(pkg.fields@), 2) {
            Some(rev) => vstring(rev, 2),
            None => None,
        },
{
    match pkg.msg(2) {
        Some(rev) => str_field(&rev, 2),
        None => None,
    }
}

} // verus!

verus! {

/// A reference to a data object, as the content model carries it.
pub struct MediaRef {
    /// The data identifier as a decimal string (safe for JavaScript).
    pub data_id: String,
    pub file_name: Option<String>,
    pub preferred_file_name: Option<String>,
    /// Width and height, each the four little-endian bytes of a `float`.
    pub pixel_size: Option<([u8; 4], [u8; 4])>,
}

/// The package's data registry and the identifiers content refers to.
pub struct MediaTable {
    pub datas: HashMap<u64, DataInfoEntry>,
    pub referenced: BTreeSet<u64>,
}

/// The warning for a reference to a data object the registry lacks.
pub open spec fn missing_ref_warning(id: u64) -> WarningView {
    WarningView {
        code: WarningCode::MediaMissing,
        message: "media data id "@ + dec(id as nat) + " has no TSP.DataInfo registry entry"@,
        path: None,
        detail: Some(dec(id as nat)),
        count: None,
        paths: None,
    }
}

/// A member list holds the data file `name`.
pub open spec fn in_members(members: Seq<String>, name: Seq<char>) -> bool {
    exists|i: int| 0 <= i < members.len() && holds_data_file(#[trigger] members[i]@, name)
}

/// The file a data object is stored under: its file name, or else its
/// preferred file name.
pub open spec fn stored_name(e: DataView) -> Option<Seq<char>> {
    match e.file_name {
        Some(n) => Some(n),
        None => e.preferred_file_name,
    }
}

/// Whether a data object's bytes are in the container. A remote URL does
/// not count: nothing is ever fetched.
pub open spec fn available_spec(datas: Map<u64, DataView>, id: u64, members: Seq<String>) -> bool {
    datas.contains_key(id) && match stored_name(datas[id]) {
        Some(n) => in_members(members, n),
        None => false,
    }
}

fn copy_opt(o: &Option<String>) -> (r: Option<String>)
    ensures
        opt_view(r) == opt_view(*o),
{
    match o {
        Some(s) => Some(owned(s.as_str())),
        None => None,
    }
}

/// The decimal numeral of `n`.
pub fn decimal(n: u64) -> (s: String)
    ensures
        s@ == dec(n as nat),
{
    let mut s = String::new();
    push_decimal(&mut s, n);
    assert(s@ =~= dec(n as nat));
    s
}

impl MediaTable {
    /// A reference to data object `data_id`, noted as referenced; a
    /// reference the registry cannot resolve warns (media missing).
    pub fn media_ref(&mut self, data_id: u64, warnings: &mut Vec<Warning>) -> (r: MediaRef)
        ensures
            final(self).referenced@ == old(self).referenced@.insert(data_id),
            datas_view(final(self).datas@) == datas_view(old(self).datas@),
            r.data_id@ == dec(data_id as nat),
            ({
                let datas = datas_view(old(self).datas@);
                if datas.contains_key(data_id) {
                    &&& opt_view(r.file_name) == datas[data_id].file_name
                    &&& opt_view(r.preferred_file_name) == datas[data_id].preferred_file_name
                    &&& match r.pixel_size {
                        Some((w, h)) => datas[data_id].pixel_size == Some((w@, h@)),
                        None => datas[data_id].pixel_size is None,
                    }
                    &&& view_warnings(final(warnings)@) == view_warnings(old(warnings)@)
                } else {
                    &&& r.file_name is None
                    &&& r.preferred_file_name is None
                    &&& r.pixel_size is None
                    &&& view_warnings(final(warnings)@) == view_warnings(old(warnings)@).push(
                        missing_ref_warning(data_id),
                    )
                }
            }),
    {
        self.referenced.insert(data_id);
        let r = match self.datas.get(&data_id) {
            Some(e) => MediaRef {
                data_id: decimal(data_id),
                file_name: copy_opt(&e.file_name),
                preferred_file_name: copy_opt(&e.preferred_file_name),
                pixel_size: e.pixel_size,
            },
            None => {
                let mut m = owned("media data id ");
                push_decimal(&mut m, data_id);
                push_str(&mut m, " has no TSP.DataInfo registry entry");
                let w = Warning {
                    code: WarningCode::MediaMissing,
                    message: m,
                    path: None,
                    detail: Some(decimal(data_id)),
                    count: None,
                    paths: None,
                };
                assert(view_warning(w) == missing_ref_warning(data_id));
                let ghost before = warnings@;
                warnings.push(w);
                assert(view_warnings(warnings@) =~= view_warnings(before).push(view_warning(w)));
                MediaRef { data_id: decimal(data_id), file_name: None, preferred_file_name: None, pixel_size: None }
            },
        };
        r
    }

    /// Whether data object `data_id` has its bytes in the container (a name
    /// check on the member list; nothing is inflated).
    pub fn data_available(&self, data_id: u64, members: &[String]) -> (r: bool)
        ensures
            r == available_spec(datas_view(self.datas@), data_id, members@),
    {
        match self.datas.get(&data_id) {
            Some(e) => {
                let name = match &e.file_name {
                    Some(n) => Some(n),
                    None => e.preferred_file_name.as_ref(),
                };
                match name {
                    Some(n) => has_data_file(members, n.as_str()),
                    None => false,
                }
            },
            None => false,
        }
    }
}

} // verus!

verus! {

/// An entry of the envelope's media list.
pub struct MediaAsset {
    pub data_id: String,
    pub file_name: Option<String>,
    pub preferred_file_name: Option<String>,
    pub kind: MediaKind,
    pub byte_length: Option<u64>,
    /// Width and height, each the four little-endian bytes of a `float`.
    pub pixel_size: Option<([u8; 4], [u8; 4])>,
}

/// A media list entry as mathematical values.
pub struct AssetView {
    pub data_id: Seq<char>,
    pub file_name: Option<Seq<char>>,
    pub preferred_file_name: Option<Seq<char>>,
    pub kind: MediaKind,
    pub byte_length: Option<u64>,
    pub pixel_size: Option<(Seq<u8>, Seq<u8>)>,
}

pub open spec fn asset_view(a: MediaAsset) -> AssetView {
    AssetView {
        data_id: a.data_id@,
        file_name: opt_view(a.file_name),
        preferred_file_name: opt_view(a.preferred_file_name),
        kind: a.kind,
        byte_length: a.byte_length,
        pixel_size: match a.pixel_size {
            Some((w, h)) => Some((w@, h@)),
            None => None,
        },
    }
}

/// The media list entry of data object `id`: its stored file name and the
/// kind that name's extension tells.
#[verifier::opaque]
pub open spec fn asset_spec(id: u64, e: DataView) -> AssetView {
    AssetView {
        data_id: dec(id as nat),
        file_name: stored_name(e),
        preferred_file_name: e.preferred_file_name,
        kind: match stored_name(e) {
            Some(n) => media_kind_spec(n),
            None => MediaKind::Other,
        },
        byte_length: e.materialized_length,
        pixel_size: e.pixel_size,
    }
}

/// The warning a referenced data object calls for when its bytes are not
/// in the container: remote-only assets say so (nothing is fetched).
pub open spec fn asset_warning(id: u64, e: DataView, members: Seq<String>) -> Option<WarningView> {
    match stored_name(e) {
        Some(name) => if !in_members(members, name) {
            let shown = match e.preferred_file_name {
                Some(p) => p,
                None => name,
            };
            Some(
                WarningView {
                    code: WarningCode::MediaMissing,
                    message: if e.remote_url is Some {
                        "media `"@ + shown + "` (data id "@ + dec(id as nat)
                            + ") is remote-only; this offline viewer cannot fetch it"@
                    } else {
                        "media bytes for `"@ + shown + "` (data id "@ + dec(id as nat)
                            + ") are not in the container"@
                    },
                    path: None,
                    detail: Some(name),
                    count: None,
                    paths: None,
                },
            )
        } else {
            None
        },
        None => None,
    }
}

/// The identifiers the registry knows, in order.
pub open spec fn known_ids(ids: Seq<u64>, datas: Map<u64, DataView>) -> Seq<u64>
    decreases ids.len(),
{
    if ids.len() == 0 {
        Seq::empty()
    } else {
        let h = known_ids(ids.drop_last(), datas);
        if datas.contains_key(ids.last()) {
            h.push(ids.last())
        } else {
            h
        }
    }
}

/// The warnings the identifiers' assets call for, in order.
pub open spec fn asset_warnings(ids: Seq<u64>, datas: Map<u64, DataView>, members: Seq<String>) -> Seq<
    WarningView,
>
    decreases ids.len(),
{
    if ids.len() == 0 {
        Seq::empty()
    } else {
        let h = asset_warnings(ids.drop_last(), datas, members);
        if datas.contains_key(ids.last()) {
            match asset_warning(ids.last(), datas[ids.last()], members) {
                Some(w) => h.push(w),
                None => h,
            }
        } else {
            h
        }
    }
}

/// Identifiers in order of their decimal strings.
pub open spec fn dec_sorted(s: Seq<u64>) -> bool {
    forall|a: int, b: int|
        0 <= a < b < s.len() ==> !lex_lt(dec(#[trigger] s[b] as nat), dec(#[trigger] s[a] as nat))
}

fn dec_lt(x: u64, y: u64) -> (r: bool)
    ensures
        r == lex_lt(dec(x as nat), dec(y as nat)),
{
    let a = decimal(x);
    let b = decimal(y);
    str_lt(a.as_str(), b.as_str())
}

/// `x` inserted into an order of decimal strings.
fn insert_by_decimal(out: &mut Vec<u64>, x: u64)
    requires
        dec_sorted(old(out)@),
    ensures
        dec_sorted(final(out)@),
        final(out)@.to_multiset() == old(out)@.to_multiset().insert(x),
{
    let mut p: usize = 0;
    while p < out.len() && !dec_lt(x, out[p])
        invariant
            p <= out@.len(),
            forall|k: int| 0 <= k < p ==> !lex_lt(dec(x as nat), dec(#[trigger] out@[k] as nat)),
        decreases out@.len() - p,
    {
        p = p + 1;
    }
    let ghost before = out@;
    proof {
        vstd::seq_lib::to_multiset_insert(before, p as int, x);
    }
    out.insert(p, x);
    assert forall|a: int, b: int| 0 <= a < b < out@.len() implies !lex_lt(
        dec(#[trigger] out@[b] as nat),
        dec(#[trigger] out@[a] as nat),
    ) by {
        if a < p && b == p {
        } else if a == p {
            let q = b - 1;
            assert(out@[b] == before[q]);
            if lex_lt(dec(before[q] as nat), dec(x as nat)) {
                lemma_lex_lt_transitive(dec(before[q] as nat), dec(x as nat), dec(before[p as int] as nat));
                if q == p {
                    lemma_lex_lt_irreflexive(dec(before[q] as nat));
                } else {
                    assert(!lex_lt(dec(before[q] as nat), dec(before[p as int] as nat)));
                }
            }
        } else {
            let a0 = if a < p { a } else { a - 1 };
            let b0 = if b < p { b } else { b - 1 };
            assert(out@[a] == before[a0]);
            assert(out@[b] == before[b0]);
        }
    }
}

/// Identifiers put in order of their decimal strings (how the media list
/// sorts its string ids).
fn sort_by_decimal(ids: &Vec<u64>) -> (r: Vec<u64>)
    ensures
        dec_sorted(r@),
        r@.to_multiset() == ids@.to_multiset(),
{
    let mut out: Vec<u64> = Vec::new();
    let mut i: usize = 0;
    proof {
        assert(ids@.take(0) =~= Seq::<u64>::empty());
        assert(out@ =~= Seq::<u64>::empty());
    }
    while i < ids.len()
        invariant
            i <= ids@.len(),
            dec_sorted(out@),
            out@.to_multiset() == ids@.take(i as int).to_multiset(),
        decreases ids@.len() - i,
    {
        insert_by_decimal(&mut out, ids[i]);
        proof {
            assert(ids@.take(i + 1) =~= ids@.take(i as int).push(ids@[i as int]));
            vstd::seq_lib::to_multiset_build(ids@.take(i as int), ids@[i as int]);
        }
        i = i + 1;
    }
    assert(ids@.take(i as int) =~= ids@);
    out
}

/// The media list entry of a data object.
fn asset_of(id: u64, e: &DataInfoEntry) -> (r: MediaAsset)
    ensures
        asset_view(r) == asset_spec(id, data_view(*e)),
{
    reveal(asset_spec);
    let file_name = match &e.file_name {
        Some(n) => Some(owned(n.as_str())),
        None => copy_opt(&e.preferred_file_name),
    };
    let kind = match &file_name {
        Some(n) => media_kind(n.as_str()),
        None => MediaKind::Other,
    };
    MediaAsset {
        data_id: decimal(id),
        file_name,
        preferred_file_name: copy_opt(&e.preferred_file_name),
        kind,
        byte_length: e.materialized_length,
        pixel_size: e.pixel_size,
    }
}

/// The warning a referenced data object calls for, if any.
fn asset_warning_of(id: u64, e: &DataInfoEntry, members: &[String]) -> (r: Option<Warning>)
    ensures
        match asset_warning(id, data_view(*e), members@) {
            Some(w) => r matches Some(x) && view_warning(x) == w,
            None => r is None,
        },
{
    let name = match &e.file_name {
        Some(n) => n,
        None => match &e.preferred_file_name {
            Some(p) => p,
            None => {
                return None;
            },
        },
    };
    if has_data_file(members, name.as_str()) {
        return None;
    }
    let shown = match &e.preferred_file_name {
        Some(p) => p,
        None => name,
    };
    let mut m = String::new();
    if e.remote_url.is_some() {
        push_str(&mut m, "media `");
        push_str(&mut m, shown.as_str());
        push_str(&mut m, "` (data id ");
        push_decimal(&mut m, id);
        push_str(&mut m, ") is remote-only; this offline viewer cannot fetch it");
    } else {
        push_str(&mut m, "media bytes for `");
        push_str(&mut m, shown.as_str());
        push_str(&mut m, "` (data id ");
        push_decimal(&mut m, id);
        push_str(&mut m, ") are not in the container");
    }
    let w = Warning {
        code: WarningCode::MediaMissing,
        message: m,
        path: None,
        detail: Some(owned(name.as_str())),
        count: None,
        paths: None,
    };
    assert(view_warning(w) == asset_warning(id, data_view(*e), members@).unwrap());
    Some(w)
}

} // verus!

verus! {

/// Every identifier of `known` has its entry in `r`.
pub open spec fn covers_assets(r: Seq<MediaAsset>, known: Seq<u64>, datas: Map<u64, DataView>) -> bool {
    forall|k: int|
        #![trigger known[k]]
        0 <= k < known.len() ==> exists|i: int|
            0 <= i < r.len() && asset_view(#[trigger] r[i]) == asset_spec(known[k], datas[known[k]])
}

/// Every entry of `r` is the entry of an identifier of `known`.
pub open spec fn within_assets(r: Seq<MediaAsset>, known: Seq<u64>, datas: Map<u64, DataView>) -> bool {
    forall|i: int|
        0 <= i < r.len() ==> exists|k: int|
            0 <= k < known.len() && asset_view(#[trigger] r[i]) == asset_spec(known[k], datas[known[k]])
}

/// `r` lists exactly the entries of the identifiers `known`, in some order.
pub open spec fn lists_assets(r: Seq<MediaAsset>, known: Seq<u64>, datas: Map<u64, DataView>) -> bool {
    &&& r.len() == known.len()
    &&& covers_assets(r, known, datas)
    &&& within_assets(r, known, datas)
}

/// `r` runs in order of its id strings.
pub open spec fn sorted_by_id_string(r: Seq<MediaAsset>) -> bool {
    forall|a: int, b: int| 0 <= a < b < r.len() ==> !lex_lt(#[trigger] r[b].data_id@, #[trigger] r[a].data_id@)
}

impl MediaTable {
    /// Pass one of the media list: the warnings for the identifiers, in
    /// order, and those the registry knows.
    fn warn_missing(&self, ids: &Vec<u64>, members: &[String], warnings: &mut Vec<Warning>) -> (known: Vec<
        u64,
    >)
        ensures
            known@ == known_ids(ids@, datas_view(self.datas@)),
            view_warnings(final(warnings)@) == view_warnings(old(warnings)@) + asset_warnings(
                ids@,
                datas_view(self.datas@),
                members@,
            ),
    {
        let ghost datas = datas_view(self.datas@);
        let ghost start = view_warnings(warnings@);
        let mut known: Vec<u64> = Vec::new();
        let mut i: usize = 0;
        assert(ids@.take(0) =~= Seq::<u64>::empty());
        assert(start + Seq::<WarningView>::empty() =~= start);
        while i < ids.len()
            invariant
                i <= ids@.len(),
                datas == datas_view(self.datas@),
                known@ == known_ids(ids@.take(i as int), datas),
                view_warnings(warnings@) == start + asset_warnings(ids@.take(i as int), datas, members@),
            decreases ids@.len() - i,
        {
            let id = ids[i];
            assert(ids@.take(i + 1).drop_last() =~= ids@.take(i as int));
            assert(ids@.take(i + 1).last() == id);
            match self.datas.get(&id) {
                Some(e) => {
                    known.push(id);
                    match asset_warning_of(id, e, members) {
                        Some(w) => {
                            let ghost before = warnings@;
                            warnings.push(w);
                            assert(view_warnings(warnings@) =~= view_warnings(before).push(
                                view_warning(w),
                            ));
                            assert(view_warnings(warnings@) =~= start + asset_warnings(
                                ids@.take(i + 1),
                                datas,
                                members@,
                            ));
                        },
                        None => {},
                    }
                },
                None => {},
            }
            i = i + 1;
        }
        assert(ids@.take(i as int) =~= ids@);
        known
    }

    /// Pass two: the entries of the identifiers, in the given order.
    fn assets_in_order(&self, order: &Vec<u64>) -> (r: Vec<MediaAsset>)
        requires
            forall|k: int| 0 <= k < order@.len() ==> #[trigger] self.datas@.contains_key(order@[k]),
        ensures
            r@.len() == order@.len(),
            forall|t: int| 0 <= t < r@.len() ==> asset_view(#[trigger] r@[t]) == asset_spec(
                order@[t],
                datas_view(self.datas@)[order@[t]],
            ),
    {
        let ghost datas = datas_view(self.datas@);
        let mut out: Vec<MediaAsset> = Vec::new();
        let mut j: usize = 0;
        while j < order.len()
            invariant
                j <= order@.len(),
                datas == datas_view(self.datas@),
                forall|k: int| 0 <= k < order@.len() ==> #[trigger] self.datas@.contains_key(order@[k]),
                out@.len() == j,
                forall|t: int| 0 <= t < j ==> asset_view(#[trigger] out@[t]) == asset_spec(
                    order@[t],
                    datas[order@[t]],
                ),
            decreases order@.len() - j,
        {
            let id = order[j];
            assert(self.datas@.contains_key(order@[j as int]));
            match self.datas.get(&id) {
                Some(e) => {
                    out.push(asset_of(id, e));
                },
                None => {
                    assert(false);
                },
            }
            j = j + 1;
        }
        out
    }

    /// The envelope's media list: every referenced data object the
    /// registry knows, as an entry, sorted by its decimal id string. Taken
    /// in increasing id order, each whose bytes are not in the container
    /// warns (media missing), remote-only ones saying so.
    pub fn build_media_assets(&self, members: &[String], warnings: &mut Vec<Warning>) -> (r: Vec<
        MediaAsset,
    >)
        ensures
            forall|ids: Seq<u64>|
                #[trigger] sorted_elements_of(ids, self.referenced@) ==> {
                    &&& view_warnings(final(warnings)@) == view_warnings(old(warnings)@)
                        + asset_warnings(ids, datas_view(self.datas@), members@)
                    &&& lists_assets(r@, known_ids(ids, datas_view(self.datas@)), datas_view(self.datas@))
                },
            sorted_by_id_string(r@),
    {
        let ids = sorted_ids(&self.referenced);
        let known = self.warn_missing(&ids, members, warnings);
        let order = sort_by_decimal(&known);
        proof {
            lemma_known_in_registry(ids@, datas_view(self.datas@));
            assert forall|k: int| 0 <= k < order@.len() implies #[trigger] self.datas@.contains_key(
                order@[k],
            ) by {
                vstd::seq_lib::to_multiset_contains(order@, order@[k]);
                assert(order@.contains(order@[k]));
                vstd::seq_lib::to_multiset_contains(known@, order@[k]);
                let q = choose|q: int| 0 <= q < known@.len() && known@[q] == order@[k];
                assert(datas_view(self.datas@).contains_key(known@[q]));
            }
        }
        let out = self.assets_in_order(&order);
        proof {
            let datas = datas_view(self.datas@);
            lemma_lists(order@, known@, out@, datas);
            assert forall|t: int| 0 <= t < out@.len() implies (#[trigger] out@[t]).data_id@ == dec(
                order@[t] as nat,
            ) by {
                assert(asset_view(out@[t]) == asset_spec(order@[t], datas[order@[t]]));
                reveal(asset_spec);
            }
            lemma_ids_sorted(order@, out@);
            assert forall|ids2: Seq<u64>| #[trigger] sorted_elements_of(ids2, self.referenced@) implies ids2
                == ids@ by {
                lemma_sorted_elements_unique(ids2, ids@, self.referenced@);
            }
        }
        out
    }
}

proof fn lemma_known_in_registry(ids: Seq<u64>, datas: Map<u64, DataView>)
    ensures
        forall|k: int|
            0 <= k < known_ids(ids, datas).len() ==> #[trigger] datas.contains_key(
                known_ids(ids, datas)[k],
            ),
    decreases ids.len(),
{
    if ids.len() > 0 {
        lemma_known_in_registry(ids.drop_last(), datas);
        let h = known_ids(ids.drop_last(), datas);
        assert forall|k: int| 0 <= k < known_ids(ids, datas).len() implies #[trigger] datas.contains_key(
            known_ids(ids, datas)[k],
        ) by {
            if k < h.len() {
                assert(known_ids(ids, datas)[k] == h[k]);
            }
        }
    }
}

proof fn lemma_order_covers(order: Seq<u64>, kn: Seq<u64>, out: Seq<MediaAsset>, datas: Map<u64, DataView>)
    requires
        order.to_multiset() == kn.to_multiset(),
        out.len() == order.len(),
        forall|t: int| 0 <= t < out.len() ==> asset_view(#[trigger] out[t]) == asset_spec(
            order[t],
            datas[order[t]],
        ),
    ensures
        covers_assets(out, kn, datas),
{
    assert forall|k: int| #![trigger kn[k]] 0 <= k < kn.len() implies exists|i: int|
        0 <= i < out.len() && asset_view(#[trigger] out[i]) == asset_spec(kn[k], datas[kn[k]]) by {
        vstd::seq_lib::to_multiset_contains(kn, kn[k]);
        assert(kn.contains(kn[k]));
        vstd::seq_lib::to_multiset_contains(order, kn[k]);
        let i = choose|i: int| 0 <= i < order.len() && order[i] == kn[k];
        assert(asset_view(out[i]) == asset_spec(kn[k], datas[kn[k]]));
    }
}

proof fn lemma_order_within(order: Seq<u64>, kn: Seq<u64>, out: Seq<MediaAsset>, datas: Map<u64, DataView>)
    requires
        order.to_multiset() == kn.to_multiset(),
        out.len() == order.len(),
        forall|t: int| 0 <= t < out.len() ==> asset_view(#[trigger] out[t]) == asset_spec(
            order[t],
            datas[order[t]],
        ),
    ensures
        within_assets(out, kn, datas),
{
    assert forall|i: int| 0 <= i < out.len() implies exists|k: int|
        0 <= k < kn.len() && asset_view(#[trigger] out[i]) == asset_spec(kn[k], datas[kn[k]]) by {
        vstd::seq_lib::to_multiset_contains(order, order[i]);
        assert(order.contains(order[i]));
        vstd::seq_lib::to_multiset_contains(kn, order[i]);
        let k = choose|k: int| 0 <= k < kn.len() && kn[k] == order[i];
        assert(asset_view(out[i]) == asset_spec(kn[k], datas[kn[k]]));
    }
}

proof fn lemma_lists(order: Seq<u64>, kn: Seq<u64>, out: Seq<MediaAsset>, datas: Map<u64, DataView>)
    requires
        order.to_multiset() == kn.to_multiset(),
        out.len() == order.len(),
        forall|t: int| 0 <= t < out.len() ==> asset_view(#[trigger] out[t]) == asset_spec(
            order[t],
            datas[order[t]],
        ),
    ensures
        lists_assets(out, kn, datas),
{
    vstd::seq_lib::to_multiset_len(order);
    vstd::seq_lib::to_multiset_len(kn);
    lemma_order_covers(order, kn, out, datas);
    lemma_order_within(order, kn, out, datas);
}

proof fn lemma_ids_sorted(order: Seq<u64>, out: Seq<MediaAsset>)
    requires
        dec_sorted(order),
        out.len() == order.len(),
        forall|t: int| 0 <= t < out.len() ==> (#[trigger] out[t]).data_id@ == dec(order[t] as nat),
    ensures
        sorted_by_id_string(out),
{
    assert forall|a: int, b: int| 0 <= a < b < out.len() implies !lex_lt(
        #[trigger] out[b].data_id@,
        #[trigger] out[a].data_id@,
    ) by {
        assert(out[a].data_id@ == dec(order[a] as nat));
        assert(out[b].data_id@ == dec(order[b] as nat));
    }
}

} // verus!
