//! A document container read from its raw bytes: the member list, the
//! refusals it calls for, and the object-stream members with their bytes
//! (from a nested `Index.zip` when the top level holds none).
use vstd::prelude::*;
use crate::members::{
    ContainerError, RejectKind, rejection, first_where, nested_pred, is_iwa_member, check_members,
    is_iwa_name, nested_index, is_operation_log, no_iwork_data, lemma_first_where_bounds,
};
use crate::text_util::{owned, push_str};
use crate::numbers::opt_text;

verus! {

/// The entry count of the ZIP archive in `b`, or the text of the error
/// that opening it gives.
pub uninterp spec fn zip_opened(b: Seq<u8>) -> Result<nat, Seq<char>>;

/// The name of entry `i` of the ZIP archive in `b`, when it reads.
pub uninterp spec fn zip_entry_name(b: Seq<u8>, i: nat) -> Option<Seq<char>>;

/// The inflated bytes of the member `name` of the ZIP archive in `b`, when
/// it reads.
pub uninterp spec fn zip_member(b: Seq<u8>, name: Seq<char>) -> Option<Seq<u8>>;

/// Opens the ZIP archive in `b` (`zip::ZipArchive::new`) and gives its
/// entry count (`len`), or the error's text. The contract claims only that
/// this is a function of the bytes.
#[verifier::external_body]
fn zip_entry_count(b: &[u8]) -> (r: Result<usize, String>)
    ensures
        match zip_opened(b@) {
            Ok(n) => r matches Ok(x) && x as nat == n,
            Err(e) => r matches Err(s) && s@ == e,
        },
{
    match zip::ZipArchive::new(std::io::Cursor::new(b)) {
        Ok(z) => Ok(z.len()),
        Err(e) => Err(format!("{e}")),
    }
}

/// The name of entry `i` (`zip::ZipArchive::by_index_raw`, then
/// `ZipFile::name`), `None` when the archive or the entry does not read.
/// The contract claims only that this is a function of the bytes and `i`.
#[verifier::external_body]
fn zip_name_at(b: &[u8], i: usize) -> (r: Option<String>)
    ensures
        opt_text(r) == zip_entry_name(b@, i as nat),
{
    let mut z = zip::ZipArchive::new(std::io::Cursor::new(b)).ok()?;
    let f = z.by_index_raw(i).ok()?;
    Some(f.name().to_string())
}

/// The bytes of member `name`, inflated (`zip::ZipArchive::by_name`, then
/// `read_to_end`), `None` when it does not read. The contract claims only
/// that this is a function of the bytes and the name.
#[verifier::external_body]
fn zip_read(b: &[u8], name: &str) -> (r: Option<Vec<u8>>)
    ensures
        match zip_member(b@, name@) {
            Some(m) => r matches Some(v) && v@ == m,
            None => r is None,
        },
{
    let mut z = zip::ZipArchive::new(std::io::Cursor::new(b)).ok()?;
    let mut f = z.by_name(name).ok()?;
    let mut buf = Vec::new();
    std::io::Read::read_to_end(&mut f, &mut buf).ok()?;
    Some(buf)
}

/// The names of the first `k` entries that read.
pub open spec fn names_upto(b: Seq<u8>, k: int) -> Seq<Seq<char>>
    decreases k,
{
    if k <= 0 {
        Seq::empty()
    } else {
        match zip_entry_name(b, (k - 1) as nat) {
            Some(n) => names_upto(b, k - 1).push(n),
            None => names_upto(b, k - 1),
        }
    }
}

/// The member list of a container, or the refusal of bytes that are no
/// ZIP archive.
pub open spec fn member_names_spec(b: Seq<u8>) -> Result<Seq<Seq<char>>, Seq<char>> {
    match zip_opened(b) {
        Ok(n) => Ok(names_upto(b, n as int)),
        Err(e) => Err("document: not a readable ZIP container: "@ + e),
    }
}

/// The views of strings.
pub open spec fn strs(v: Seq<String>) -> Seq<Seq<char>> {
    v.map_values(|s: String| s@)
}

/// The largest member that is inflated whole: a crafted DEFLATE bomb must
/// not expand without bound.
pub const MAX_MEMBER_BYTES: u64 = 1073741824;

/// The bytes of member `name` of a container: `None` when it is not there,
/// does not inflate, or inflates past `MAX_MEMBER_BYTES`.
pub fn member_bytes(bytes: &[u8], name: &str) -> (r: Option<Vec<u8>>)
    ensures
        match zip_member(bytes@, name@) {
            Some(m) => if m.len() <= MAX_MEMBER_BYTES {
                r matches Some(v) && v@ == m
            } else {
                r is None
            },
            None => r is None,
        },
{
    match zip_read(bytes, name) {
        Some(v) => if (v.len() as u64) <= MAX_MEMBER_BYTES {
            Some(v)
        } else {
            None
        },
        None => None,
    }
}

/// The member names of a container, in entry order.
pub fn member_names(bytes: &[u8]) -> (r: Result<Vec<String>, ContainerError>)
    ensures
        match member_names_spec(bytes@) {
            Ok(ns) => r matches Ok(v) && strs(v@) == ns,
            Err(m) => r matches Err(e) && e.kind == RejectKind::Unsupported && e.message@ == m,
        },
{
    let n = match zip_entry_count(bytes) {
        Ok(n) => n,
        Err(e) => {
            let mut m = owned("document: not a readable ZIP container: ");
            push_str(&mut m, e.as_str());
            return Err(ContainerError { kind: RejectKind::Unsupported, message: m });
        },
    };
    let mut names: Vec<String> = Vec::new();
    let mut i: usize = 0;
    while i < n
        invariant
            i <= n,
            strs(names@) == names_upto(bytes@, i as int),
        decreases n - i,
    {
        match zip_name_at(bytes, i) {
            Some(s) => {
                let ghost before = names@;
                names.push(s);
                assert(strs(names@) =~= strs(before).push(s@));
            },
            None => {},
        }
        i = i + 1;
    }
    Ok(names)
}

/// Is a member's content an operation log (`bvx` magic), not an object
/// stream.
pub open spec fn op_log(m: Seq<u8>) -> bool {
    m.len() >= 3 && m[0] == 0x62 && m[1] == 0x76 && m[2] == 0x78
}

/// The object-stream members among the names, with their bytes: `.iwa`
/// members that read and are no operation log, in order.
pub open spec fn iwas_of(b: Seq<u8>, ns: Seq<Seq<char>>) -> Seq<(Seq<char>, Seq<u8>)>
    decreases ns.len(),
{
    if ns.len() == 0 {
        Seq::empty()
    } else {
        let h = iwas_of(b, ns.drop_last());
        let n = ns.last();
        if !is_iwa_member(n) {
            h
        } else {
            match zip_member(b, n) {
                Some(m) => if op_log(m) {
                    h
                } else {
                    h.push((n, m))
                },
                None => h,
            }
        }
    }
}

/// The views of (name, bytes) members.
pub open spec fn member_views(v: Seq<(String, Vec<u8>)>) -> Seq<(Seq<char>, Seq<u8>)> {
    v.map_values(|e: (String, Vec<u8>)| (e.0@, e.1@))
}

fn collect_iwas(bytes: &[u8], names: &Vec<String>) -> (r: Vec<(String, Vec<u8>)>)
    ensures
        member_views(r@) == iwas_of(bytes@, strs(names@)),
{
    let ghost ns = strs(names@);
    let mut out: Vec<(String, Vec<u8>)> = Vec::new();
    let mut i: usize = 0;
    assert(ns.take(0) =~= Seq::<Seq<char>>::empty());
    while i < names.len()
        invariant
            i <= names@.len(),
            ns == strs(names@),
            member_views(out@) == iwas_of(bytes@, ns.take(i as int)),
        decreases names@.len() - i,
    {
        proof {
            assert(ns.take(i + 1).drop_last() =~= ns.take(i as int));
            assert(ns.take(i + 1).last() == names@[i as int]@);
        }
        let n = &names[i];
        if is_iwa_name(n.as_str()) {
            match zip_read(bytes, n.as_str()) {
                Some(b) => {
                    if !is_operation_log(b.as_slice()) {
                        let ghost before = out@;
                        let name = owned(n.as_str());
                        let ghost e = (name@, b@);
                        out.push((name, b));
                        assert(member_views(out@) =~= member_views(before).push(e));
                    }
                },
                None => {},
            }
        }
        i = i + 1;
    }
    assert(ns.take(i as int) =~= ns);
    out
}

/// The members of the nested `Index.zip`, when the top level holds none.
pub open spec fn nested_iwas(b: Seq<u8>, names: Seq<String>) -> Seq<(Seq<char>, Seq<u8>)> {
    match first_where(names, nested_pred(), names.len() as int) {
        Some(i) => match zip_member(b, names[i]@) {
            Some(nb) => match member_names_spec(nb) {
                Ok(inner) => iwas_of(nb, inner),
                Err(_) => Seq::empty(),
            },
            None => Seq::empty(),
        },
        None => Seq::empty(),
    }
}

/// The object-stream members of a document, by name, with their bytes;
/// or the refusal the document gets: bytes that are no ZIP archive, an
/// encrypted or legacy document (see `rejection`), or a container without
/// object streams at its top level or in its nested `Index.zip`.
pub fn iwa_members_from_bytes(bytes: &[u8]) -> (r: Result<Vec<(String, Vec<u8>)>, ContainerError>)
    ensures
        match member_names_spec(bytes@) {
            Err(m) => r matches Err(e) && e.kind == RejectKind::Unsupported && e.message@ == m,
            Ok(ns) => exists|names: Seq<String>|
                #[trigger] strs(names) == ns && match rejection(names) {
                    Some((kind, message)) => r matches Err(e) && e.kind == kind && e.message@ == message,
                    None => {
                        let top = iwas_of(bytes@, ns);
                        let found = if top.len() > 0 {
                            top
                        } else {
                            nested_iwas(bytes@, names)
                        };
                        if found.len() == 0 {
                            r matches Err(e) && e.kind == RejectKind::Unsupported && e.message@
                                == "document: no iWork '13+ data found (missing Index.zip / *.iwa members)"@
                        } else {
                            r matches Ok(v) && member_views(v@) == found
                        }
                    },
                },
        },
{
    let names = match member_names(bytes) {
        Ok(v) => v,
        Err(e) => {
            return Err(e);
        },
    };
    assert(strs(names@) == strs(names@));
    match check_members(names.as_slice()) {
        Ok(_) => {},
        Err(e) => {
            return Err(e);
        },
    }
    let mut iwas = collect_iwas(bytes, &names);
    if iwas.len() == 0 {
        proof {
            lemma_first_where_bounds(names@, nested_pred(), names@.len() as int);
        }
        match nested_index(names.as_slice()) {
            Some(i) => match zip_read(bytes, names[i].as_str()) {
                Some(nested) => match member_names(nested.as_slice()) {
                    Ok(inner) => {
                        iwas = collect_iwas(nested.as_slice(), &inner);
                    },
                    Err(_) => {},
                },
                None => {},
            },
            None => {},
        }
    }
    if iwas.len() == 0 {
        return Err(no_iwork_data());
    }
    Ok(iwas)
}

} // verus!
