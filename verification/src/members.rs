//! Container members: which one holds a media asset, whether the member
//! list marks a document this reader refuses, and which members hold the
//! object streams.
use vstd::prelude::*;
use crate::text_util::{chars_of, str_eq, push_str, string_of, owned};
use crate::text::{lower, ascii_lower_exec};

verus! {

/// `s` ends with `suffix`.
pub open spec fn ends_with(s: Seq<char>, suffix: Seq<char>) -> bool {
    suffix.len() <= s.len() && s.skip(s.len() - suffix.len()) == suffix
}

/// A member name that holds the media asset `file_name`: `Data/<name>`
/// itself, or a path ending in `/Data/<name>` (zipped packages carry the
/// bundle directory as a prefix).
pub open spec fn holds_data_file(member: Seq<char>, file_name: Seq<char>) -> bool {
    member == "Data/"@ + file_name || ends_with(member, "/Data/"@ + file_name)
}

fn ends_with_exec(s: &Vec<char>, suffix: &Vec<char>) -> (r: bool)
    ensures
        r == ends_with(s@, suffix@),
{
    if suffix.len() > s.len() {
        return false;
    }
    let n = s.len();
    let off = n - suffix.len();
    let mut i: usize = 0;
    while i < suffix.len()
        invariant
            n == s@.len(),
            off + suffix@.len() == s@.len(),
            i <= suffix@.len(),
            forall|t: int| 0 <= t < i ==> s@[off + t] == suffix@[t],
        decreases suffix@.len() - i,
    {
        if s[off + i] != suffix[i] {
            assert(s@.skip(off as int)[i as int] != suffix@[i as int]);
            return false;
        }
        i = i + 1;
    }
    assert(s@.skip(off as int) =~= suffix@);
    true
}

/// Whether a member name holds the media asset `file_name`.
pub fn is_data_member(member: &str, file_name: &str) -> (r: bool)
    ensures
        r == holds_data_file(member@, file_name@),
{
    let mut exact = String::new();
    crate::text_util::push_str(&mut exact, "Data/");
    crate::text_util::push_str(&mut exact, file_name);
    let mut suffix = String::new();
    crate::text_util::push_str(&mut suffix, "/Data/");
    crate::text_util::push_str(&mut suffix, file_name);
    let m = chars_of(member);
    let sfx = chars_of(suffix.as_str());
    str_eq(member, exact.as_str()) || ends_with_exec(&m, &sfx)
}

/// Whether any member of the container holds the media asset `file_name`
/// — a name check only, never inflating a member.
pub fn has_data_file(members: &[String], file_name: &str) -> (r: bool)
    ensures
        r == exists|i: int| 0 <= i < members@.len() && holds_data_file(#[trigger] members@[i]@, file_name@),
{
    let mut i: usize = 0;
    while i < members.len()
        invariant
            i <= members@.len(),
            forall|t: int| 0 <= t < i ==> !holds_data_file(#[trigger] members@[t]@, file_name@),
        decreases members@.len() - i,
    {
        if is_data_member(members[i].as_str(), file_name) {
            return true;
        }
        i = i + 1;
    }
    false
}

} // verus!

verus! {

/// The part of a member name after its last `/`.
pub open spec fn base_name(n: Seq<char>) -> Seq<char>
    decreases n.len(),
{
    if n.len() == 0 {
        n
    } else if n.last() == '/' {
        Seq::empty()
    } else {
        base_name(n.drop_last()).push(n.last())
    }
}

/// `p` starts `s`.
pub open spec fn starts_with(s: Seq<char>, p: Seq<char>) -> bool {
    p.len() <= s.len() && s.take(p.len() as int) == p
}

/// A member that marks a password-protected document.
pub open spec fn is_encrypted_member(n: Seq<char>) -> bool {
    starts_with(base_name(n), ".iwph"@) || starts_with(base_name(n), ".iwpv"@)
}

/// The bundle markers of pre-2013 documents.
pub open spec fn is_legacy_marker(b: Seq<char>) -> bool {
    b == "index.xml"@ || b == "index.xml.gz"@ || b == "index.apxl"@ || b == "index.numbers"@ || b
        == "index.db"@
}

/// A member that marks a pre-2013 document: its base name, in lower case,
/// is a legacy bundle marker.
pub open spec fn is_legacy_member(n: Seq<char>) -> bool {
    is_legacy_marker(lower(base_name(n)))
}

/// Why a container is refused.
#[derive(Debug, Clone, Copy, PartialEq, Eq, Structural)]
pub enum RejectKind {
    /// Not an iWork '13+ container.
    Unsupported,
    /// A password-protected document.
    Encrypted,
    /// A pre-2013 document.
    Legacy,
}

/// A refused container: the kind and the message shown for it.
pub struct ContainerError {
    pub kind: RejectKind,
    pub message: String,
}

pub open spec fn encrypted_message(base: Seq<char>) -> Seq<char> {
    "document: encrypted iWork document (member `"@ + base
        + "`) \u{2014} password-protected files are not supported"@
}

pub open spec fn legacy_message(marker: Seq<char>) -> Seq<char> {
    "document: legacy iWork document (bundle marker `"@ + marker
        + "`) \u{2014} re-save with a current version of Pages, Numbers, or Keynote"@
}

/// The position of the first of the first `k` names satisfying `p`.
pub open spec fn first_where(names: Seq<String>, p: spec_fn(Seq<char>) -> bool, k: int) -> Option<int>
    decreases k,
{
    if k <= 0 {
        None
    } else {
        match first_where(names, p, k - 1) {
            Some(i) => Some(i),
            None => if p(names[k - 1]@) {
                Some(k - 1)
            } else {
                None
            },
        }
    }
}

pub open spec fn encrypted_pred() -> spec_fn(Seq<char>) -> bool {
    |n: Seq<char>| is_encrypted_member(n)
}

pub open spec fn legacy_pred() -> spec_fn(Seq<char>) -> bool {
    |n: Seq<char>| is_legacy_member(n)
}

pub open spec fn nested_pred() -> spec_fn(Seq<char>) -> bool {
    |n: Seq<char>| is_nested_index(n)
}

/// The refusal a member list calls for: an encrypted-document member
/// first, then a legacy bundle marker (the first such member in order
/// names it); none for an iWork '13+ container.
pub open spec fn rejection(names: Seq<String>) -> Option<(RejectKind, Seq<char>)> {
    match first_where(names, encrypted_pred(), names.len() as int) {
        Some(i) => Some((RejectKind::Encrypted, encrypted_message(base_name(names[i]@)))),
        None => match first_where(names, legacy_pred(), names.len() as int) {
            Some(i) => Some((RejectKind::Legacy, legacy_message(lower(base_name(names[i]@))))),
            None => None,
        },
    }
}

proof fn lemma_first_where_stable(names: Seq<String>, p: spec_fn(Seq<char>) -> bool, k: int, k2: int)
    requires
        k <= k2,
        first_where(names, p, k) is Some,
    ensures
        first_where(names, p, k2) == first_where(names, p, k),
    decreases k2 - k,
{
    if k2 > k {
        lemma_first_where_stable(names, p, k, k2 - 1);
    }
}

pub proof fn lemma_first_where_bounds(names: Seq<String>, p: spec_fn(Seq<char>) -> bool, k: int)
    ensures
        first_where(names, p, k) matches Some(i) ==> 0 <= i < k && p(names[i]@),
    decreases k,
{
    if k > 0 {
        lemma_first_where_bounds(names, p, k - 1);
    }
}

/// The part of a member name after its last `/`.
pub fn base_name_exec(n: &str) -> (r: String)
    ensures
        r@ == base_name(n@),
{
    let v = chars_of(n);
    let mut start: usize = v.len();
    assert(n@.take(v@.len() as int) =~= n@);
    assert(n@.skip(v@.len() as int) =~= Seq::<char>::empty());
    assert(base_name(n@) + Seq::<char>::empty() =~= base_name(n@));
    while start > 0 && v[start - 1] != '/'
        invariant
            start <= v@.len(),
            v@ == n@,
            base_name(n@) == base_name(n@.take(start as int)) + n@.skip(start as int),
        decreases start,
    {
        let ghost t = n@.take(start as int);
        assert(t.drop_last() =~= n@.take(start - 1));
        assert(t.last() == n@[start - 1]);
        assert(n@.skip(start - 1) =~= seq![n@[start - 1]] + n@.skip(start as int));
        assert(base_name(t) == base_name(t.drop_last()).push(t.last()));
        assert(base_name(t.drop_last()).push(t.last()) + n@.skip(start as int) =~= base_name(
            t.drop_last(),
        ) + n@.skip(start - 1));
        start = start - 1;
    }
    proof {
        let t = n@.take(start as int);
        if start > 0 {
            assert(t.last() == '/');
        } else {
            assert(t =~= Seq::<char>::empty());
        }
        assert(base_name(t) =~= Seq::<char>::empty());
        assert(Seq::<char>::empty() + n@.skip(start as int) =~= n@.skip(start as int));
    }
    let r = string_of(v.as_slice(), start, v.len());
    assert(r@ =~= n@.skip(start as int));
    r
}

pub(crate) fn starts_with_exec(s: &Vec<char>, p: &Vec<char>) -> (r: bool)
    ensures
        r == starts_with(s@, p@),
{
    if p.len() > s.len() {
        return false;
    }
    let mut i: usize = 0;
    while i < p.len()
        invariant
            p@.len() <= s@.len(),
            i <= p@.len(),
            forall|t: int| 0 <= t < i ==> s@[t] == p@[t],
        decreases p@.len() - i,
    {
        if s[i] != p[i] {
            assert(s@.take(p@.len() as int)[i as int] != p@[i as int]);
            return false;
        }
        i = i + 1;
    }
    assert(s@.take(p@.len() as int) =~= p@);
    true
}

fn lower_chars(v: &Vec<char>) -> (r: Vec<char>)
    ensures
        r@ == lower(v@),
{
    let mut out: Vec<char> = Vec::new();
    let mut i: usize = 0;
    while i < v.len()
        invariant
            i <= v@.len(),
            out@ == lower(v@.take(i as int)),
        decreases v@.len() - i,
    {
        out.push(ascii_lower_exec(v[i]));
        assert(lower(v@.take(i + 1)) =~= lower(v@.take(i as int)).push(
            crate::text::ascii_lower(v@[i as int]),
        ));
        i = i + 1;
    }
    assert(v@.take(i as int) =~= v@);
    out
}

fn is_encrypted_exec(n: &str) -> (r: bool)
    ensures
        r == is_encrypted_member(n@),
{
    let b = base_name_exec(n);
    let v = chars_of(b.as_str());
    let p1 = chars_of(".iwph");
    let p2 = chars_of(".iwpv");
    starts_with_exec(&v, &p1) || starts_with_exec(&v, &p2)
}

fn is_legacy_exec(n: &str) -> (r: bool)
    ensures
        r == is_legacy_member(n@),
{
    let b = base_name_exec(n);
    let low = lower_chars(&chars_of(b.as_str()));
    let l = string_of(low.as_slice(), 0, low.len());
    assert(low@.subrange(0, low@.len() as int) =~= low@);
    str_eq(l.as_str(), "index.xml") || str_eq(l.as_str(), "index.xml.gz") || str_eq(
        l.as_str(),
        "index.apxl",
    ) || str_eq(l.as_str(), "index.numbers") || str_eq(l.as_str(), "index.db")
}

/// The refusal a container's member list calls for (see `rejection`):
/// password-protected documents carry `.iwph`/`.iwpv` members, pre-2013
/// documents an `index.xml`-style bundle marker.
pub fn check_members(names: &[String]) -> (r: Result<(), ContainerError>)
    ensures
        match rejection(names@) {
            Some((kind, message)) => r matches Err(e) && e.kind == kind && e.message@ == message,
            None => r is Ok,
        },
{
    let ghost enc = encrypted_pred();
    let ghost leg = legacy_pred();
    let mut i: usize = 0;
    while i < names.len()
        invariant
            i <= names@.len(),
            enc == encrypted_pred(),
            first_where(names@, enc, i as int) is None,
        decreases names@.len() - i,
    {
        if is_encrypted_exec(names[i].as_str()) {
            proof {
                assert(enc(names@[i as int]@));
                lemma_first_where_stable(names@, enc, i + 1, names@.len() as int);
            }
            let base = base_name_exec(names[i].as_str());
            let mut m = owned("document: encrypted iWork document (member `");
            push_str(&mut m, base.as_str());
            push_str(&mut m, "`) \u{2014} password-protected files are not supported");
            proof {
                reveal_strlit("document: encrypted iWork document (member `");
                reveal_strlit("`) \u{2014} password-protected files are not supported");
            }
            return Err(ContainerError { kind: RejectKind::Encrypted, message: m });
        }
        i = i + 1;
    }
    let mut i: usize = 0;
    while i < names.len()
        invariant
            i <= names@.len(),
            enc == encrypted_pred(),
            leg == legacy_pred(),
            first_where(names@, enc, names@.len() as int) is None,
            first_where(names@, leg, i as int) is None,
        decreases names@.len() - i,
    {
        if is_legacy_exec(names[i].as_str()) {
            proof {
                assert(leg(names@[i as int]@));
                lemma_first_where_stable(names@, leg, i + 1, names@.len() as int);
            }
            let base = base_name_exec(names[i].as_str());
            let low = lower_chars(&chars_of(base.as_str()));
            let marker = string_of(low.as_slice(), 0, low.len());
            assert(low@.subrange(0, low@.len() as int) =~= low@);
            let mut m = owned("document: legacy iWork document (bundle marker `");
            push_str(&mut m, marker.as_str());
            push_str(&mut m, "`) \u{2014} re-save with a current version of Pages, Numbers, or Keynote");
            return Err(ContainerError { kind: RejectKind::Legacy, message: m });
        }
        i = i + 1;
    }
    Ok(())
}

/// A member holding an object stream: a file (not a directory entry) whose
/// name ends in `.iwa`, in any case.
pub open spec fn is_iwa_member(n: Seq<char>) -> bool {
    !ends_with(n, "/"@) && ends_with(lower(n), ".iwa"@)
}

/// Whether a member holds an object stream.
pub fn is_iwa_name(n: &str) -> (r: bool)
    ensures
        r == is_iwa_member(n@),
{
    let v = chars_of(n);
    let slash = chars_of("/");
    let ext = chars_of(".iwa");
    let low = lower_chars(&v);
    !ends_with_exec(&v, &slash) && ends_with_exec(&low, &ext)
}

/// A member holding a nested object-stream archive: a file whose name ends
/// in `Index.zip`.
pub open spec fn is_nested_index(n: Seq<char>) -> bool {
    ends_with(n, "Index.zip"@) && !ends_with(n, "/"@)
}

/// The first member holding a nested object-stream archive.
pub fn nested_index(names: &[String]) -> (r: Option<usize>)
    ensures
        r matches Some(i) ==> first_where(names@, nested_pred(), names@.len() as int) == Some(
            i as int,
        ),
        r is None ==> first_where(names@, nested_pred(), names@.len() as int) is None,
{
    let ghost p = nested_pred();
    let suffix = chars_of("Index.zip");
    let slash = chars_of("/");
    let mut i: usize = 0;
    while i < names.len()
        invariant
            i <= names@.len(),
            p == nested_pred(),
            suffix@ == "Index.zip"@,
            slash@ == "/"@,
            first_where(names@, p, i as int) is None,
        decreases names@.len() - i,
    {
        let v = chars_of(names[i].as_str());
        if ends_with_exec(&v, &suffix) && !ends_with_exec(&v, &slash) {
            proof {
                assert(p(names@[i as int]@));
                lemma_first_where_stable(names@, p, i + 1, names@.len() as int);
            }
            return Some(i);
        }
        i = i + 1;
    }
    None
}

/// A collaboration log (LZFSE-compressed, `bvx` magic) stored under a
/// `.iwa` name: not an object stream.
pub fn is_operation_log(b: &[u8]) -> (r: bool)
    ensures
        r == (b@.len() >= 3 && b@[0] == 0x62 && b@[1] == 0x76 && b@[2] == 0x78),
{
    b.len() >= 3 && b[0] == 0x62 && b[1] == 0x76 && b[2] == 0x78
}

/// The refusal of a container that holds no object streams.
pub fn no_iwork_data() -> (e: ContainerError)
    ensures
        e.kind == RejectKind::Unsupported,
        e.message@ == "document: no iWork '13+ data found (missing Index.zip / *.iwa members)"@,
{
    ContainerError {
        kind: RejectKind::Unsupported,
        message: owned("document: no iWork '13+ data found (missing Index.zip / *.iwa members)"),
    }
}

} // verus!

verus! {

proof fn lemma_first_where_found(names: Seq<String>, p: spec_fn(Seq<char>) -> bool, k: int, i: int)
    requires
        0 <= i < k <= names.len(),
        p(names[i]@),
    ensures
        first_where(names, p, k) is Some,
    decreases k,
{
    if k - 1 > i {
        lemma_first_where_found(names, p, k - 1, i);
    }
}

/// A container with a password-protection member is refused as
/// encrypted, whatever else it holds.
pub proof fn lemma_encrypted_refused(names: Seq<String>, i: int)
    requires
        0 <= i < names.len(),
        is_encrypted_member(names[i]@),
    ensures
        rejection(names) matches Some((kind, _)) && kind == RejectKind::Encrypted,
{
    lemma_first_where_found(names, encrypted_pred(), names.len() as int, i);
}

/// A container with a legacy bundle marker and no password-protection
/// member is refused as legacy; one with neither passes.
pub proof fn lemma_legacy_refused(names: Seq<String>)
    requires
        forall|j: int| 0 <= j < names.len() ==> !is_encrypted_member(#[trigger] names[j]@),
    ensures
        (exists|i: int| 0 <= i < names.len() && is_legacy_member(#[trigger] names[i]@)) ==> (rejection(
            names,
        ) matches Some((kind, _)) && kind == RejectKind::Legacy),
        (forall|i: int| 0 <= i < names.len() ==> !is_legacy_member(#[trigger] names[i]@)) ==> rejection(
            names,
        ) is None,
{
    if first_where(names, encrypted_pred(), names.len() as int) is Some {
        lemma_first_where_bounds(names, encrypted_pred(), names.len() as int);
        let i = first_where(names, encrypted_pred(), names.len() as int).unwrap();
        assert(!is_encrypted_member(names[i]@));
    }
    if exists|i: int| 0 <= i < names.len() && is_legacy_member(#[trigger] names[i]@) {
        let i = choose|i: int| 0 <= i < names.len() && is_legacy_member(#[trigger] names[i]@);
        lemma_first_where_found(names, legacy_pred(), names.len() as int, i);
    }
    if first_where(names, legacy_pred(), names.len() as int) is Some {
        lemma_first_where_bounds(names, legacy_pred(), names.len() as int);
    }
}

} // verus!
