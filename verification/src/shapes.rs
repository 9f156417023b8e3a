//! The reading of a shape-info record: whether it draws as a text box or a
//! shape, its placeholder role, the text storage it shows and how its
//! text fits.
use vstd::prelude::*;
use crate::model::TextFit;
use crate::pb::{Msg, vvarint, vmsg, lemma_vall};
use crate::wire::{WireSpec, fields_view};
use crate::keynote::{ref_of, bool_of};
use crate::members::{starts_with, starts_with_exec};
use crate::text_util::{owned, chars_of};
use crate::numbers::opt_text;

verus! {

/// How a shape-info record draws.
pub struct ShapePlan {
    /// Drawn as a text box (a text box, or a placeholder) rather than a shape.
    pub textbox: bool,
    /// The placeholder role, for placeholders.
    pub placeholder_role: Option<String>,
    /// The text storage shown.
    pub storage_id: Option<u64>,
    pub text_fit: Option<TextFit>,
}

/// Whether a type id is a placeholder's (types 7 and 12), whose record
/// wraps a shape info as its super (field 1) with a kind (field 2).
pub open spec fn is_placeholder(type_id: u32) -> bool {
    type_id == 7 || type_id == 12
}

/// The shape info of a record: a placeholder's super when it has one,
/// else the record itself.
pub open spec fn info_of(m: Seq<(u32, WireSpec)>, type_id: u32) -> Seq<(u32, WireSpec)> {
    if is_placeholder(type_id) && vmsg(m, 1) is Some {
        vmsg(m, 1)->0
    } else {
        m
    }
}

/// A placeholder's role: for Keynote's (the registry name starts with
/// "KN.") by its kind (1 slide number, 2 title, 3 body, 4 object, else
/// placeholder); for others, placeholder; none for other types.
pub open spec fn role_of(m: Seq<(u32, WireSpec)>, type_id: u32, name: Option<Seq<char>>) -> Option<Seq<char>> {
    if !is_placeholder(type_id) {
        None
    } else if name matches Some(n) && starts_with(n, "KN."@) {
        let k = match vvarint(m, 2) {
            Some(k) => k,
            None => 0,
        };
        Some(
            if k == 1 {
                "slide-number"@
            } else if k == 2 {
                "title"@
            } else if k == 3 {
                "body"@
            } else if k == 4 {
                "object"@
            } else {
                "placeholder"@
            },
        )
    } else {
        Some("placeholder"@)
    }
}

/// The storage a shape info shows: its owned storage (field 4), else its
/// text flow's storage (field 3, its field 1), else the older storage
/// field 2.
pub open spec fn storage_of(info: Seq<(u32, WireSpec)>) -> Option<u64> {
    match ref_of(info, 4) {
        Some(s) => Some(s),
        None => match (match vmsg(info, 3) {
            Some(f) => ref_of(f, 1),
            None => None,
        }) {
            Some(s) => Some(s),
            None => ref_of(info, 2),
        },
    }
}

/// How the text fits: shrunk when the frame says so; a plain text box (no
/// placeholder) grows; else as stored.
pub open spec fn fit_of(shrink_to_fit: Option<bool>, text_box: bool, role: Option<Seq<char>>) -> Option<TextFit> {
    if shrink_to_fit == Some(true) {
        Some(TextFit::Shrink)
    } else if text_box && role is None {
        Some(TextFit::Grow)
    } else {
        None
    }
}

/// The plan of a shape-info record `m` of type `type_id` and registry name
/// `name`, whose text frame's shrink flag is `shrink_to_fit`; none when its
/// shape info has no shape (field 1).
pub open spec fn shape_plan_spec(
    m: Seq<(u32, WireSpec)>,
    type_id: u32,
    name: Option<Seq<char>>,
    shrink_to_fit: Option<bool>,
) -> Option<(bool, Option<Seq<char>>, Option<u64>, Option<TextFit>)> {
    let info = info_of(m, type_id);
    if vmsg(info, 1) is None {
        None
    } else {
        let text_box = bool_of(info, 6) == Some(true);
        let role = role_of(m, type_id, name);
        Some((text_box || is_placeholder(type_id), role, storage_of(info), fit_of(shrink_to_fit, text_box, role)))
    }
}

fn role_exec(m: &Msg, type_id: u32, name: &Option<String>) -> (r: Option<String>)
    ensures
        opt_text(r) == role_of(fields_view(m.fields@), type_id, opt_text(*name)),
{
    if !(type_id == 7 || type_id == 12) {
        return None;
    }
    let keynote = match name {
        Some(n) => {
            let v = chars_of(n.as_str());
            let p = chars_of("KN.");
            starts_with_exec(&v, &p)
        },
        None => false,
    };
    if keynote {
        proof {
            lemma_vall(m.fields@, 2);
        }
        let k = match m.varint(2) {
            Some(k) => k,
            None => 0,
        };
        Some(
            owned(
                if k == 1 {
                    "slide-number"
                } else if k == 2 {
                    "title"
                } else if k == 3 {
                    "body"
                } else if k == 4 {
                    "object"
                } else {
                    "placeholder"
                },
            ),
        )
    } else {
        Some(owned("placeholder"))
    }
}

/// How shape-info record `m` draws (see `shape_plan_spec`); the frame's
/// shrink flag comes from its resolved text-frame style.
pub fn shape_plan(m: &Msg, type_id: u32, name: &Option<String>, shrink_to_fit: Option<bool>) -> (r: Option<ShapePlan>)
    ensures
        match shape_plan_spec(fields_view(m.fields@), type_id, opt_text(*name), shrink_to_fit) {
            None => r is None,
            Some((tb, role, sid, fit)) => r matches Some(p) && p.textbox == tb && opt_text(p.placeholder_role)
                == role && p.storage_id == sid && p.text_fit == fit,
        },
{
    let sup = if type_id == 7 || type_id == 12 {
        m.msg(1)
    } else {
        None
    };
    let info: &Msg = match &sup {
        Some(s) => s,
        None => m,
    };
    assert(fields_view(info.fields@) == info_of(fields_view(m.fields@), type_id));
    if info.msg(1).is_none() {
        return None;
    }
    proof {
        lemma_vall(info.fields@, 6);
    }
    let text_box = match info.boolean(6) {
        Some(b) => b,
        None => false,
    };
    let role = role_exec(m, type_id, name);
    let storage_id = match info.reference(4) {
        Some(s) => Some(s),
        None => match (match info.msg(3) {
            Some(f) => f.reference(1),
            None => None,
        }) {
            Some(s) => Some(s),
            None => info.reference(2),
        },
    };
    let text_fit = match shrink_to_fit {
        Some(true) => Some(TextFit::Shrink),
        _ => if text_box && role.is_none() {
            Some(TextFit::Grow)
        } else {
            None
        },
    };
    Some(ShapePlan { textbox: text_box || type_id == 7 || type_id == 12, placeholder_role: role, storage_id, text_fit })
}

/// Object `pid` is one of Keynote's own placeholders: loaded, of a
/// placeholder type, under a `KN.` registry name.
pub open spec fn kn_placeholder(records: Map<u64, crate::loader::RecordView>, pid: u64) -> bool {
    &&& records.contains_key(pid)
    &&& records[pid].msg is Some
    &&& is_placeholder(records[pid].type_id)
    &&& records[pid].name is Some
    &&& starts_with(records[pid].name->0, "KN."@)
}

/// A master placeholder's role (`placeholder_role`) is the role the
/// placeholder's own drawable shows for the same object (`role_of` on its
/// message, type and registry name); and Keynote's placeholder kinds name
/// their roles: kind 1 "slide-number", 2 "title", 3 "body", 4 "object".
pub proof fn lemma_placeholder_roles(records: Map<u64, crate::loader::RecordView>, pid: u64)
    ensures
        records.contains_key(pid) && records[pid].msg is Some ==> crate::keynote::role_of(records, pid) == role_of(
            records[pid].msg->0,
            records[pid].type_id,
            records[pid].name,
        ),
        kn_placeholder(records, pid) && vvarint(records[pid].msg->0, 2) == Some(1u64) ==> crate::keynote::role_of(
            records,
            pid,
        ) == Some(seq!['s', 'l', 'i', 'd', 'e', '-', 'n', 'u', 'm', 'b', 'e', 'r']),
        kn_placeholder(records, pid) && vvarint(records[pid].msg->0, 2) == Some(2u64) ==> crate::keynote::role_of(
            records,
            pid,
        ) == Some(seq!['t', 'i', 't', 'l', 'e']),
        kn_placeholder(records, pid) && vvarint(records[pid].msg->0, 2) == Some(3u64) ==> crate::keynote::role_of(
            records,
            pid,
        ) == Some(seq!['b', 'o', 'd', 'y']),
        kn_placeholder(records, pid) && vvarint(records[pid].msg->0, 2) == Some(4u64) ==> crate::keynote::role_of(
            records,
            pid,
        ) == Some(seq!['o', 'b', 'j', 'e', 'c', 't']),
{
    reveal_strlit("slide-number");
    reveal_strlit("title");
    reveal_strlit("body");
    reveal_strlit("object");
}

} // verus!
