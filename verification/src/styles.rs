//! Style-chain details that reduce to codes: list-number surroundings.
use vstd::prelude::*;
use crate::model::NumberSurround;

verus! {

/// The surrounding of the number in one of three consecutive list-number
/// kinds starting at `base`: period (the default, `None`), double
/// parentheses, parenthesis.
pub open spec fn surround_in_triple(kind: u64, base: u64) -> Option<NumberSurround> {
    if (kind - base) % 3 == 1 {
        Some(NumberSurround::DoubleParen)
    } else if (kind - base) % 3 == 2 {
        Some(NumberSurround::Paren)
    } else {
        None
    }
}

/// List number kind → its surrounding: kinds 0–47, 49–60 and 62–64 come in
/// triples (period, double parentheses, parenthesis); 48 and 61 stand bare.
pub open spec fn number_surround_spec(kind: u64) -> Option<NumberSurround> {
    if kind <= 47 {
        surround_in_triple(kind, 0)
    } else if kind == 48 || kind == 61 {
        Some(NumberSurround::Bare)
    } else if 49 <= kind <= 60 {
        surround_in_triple(kind, 49)
    } else if 62 <= kind <= 64 {
        surround_in_triple(kind, 62)
    } else {
        None
    }
}

fn triple(kind: u64, base: u64) -> (r: Option<NumberSurround>)
    requires
        kind >= base,
    ensures
        r == surround_in_triple(kind, base),
{
    let m = (kind - base) % 3;
    if m == 1 {
        Some(NumberSurround::DoubleParen)
    } else if m == 2 {
        Some(NumberSurround::Paren)
    } else {
        None
    }
}

/// The surrounding of a list number of the given kind.
pub fn number_surround_of(kind: u64) -> (r: Option<NumberSurround>)
    ensures
        r == number_surround_spec(kind),
{
    if kind <= 47 {
        triple(kind, 0)
    } else if kind == 48 || kind == 61 {
        Some(NumberSurround::Bare)
    } else if kind <= 60 {
        triple(kind, 49)
    } else if kind <= 64 {
        triple(kind, 62)
    } else {
        None
    }
}

} // verus!
