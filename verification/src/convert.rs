//! A loaded document converted whole: its root checked, the document read
//! for its app, and every warning (the loader's first) collapsed.
use vstd::prelude::*;
use crate::model::{AppKind, Warning};
use crate::documents::{Document, convert_document, pages_ok, pages_warnings_ok, numbers_ok, numbers_warnings_ok,
    keynote_ok, keynote_warnings_ok};
use crate::loader::{Loaded, loaded_view, ids_consistent};
use crate::ctx::{loaded_msg, drain_loader_warnings, loader_warnings_spec};
use crate::wire::{WireSpec, fields_view};
use crate::text_util::owned;
use crate::{WarningView, view_warnings, aggregate, aggregation_fits, aggregate_if_fits};

verus! {

/// A converted document and its warnings.
pub struct Envelope {
    pub document: Document,
    pub warnings: Vec<Warning>,
}

/// Why a loaded archive gives no document.
#[derive(Clone, Copy, Debug, PartialEq, Eq)]
pub enum ConvertError {
    /// Object 1, the document root, is not there to decode.
    NoDocumentRoot,
}

impl ConvertError {
    /// What went wrong, in words.
    pub fn message(&self) -> (r: String)
        ensures
            r@ == "no decodable document root (object 1) — not a usable iWork document"@,
    {
        owned("no decodable document root (object 1) — not a usable iWork document")
    }
}

/// `d` is the document of app `app` read from root `root`, and `new` is
/// `old` followed by the warnings reading it adds (see `convert_document`).
pub open spec fn document_ok(
    loaded: Loaded,
    app: AppKind,
    root: Seq<(u32, WireSpec)>,
    d: Document,
    old: Seq<WarningView>,
    new: Seq<WarningView>,
) -> bool {
    match d {
        Document::Pages(p) => app == AppKind::Pages && pages_ok(loaded, root, p) && pages_warnings_ok(
            loaded,
            root,
            p,
            old,
            new,
        ),
        Document::Numbers(n) => app == AppKind::Numbers && numbers_ok(loaded, root, n) && numbers_warnings_ok(
            loaded,
            root,
            old,
            new,
        ),
        Document::Keynote(k) => app == AppKind::Keynote && keynote_ok(loaded, root, k) && keynote_warnings_ok(
            loaded,
            root,
            old,
            new,
        ),
    }
}

/// Convert a loaded archive. Object 1 is the document root: without it
/// the archive is no usable document. Otherwise the document is read for
/// `app` (see `convert_document`); its warnings come after the loader's
/// (see `drain_loader_warnings`, with `table` naming the types), and the
/// whole list is collapsed as `aggregate_if_fits` collapses it.
pub fn convert_loaded(loaded: &Loaded, app: AppKind, table: &Vec<(u32, String)>) -> (r: Result<Envelope, ConvertError>)
    requires
        ids_consistent(*loaded),
    ensures
        r is Err <==> loaded_msg(loaded_view(*loaded).records, 1) is None,
        r matches Err(e) ==> e == ConvertError::NoDocumentRoot,
        r matches Ok(e) ==> exists|raw: Seq<WarningView>|
            #[trigger] document_ok(
                *loaded,
                app,
                loaded_msg(loaded_view(*loaded).records, 1)->0,
                e.document,
                loader_warnings_spec(*loaded, table@),
                raw,
            ) && view_warnings(e.warnings@) == if aggregation_fits(raw) {
                aggregate(raw)
            } else {
                raw
            },
{
    let root = match loaded.msg(1) {
        Some(m) => m,
        None => {
            return Err(ConvertError::NoDocumentRoot);
        },
    };
    assert(loaded_msg(loaded_view(*loaded).records, 1) == Some(fields_view(root.fields@)));
    let mut warnings: Vec<Warning> = Vec::new();
    drain_loader_warnings(loaded, table, &mut warnings);
    let ghost w0 = view_warnings(warnings@);
    assert(w0 =~= loader_warnings_spec(*loaded, table@));
    let document = convert_document(loaded, app, root, &mut warnings);
    let ghost raw = view_warnings(warnings@);
    assert(document_ok(*loaded, app, fields_view(root.fields@), document, w0, raw));
    let warnings = aggregate_if_fits(warnings);
    let e = Envelope { document, warnings };
    assert(document_ok(
        *loaded,
        app,
        loaded_msg(loaded_view(*loaded).records, 1)->0,
        e.document,
        loader_warnings_spec(*loaded, table@),
        raw,
    ));
    Ok(e)
}

} // verus!
