//! `/JBIG2Decode` (7.4.7) — the compression of the text on a scanned page.
//!
//! **`/JBIG2Globals` is not optional in practice.** A producer that compresses a hundred
//! pages puts the symbol dictionary in one stream shared by all of them, and each page's
//! own stream then codes nothing but placements. Without that entry such a page decodes
//! to blank paper.
//!
//! **The two conventions are opposite, and inverting is the filter's job.** A JBIG2
//! codestream says 1 for black; a PDF image of one bit per component says 0 for black.

use crate::error::{concat, PdfError, PdfResult};
use crate::filters::{process_filters, result_view, spec_process, FilterContext};
use crate::object::{opt_ref, Arena, Object};
use vstd::prelude::*;

verus! {

/// The `/JBIG2Globals` stream the parameters name, resolved: its dictionary and bytes.
pub open spec fn spec_globals_stream(params: Option<Object>, arena: Arena) -> Option<Object> {
    match params {
        Some(p) => match arena.spec_dict_of(p) {
            Some(d) => match d.spec_get("JBIG2Globals"@) {
                Some(v) => match arena.spec_resolve(v) {
                    Object::Stream(sd, data) => Some(Object::Stream(sd, data)),
                    _ => None,
                },
                None => None,
            },
            None => None,
        },
        None => None,
    }
}

/// The `/JBIG2Globals` stream from the decode parameters, decoded.
///
/// The globals are a stream like any other and are usually `/FlateDecode`d themselves,
/// so they go through the filter pipeline before they are JBIG2 segments. A globals
/// stream that will not decode is treated as absent.
pub fn globals_of(cx: &FilterContext<'_>) -> (r: Option<Vec<u8>>)
    ensures
        match spec_globals_stream(opt_ref(cx.params), *cx.arena) {
            Some(Object::Stream(sd, data)) => match spec_process(data@, sd, *cx.arena, None) {
                Some(Ok(b)) => r matches Some(v) && v@ == b,
                Some(Err(_)) => r is None,
                None => true,
            },
            _ => r is None,
        },
{
    let arena = cx.arena;
    let p = match cx.params {
        Some(p) => p,
        None => return None,
    };
    let d = match arena.dict_of(p) {
        Some(d) => d,
        None => return None,
    };
    let entry = match d.get("JBIG2Globals") {
        Some(e) => e,
        None => return None,
    };
    match arena.resolve(entry) {
        Object::Stream(sd, data) => {
            let r = process_filters(data.as_slice(), sd, arena, None);
            match r {
                Ok(v) => Some(v),
                Err(_) => None,
            }
        },
        _ => None,
    }
}

/// Why a JBIG2 stream was refused, saying whether globals were supplied — "this page
/// decodes to nothing" and "this page's symbol dictionary was somewhere else" look
/// identical without it.
pub open spec fn refusal_message(why: Seq<char>, had_globals: bool) -> Seq<char> {
    why + " ("@ + (if had_globals {
        "with /JBIG2Globals"@
    } else {
        "and no /JBIG2Globals was given"@
    }) + ")"@
}

/// The refusal, naming the filter.
pub fn refuse(why: &str, had_globals: bool) -> (e: PdfError)
    ensures
        e matches PdfError::Filter { filter: f, message: m } && f@ == "JBIG2Decode"@ && m@
            == refusal_message(why@, had_globals),
{
    let globals = if had_globals {
        "with /JBIG2Globals"
    } else {
        "and no /JBIG2Globals was given"
    };
    let m = concat(concat(concat(crate::error::text(why), " ("), globals), ")");
    crate::error::filter_error("JBIG2Decode", m)
}

/// The unit `/JBIG2Decode` is handed to. The codec runs where its callback is
/// implemented; this library finds its globals ([`globals_of`]) and packs its pixels.
pub struct Jbig2Filter;

} // verus!
