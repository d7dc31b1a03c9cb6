//! `/CCITTFaxDecode` (7.4.6, Table 12) — the compression of a scanned page.
//!
//! Group 3 and Group 4 are what a fax machine and a document scanner produce: one bit per
//! pixel, run-length coded along and between scan lines. What this module owns is the
//! *PDF* half: Table 12's parameters, with their defaults. The coding itself is a codec
//! that hands its pixels back through a callback, packed by [`super::bilevel::Bitmap`].

use crate::error::{filter_error, text, PdfError, PdfResult};
use crate::object::{opt_ref, Arena, Object};
use vstd::prelude::*;

verus! {

/// Table 12's default for `/Columns`.
pub const DEFAULT_COLUMNS: u32 = 1728;

/// How the scan lines are coded, which `/K`'s *sign* decides (Table 12).
#[derive(Debug, PartialEq, Eq, Structural)]
pub enum EncodingMode {
    /// Negative: pure two-dimensional Group 4.
    Group4,
    /// Zero: one-dimensional Group 3.
    Group3OneD,
    /// Positive: Group 3 with up to this many two-dimensional lines after each
    /// one-dimensional one.
    Group3TwoD(u32),
}

/// Table 12, read, with every default applied.
pub struct CcittSettings {
    /// `/Columns`: pixels a row.
    pub columns: u32,
    /// `/Rows`, or the image's `/Height` without it; 0 when neither says.
    pub rows: u32,
    /// `/EndOfBlock`, default true: the data may end with a marker before `rows`.
    pub end_of_block: bool,
    /// `/EndOfLine`, default false.
    pub end_of_line: bool,
    /// `/EncodedByteAlign`, default false.
    pub rows_are_byte_aligned: bool,
    /// `/K`, as a coding.
    pub encoding: EncodingMode,
    /// `/BlackIs1`, default false: by default **0 is black**.
    pub invert_black: bool,
}

/// A parameter's value, resolved, when the parameters are a dictionary carrying it.
pub open spec fn spec_param(params: Option<Object>, arena: Arena, key: Seq<char>) -> Option<Object> {
    match params {
        Some(p) => match arena.spec_dict_of(p) {
            Some(d) => match d.spec_get(key) {
                Some(v) => Some(arena.spec_resolve(v)),
                None => None,
            },
            None => None,
        },
        None => None,
    }
}

/// An integer parameter.
pub open spec fn spec_int(params: Option<Object>, arena: Arena, key: Seq<char>) -> Option<i64> {
    match spec_param(params, arena, key) {
        Some(Object::Integer(v)) => Some(v),
        _ => None,
    }
}

/// A boolean parameter, or its default.
pub open spec fn spec_flag(params: Option<Object>, arena: Arena, key: Seq<char>, default: bool) -> bool {
    match spec_param(params, arena, key) {
        Some(Object::Boolean(v)) => v,
        _ => default,
    }
}

/// `/Columns`, defaulted, and kept at the default when it does not fit 32 bits.
pub open spec fn spec_columns(params: Option<Object>, arena: Arena) -> u32 {
    match spec_int(params, arena, "Columns"@) {
        Some(v) => if 0 <= v <= u32::MAX {
            v as u32
        } else {
            DEFAULT_COLUMNS
        },
        None => DEFAULT_COLUMNS,
    }
}

/// `/Rows` when it is a positive 32-bit number, else the image's height, else 0.
pub open spec fn spec_rows(params: Option<Object>, arena: Arena, image_rows: Option<u32>) -> u32 {
    match spec_int(params, arena, "Rows"@) {
        Some(v) => if 0 < v <= u32::MAX {
            v as u32
        } else {
            match image_rows {
                Some(r) => r,
                None => 0,
            }
        },
        None => match image_rows {
            Some(r) => r,
            None => 0,
        },
    }
}

/// `/K` as a coding.
pub open spec fn spec_encoding(params: Option<Object>, arena: Arena) -> EncodingMode {
    let k = match spec_int(params, arena, "K"@) {
        Some(v) => v,
        None => 0,
    };
    if k < 0 {
        EncodingMode::Group4
    } else if k == 0 {
        EncodingMode::Group3OneD
    } else {
        EncodingMode::Group3TwoD(
            if k <= u32::MAX {
                k as u32
            } else {
                1
            },
        )
    }
}

/// A parameter's value, resolved.
fn param<'a>(params: Option<&'a Object>, arena: &'a Arena, key: &str) -> (r: Option<&'a Object>)
    ensures
        opt_ref(r) == spec_param(opt_ref(params), *arena, key@),
{
    match params {
        Some(p) => match arena.dict_of(p) {
            Some(d) => match d.get(key) {
                Some(v) => Some(arena.resolve(v)),
                None => None,
            },
            None => None,
        },
        None => None,
    }
}

fn integer(params: Option<&Object>, arena: &Arena, key: &str) -> (r: Option<i64>)
    ensures
        r == spec_int(opt_ref(params), *arena, key@),
{
    match param(params, arena, key) {
        Some(Object::Integer(v)) => Some(*v),
        _ => None,
    }
}

fn flag(params: Option<&Object>, arena: &Arena, key: &str, default: bool) -> (r: bool)
    ensures
        r == spec_flag(opt_ref(params), *arena, key@, default),
{
    match param(params, arena, key) {
        Some(Object::Boolean(v)) => *v,
        _ => default,
    }
}

/// Reads Table 12 from the decode parameters.
///
/// `image_rows` is the image dictionary's `/Height`, which `/Rows` defaults to when the
/// parameters omit it — a filter that decoded to `/Rows` of zero would return an empty
/// image for most of the files that use it.
pub fn settings(params: Option<&Object>, arena: &Arena, image_rows: Option<u32>) -> (r: PdfResult<
    CcittSettings,
>)
    ensures
        ({
            let p = opt_ref(params);
            if spec_columns(p, *arena) == 0 {
                r matches Err(PdfError::Filter { filter: f, message: m }) && f@ == "CCITTFaxDecode"@
                    && m@ == "/Columns is zero, so the image has no samples"@
            } else {
                r matches Ok(s) && s.columns == spec_columns(p, *arena) && s.rows == spec_rows(
                    p,
                    *arena,
                    image_rows,
                ) && s.end_of_block == spec_flag(p, *arena, "EndOfBlock"@, true) && s.end_of_line
                    == spec_flag(p, *arena, "EndOfLine"@, false) && s.rows_are_byte_aligned
                    == spec_flag(p, *arena, "EncodedByteAlign"@, false) && s.encoding
                    == spec_encoding(p, *arena) && s.invert_black == spec_flag(
                    p,
                    *arena,
                    "BlackIs1"@,
                    false,
                )
            }
        }),
{
    let columns: u32 = match integer(params, arena, "Columns") {
        Some(v) => if 0 <= v && v <= 4294967295 {
            v as u32
        } else {
            DEFAULT_COLUMNS
        },
        None => DEFAULT_COLUMNS,
    };
    let rows: u32 = match integer(params, arena, "Rows") {
        Some(v) => if 0 < v && v <= 4294967295 {
            v as u32
        } else {
            match image_rows {
                Some(r) => r,
                None => 0,
            }
        },
        None => match image_rows {
            Some(r) => r,
            None => 0,
        },
    };
    if columns == 0 {
        return Err(filter_error("CCITTFaxDecode", text("/Columns is zero, so the image has no samples")));
    }
    let k: i64 = match integer(params, arena, "K") {
        Some(v) => v,
        None => 0,
    };
    let encoding = if k < 0 {
        EncodingMode::Group4
    } else if k == 0 {
        EncodingMode::Group3OneD
    } else {
        EncodingMode::Group3TwoD(
            if k <= 4294967295 {
                k as u32
            } else {
                1
            },
        )
    };
    Ok(
        CcittSettings {
            columns,
            rows,
            end_of_block: flag(params, arena, "EndOfBlock", true),
            end_of_line: flag(params, arena, "EndOfLine", false),
            rows_are_byte_aligned: flag(params, arena, "EncodedByteAlign", false),
            encoding,
            invert_black: flag(params, arena, "BlackIs1", false),
        },
    )
}

/// The unit `/CCITTFaxDecode` is handed to. The codec runs where its callback is
/// implemented; this library reads its parameters ([`settings`]) and packs its pixels.
pub struct CcittFilter;

} // verus!
