//! `FlateDecode` (7.4.4): zlib-wrapped deflate, the filter nearly every stream uses.

use crate::error::{concat, filter_error, text, PdfError, PdfResult};
use crate::filters::lzw::MAX_DECOMPRESSED_SIZE;
use crate::filters::predictor::unpredict;
use crate::filters::{filter_result_matches, flate_outcome, then_unpredict, FilterContext};
use crate::object::opt_ref;
use vstd::prelude::*;

verus! {

/// What zlib inflation gives for `input`, producing at most `limit` bytes: the bytes, or
/// the inflater's account of why it stopped.
pub uninterp spec fn inflate_zlib(input: Seq<u8>, limit: nat) -> Result<Seq<u8>, Seq<char>>;

/// Inflates a zlib stream with `miniz_oxide::inflate::decompress_to_vec_zlib_with_limit`,
/// the inflater that `flate2` runs on by default.
///
/// Trusted: the contract claims only that the outcome is a function of the input and the
/// limit, which is named [`inflate_zlib`]; what deflate decodes to is not stated here.
#[verifier::external_body]
fn inflate(input: &[u8], limit: usize) -> (r: Result<Vec<u8>, String>)
    ensures
        match r {
            Ok(v) => inflate_zlib(input@, limit as nat) == Ok::<Seq<u8>, Seq<char>>(v@),
            Err(m) => inflate_zlib(input@, limit as nat) == Err::<Seq<u8>, Seq<char>>(m@),
        },
{
    miniz_oxide::inflate::decompress_to_vec_zlib_with_limit(input, limit).map_err(|e| format!("{e}"))
}

/// What `FlateDecode` answers for `input` without predictors.
pub open spec fn flate_matches(input: Seq<u8>, r: PdfResult<Vec<u8>>) -> bool {
    match inflate_zlib(input, MAX_DECOMPRESSED_SIZE as nat) {
        Ok(bytes) => r matches Ok(out) && out@ == bytes,
        Err(m) => r matches Err(PdfError::Filter { filter: f, message: msg }) && f@
            == "FlateDecode"@ && msg@ == "Failed to inflate: "@ + m,
    }
}

/// The `FlateDecode` stream filter.
pub struct FlateFilter;

impl FlateFilter {
    /// Inflates the stream, up to the same ceiling as `LZWDecode`, then undoes the
    /// predictor the parameters name.
    pub fn decode(&self, input: &[u8], cx: &FilterContext<'_>) -> (r: PdfResult<Vec<u8>>)
        ensures
            filter_result_matches(
                r,
                then_unpredict("FlateDecode"@, flate_outcome(input@), opt_ref(cx.params), *cx.arena),
            ),
    {
        match decode_flate(input) {
            Ok(bytes) => match unpredict(bytes, cx.params, cx.arena) {
                Ok(v) => Ok(v),
                Err(m) => Err(filter_error("FlateDecode", m)),
            },
            Err(e) => Err(e),
        }
    }
}

/// The whole of `FlateDecode`, without predictors.
pub fn decode_flate(input: &[u8]) -> (r: PdfResult<Vec<u8>>)
    ensures
        flate_matches(input@, r),
{
    match inflate(input, MAX_DECOMPRESSED_SIZE) {
        Ok(v) => Ok(v),
        Err(m) => Err(filter_error("FlateDecode", concat(text("Failed to inflate: "), m.as_str()))),
    }
}

} // verus!
