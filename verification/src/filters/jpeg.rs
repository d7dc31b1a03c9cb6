//! `/DCTDecode` (7.4.8) — a JPEG, in the colour space the image dictionary declares.
//!
//! **A filter returns samples, not a colour.** The output colour space follows the input:
//! grey stays one component, CMYK and YCCK stay four, and everything else becomes RGB —
//! which is what the image dictionary will have said.

use crate::error::{concat, filter_error, text, PdfError, PdfResult};
use crate::filters::FilterContext;
use vstd::prelude::*;

verus! {

/// The colour space a JPEG's header declares, as far as the output layout depends on it.
pub enum JpegSpace {
    /// One component of grey.
    Luma,
    /// Four components of ink.
    Cmyk,
    /// Four components, the first three of them YCbCr.
    Ycck,
    /// Anything else, which decodes to RGB.
    Other,
}

/// The layout a JPEG is decoded into.
#[derive(Debug)]
pub enum JpegOut {
    /// One byte a pixel.
    Luma,
    /// Four bytes a pixel.
    Cmyk,
    /// Three bytes a pixel.
    Rgb,
}

/// What the header of `input` says its colour space is (`None` when it says nothing), or
/// the decoder's account of why the header does not read.
pub uninterp spec fn jpeg_header(input: Seq<u8>) -> Result<Option<JpegSpace>, Seq<char>>;

/// The samples of `input` decoded into `out`, or the decoder's account of why not.
pub uninterp spec fn jpeg_samples(input: Seq<u8>, out: JpegOut) -> Result<Seq<u8>, Seq<char>>;

/// Reads a JPEG's header with `zune_jpeg::JpegDecoder::decode_headers` and
/// `input_colorspace`.
///
/// Trusted: the contract claims only that the outcome is a function of the input, named
/// [`jpeg_header`].
///
/// Not stated, and not ruled out by the source: that the decoder returns on every input.
/// zune-jpeg's README counts a panic on invalid input as a bug to fix once reported, and
/// its header parsing still holds `unwrap` calls; no `requires` can name the inputs that
/// would reach one.
/// `ColorSpace` is `#[non_exhaustive]`, so the spaces that decode to RGB share one arm.
#[verifier::external_body]
fn read_header(input: &[u8]) -> (r: Result<Option<JpegSpace>, String>)
    ensures
        match r {
            Ok(s) => jpeg_header(input@) == Ok::<Option<JpegSpace>, Seq<char>>(s),
            Err(m) => jpeg_header(input@) == Err::<Option<JpegSpace>, Seq<char>>(m@),
        },
{
    let mut decoder = zune_jpeg::JpegDecoder::new(zune_core::bytestream::ZCursor::new(input));
    if let Err(e) = decoder.decode_headers() {
        return Err(format!("{e:?}"));
    }
    Ok(match decoder.input_colorspace() {
        Some(zune_core::colorspace::ColorSpace::Luma) => Some(JpegSpace::Luma),
        Some(zune_core::colorspace::ColorSpace::CMYK) => Some(JpegSpace::Cmyk),
        Some(zune_core::colorspace::ColorSpace::YCCK) => Some(JpegSpace::Ycck),
        Some(_) => Some(JpegSpace::Other),
        None => None,
    })
}

/// Decodes a JPEG into the layout `out` with `zune_jpeg::JpegDecoder::decode`, the output
/// colour space set through `DecoderOptions::jpeg_set_out_colorspace`.
///
/// Trusted: the contract claims only that the outcome is a function of the input and the
/// layout asked for, named [`jpeg_samples`].
///
/// Not stated, and not ruled out by the source: that the decoder returns on every input.
/// zune-jpeg's README counts a panic on invalid input as a bug to fix once reported, and
/// its header parsing still holds `unwrap` calls; no `requires` can name the inputs that
/// would reach one.
#[verifier::external_body]
fn decode_as(input: &[u8], out: JpegOut) -> (r: Result<Vec<u8>, String>)
    ensures
        match r {
            Ok(v) => jpeg_samples(input@, out) == Ok::<Seq<u8>, Seq<char>>(v@),
            Err(m) => jpeg_samples(input@, out) == Err::<Seq<u8>, Seq<char>>(m@),
        },
{
    let space = match out {
        JpegOut::Luma => zune_core::colorspace::ColorSpace::Luma,
        JpegOut::Cmyk => zune_core::colorspace::ColorSpace::CMYK,
        JpegOut::Rgb => zune_core::colorspace::ColorSpace::RGB,
    };
    let options = zune_core::options::DecoderOptions::default().jpeg_set_out_colorspace(space);
    let cursor = zune_core::bytestream::ZCursor::new(input);
    match zune_jpeg::JpegDecoder::new_with_options(cursor, options).decode() {
        Ok(v) => Ok(v),
        Err(e) => Err(format!("{e:?}")),
    }
}

/// The layout a JPEG of this colour space is decoded into.
pub open spec fn spec_out_space(space: Option<JpegSpace>) -> JpegOut {
    match space {
        Some(JpegSpace::Luma) => JpegOut::Luma,
        Some(JpegSpace::Cmyk) => JpegOut::Cmyk,
        Some(JpegSpace::Ycck) => JpegOut::Cmyk,
        _ => JpegOut::Rgb,
    }
}

/// The layout a JPEG of this colour space is decoded into: grey stays grey, CMYK and
/// YCCK stay four components, and everything else becomes RGB.
pub fn out_space(space: &Option<JpegSpace>) -> (r: JpegOut)
    ensures
        r == spec_out_space(*space),
{
    match space {
        Some(JpegSpace::Luma) => JpegOut::Luma,
        Some(JpegSpace::Cmyk) => JpegOut::Cmyk,
        Some(JpegSpace::Ycck) => JpegOut::Cmyk,
        _ => JpegOut::Rgb,
    }
}

/// What `/DCTDecode` answers for `input`: the samples in the layout the header implies,
/// or the refusal naming the step that failed.
pub open spec fn spec_dct(input: Seq<u8>) -> Result<Seq<u8>, Seq<char>> {
    match jpeg_header(input) {
        Err(m) => Err("Failed to read JPEG: "@ + m),
        Ok(space) => match jpeg_samples(input, spec_out_space(space)) {
            Ok(v) => Ok(v),
            Err(m) => Err("Failed to decode JPEG: "@ + m),
        },
    }
}

/// The unit `/DCTDecode` is handed to.
pub struct JpegFilter;

impl JpegFilter {
    /// Decodes a JPEG into the components the image dictionary describes.
    pub fn decode(&self, input: &[u8], _cx: &FilterContext<'_>) -> (r: PdfResult<Vec<u8>>)
        ensures
            match spec_dct(input@) {
                Ok(v) => r matches Ok(out) && out@ == v,
                Err(m) => r matches Err(PdfError::Filter { filter: f, message: msg }) && f@
                    == "DCTDecode"@ && msg@ == m,
            },
    {
        decode_jpeg(input)
    }
}

/// Decodes a JPEG into the components the image dictionary describes (7.4.8).
pub fn decode_jpeg(input: &[u8]) -> (r: PdfResult<Vec<u8>>)
    ensures
        match spec_dct(input@) {
            Ok(v) => r matches Ok(out) && out@ == v,
            Err(m) => r matches Err(PdfError::Filter { filter: f, message: msg }) && f@
                == "DCTDecode"@ && msg@ == m,
        },
{
    let space = match read_header(input) {
        Ok(s) => s,
        Err(m) => {
            return Err(filter_error("DCTDecode", concat(text("Failed to read JPEG: "), m.as_str())));
        },
    };
    let out = out_space(&space);
    match decode_as(input, out) {
        Ok(v) => Ok(v),
        Err(m) => Err(filter_error("DCTDecode", concat(text("Failed to decode JPEG: "), m.as_str()))),
    }
}

} // verus!
