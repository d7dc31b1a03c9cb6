//! `/JPXDecode` (7.4.9) — JPEG 2000, the codec of archived and high-compression scans.
//!
//! **This is the one filter whose output layout is in the data rather than in the image
//! dictionary**, and the standard says so: 7.4.9 makes `/ColorSpace` *optional* for a
//! JPX image. So this module answers two questions rather than one: [`JpxFilter`]
//! decodes, and [`layout`] reads the codestream's header and reports how many components
//! a sample has.
//!
//! `/SMaskInData` defaults to 0 — *ignore any alpha the codestream carries* — and that is
//! what happens here: the colour channels are kept and an alpha channel is dropped.

use crate::error::{concat, decimal, decimal_text, filter_error, PdfError, PdfResult};
use crate::filters::FilterContext;
use vstd::prelude::*;

verus! {

/// How one sample of an image is laid out.
#[derive(Debug, PartialEq, Eq, Clone, Copy, Structural)]
pub enum PixelFormat {
    /// One byte of grey.
    Gray8,
    /// Three bytes: red, green, blue.
    Rgb8,
    /// Four bytes: cyan, magenta, yellow, black.
    Cmyk8,
}

/// How many channels the colour space of the image `input` has, or why it does not
/// parse.
pub uninterp spec fn jpx_channels(input: Seq<u8>) -> Result<u8, Seq<char>>;

/// Parses a JPEG 2000 header with `hayro_jpeg2000::Image::new` and reads
/// `color_space().num_channels()`.
///
/// Trusted: the contract claims only that the outcome is a function of the input, named
/// [`jpx_channels`].
///
/// Not stated, and not ruled out by the source: that the decoder returns on every input.
/// hayro-jpeg2000 parses with `assert`, `unwrap` and `unreachable` on some paths; no
/// `requires` can name the inputs that would reach one.
#[verifier::external_body]
fn read_channels(input: &[u8]) -> (r: Result<u8, String>)
    ensures
        match r {
            Ok(n) => jpx_channels(input@) == Ok::<u8, Seq<char>>(n),
            Err(m) => jpx_channels(input@) == Err::<u8, Seq<char>>(m@),
        },
{
    hayro_jpeg2000::Image::new(input, &hayro_jpeg2000::DecodeSettings::default())
        .map(|image| image.color_space().num_channels())
        .map_err(|e| format!("{e:?}"))
}

/// Decodes a JPEG 2000 image with `hayro_jpeg2000::Image::decode`, answering
/// `data_u8()` and `components().len()`.
///
/// Trusted, with nothing claimed of the outcome: the decoder's wavelet and colour
/// transforms run in `f32` on whichever SIMD path the running machine offers, so the
/// rounded samples of one input may differ from one machine to the next. What is done
/// with the samples is [`colour_samples`], which takes them as its argument.
///
/// Not stated, and not ruled out by the source: that the decoder returns on every input.
/// hayro-jpeg2000 parses with `assert`, `unwrap` and `unreachable` on some paths; no
/// `requires` can name the inputs that would reach one.
#[verifier::external_body]
fn read_samples(input: &[u8]) -> (r: Result<(Vec<u8>, usize), String>)
{
    let image = hayro_jpeg2000::Image::new(input, &hayro_jpeg2000::DecodeSettings::default())
        .map_err(|e| format!("{e:?}"))?;
    let mut context = hayro_jpeg2000::DecoderContext::default();
    let decoded = image.decode(&mut context).map_err(|e| format!("{e:?}"))?;
    Ok((decoded.data_u8(), decoded.components().len()))
}

/// The layout PDF describes for a colour space of `channels` channels.
pub open spec fn spec_format_of(channels: u8) -> Option<PixelFormat> {
    if channels == 1 {
        Some(PixelFormat::Gray8)
    } else if channels == 3 {
        Some(PixelFormat::Rgb8)
    } else if channels == 4 {
        Some(PixelFormat::Cmyk8)
    } else {
        None
    }
}

/// How many bytes a sample of this layout has.
pub open spec fn width_of(f: PixelFormat) -> nat {
    match f {
        PixelFormat::Gray8 => 1,
        PixelFormat::Rgb8 => 3,
        PixelFormat::Cmyk8 => 4,
    }
}

/// The layout PDF describes for a JPEG 2000 colour space of `channels` channels.
///
/// An ICC-based or unknown space is taken by its *channel count*, because that is what
/// decides how the samples are read — the same reasoning `[/ICCBased …]` gets in an image
/// dictionary, where `/N` answers and the family name does not.
pub fn format_of(channels: u8) -> (r: Option<PixelFormat>)
    ensures
        r == spec_format_of(channels),
{
    if channels == 1 {
        Some(PixelFormat::Gray8)
    } else if channels == 3 {
        Some(PixelFormat::Rgb8)
    } else if channels == 4 {
        Some(PixelFormat::Cmyk8)
    } else {
        None
    }
}

/// The first `colours` bytes of each whole pixel of `comps` bytes; a trailing partial
/// pixel is dropped.
pub open spec fn keep_colours(data: Seq<u8>, comps: int, colours: int) -> Seq<u8>
    decreases data.len(),
{
    if comps <= 0 || data.len() < comps {
        Seq::<u8>::empty()
    } else {
        data.take(colours) + keep_colours(data.skip(comps), comps, colours)
    }
}

/// Keeps the colour channels of interleaved samples and drops the rest.
pub fn drop_alpha(data: &Vec<u8>, comps: usize, colours: usize) -> (out: Vec<u8>)
    requires
        0 < colours <= comps,
    ensures
        out@ == keep_colours(data@, comps as int, colours as int),
{
    let mut out: Vec<u8> = Vec::new();
    let mut src: usize = 0;
    assert(data@.skip(0) =~= data@);
    while comps <= data.len() - src
        invariant
            0 < colours <= comps,
            src <= data@.len(),
            keep_colours(data@, comps as int, colours as int) == out@ + keep_colours(
                data@.skip(src as int),
                comps as int,
                colours as int,
            ),
        decreases data@.len() - src,
    {
        let ghost rest = data@.skip(src as int);
        let ghost before = out@;
        let mut c: usize = 0;
        while c < colours
            invariant
                c <= colours <= comps,
                src + comps <= data.len(),
                out@ == before + data@.subrange(src as int, src + c),
            decreases colours - c,
        {
            out.push(data[src + c]);
            assert(data@.subrange(src as int, src + c + 1) =~= data@.subrange(src as int, src + c).push(
                data@[src + c],
            ));
            c = c + 1;
        }
        assert(rest.take(colours as int) =~= data@.subrange(src as int, src + colours));
        assert(rest.skip(comps as int) =~= data@.skip(src + comps));
        src = src + comps;
    }
    out
}

/// The layout `/JPXDecode` answers for `input`, read from its header, or why there is
/// none.
pub open spec fn spec_jpx_layout(input: Seq<u8>) -> Result<PixelFormat, Seq<char>> {
    match jpx_channels(input) {
        Err(m) => Err(m),
        Ok(n) => match spec_format_of(n) {
            None => Err(decimal(n as nat) + " components is not a layout PDF describes"@),
            Some(f) => Ok(f),
        },
    }
}

/// The colour samples of decoded data of `comps` components per pixel, in `layout`: the
/// data itself, or, where it has more components than the layout, the layout's channels
/// of each pixel.
pub open spec fn spec_colour_samples(data: Seq<u8>, comps: nat, layout: PixelFormat) -> Seq<u8> {
    if comps > width_of(layout) {
        keep_colours(data, comps as int, width_of(layout) as int)
    } else {
        data
    }
}

/// The colour samples of data the decoder gave with `comps` components per pixel, for
/// an image of `layout`.
pub fn colour_samples(data: Vec<u8>, comps: usize, layout: PixelFormat) -> (out: Vec<u8>)
    ensures
        out@ == spec_colour_samples(data@, comps as nat, layout),
{
    let colours: usize = match layout {
        PixelFormat::Gray8 => 1,
        PixelFormat::Rgb8 => 3,
        PixelFormat::Cmyk8 => 4,
    };
    if comps > colours {
        drop_alpha(&data, comps, colours)
    } else {
        data
    }
}

/// Whether `r` is something `/JPXDecode` may answer for an image of `layout`: samples in
/// that layout, or a refusal by the decoder.
pub open spec fn jpx_answer(r: PdfResult<(Vec<u8>, PixelFormat)>, layout: PixelFormat) -> bool {
    match r {
        Ok((_, g)) => g == layout,
        Err(e) => e matches PdfError::Filter { filter: fname, message: _ } && fname@ == "JPXDecode"@,
    }
}

/// Decodes a JPEG 2000 image, returning its samples and the layout they are in. The
/// layout, or the refusal, follows from the header; the samples are what
/// [`colour_samples`] makes of the decoder's output.
pub fn decode(input: &[u8]) -> (r: PdfResult<(Vec<u8>, PixelFormat)>)
    ensures
        match spec_jpx_layout(input@) {
            Ok(f) => jpx_answer(r, f),
            Err(m) => r matches Err(PdfError::Filter { filter: fname, message: msg }) && fname@
                == "JPXDecode"@ && msg@ == m,
        },
{
    let n = match read_channels(input) {
        Ok(n) => n,
        Err(m) => {
            return Err(filter_error("JPXDecode", m));
        },
    };
    let format = match format_of(n) {
        Some(f) => f,
        None => {
            let m = concat(decimal_text(n as u64), " components is not a layout PDF describes");
            return Err(filter_error("JPXDecode", m));
        },
    };
    let (data, comps) = match read_samples(input) {
        Ok(x) => x,
        Err(m) => {
            return Err(filter_error("JPXDecode", m));
        },
    };
    Ok((colour_samples(data, comps, format), format))
}

/// How many components a sample of this codestream has, without decoding it.
pub fn layout(input: &[u8]) -> (r: Option<PixelFormat>)
    ensures
        r == match jpx_channels(input@) {
            Ok(n) => spec_format_of(n),
            Err(_) => None,
        },
{
    match read_channels(input) {
        Ok(n) => format_of(n),
        Err(_) => None,
    }
}

/// The unit `/JPXDecode` is handed to.
pub struct JpxFilter;

impl JpxFilter {
    /// Decodes, keeping the samples and not the layout.
    pub fn decode(&self, input: &[u8], _cx: &FilterContext<'_>) -> (r: PdfResult<Vec<u8>>)
        ensures
            match spec_jpx_layout(input@) {
                Ok(_f) => r is Ok || (r matches Err(PdfError::Filter { filter: fname, message: _ }) && fname@
                    == "JPXDecode"@),
                Err(m) => r matches Err(PdfError::Filter { filter: fname, message: msg }) && fname@
                    == "JPXDecode"@ && msg@ == m,
            },
    {
        match decode(input) {
            Ok((samples, _)) => Ok(samples),
            Err(e) => Err(e),
        }
    }
}

} // verus!
