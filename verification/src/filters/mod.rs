//! PDF stream decoding filters (ISO 32000-2:2020 clause 7.4).

use crate::error::{concat, text, PdfError, PdfResult};
use crate::filters::ascii::{bad_byte_message, lone_digit_message, spec_a85_decode, spec_hex_decode};
use crate::filters::flate::inflate_zlib;
use crate::filters::jpeg::spec_dct;
use crate::filters::jpx::spec_jpx_layout;
use crate::filters::lzw::{
    bad_code_message, spec_early_change, spec_lzw_decode, too_large_message, MAX_DECOMPRESSED_SIZE,
};
use crate::filters::predictor::spec_unpredict;
use crate::filters::runlength::spec_rl_decode;
use crate::object::{opt_ref, str_eq, Arena, Dict, Object};
use vstd::prelude::*;

pub mod ascii;
pub mod bilevel;
pub mod ccitt;
pub mod flate;
pub mod jbig2;
pub mod jpeg;
pub mod jpx;
pub mod lzw;
pub mod predictor;
pub mod runlength;

verus! {

/// What a filter is given besides its bytes.
///
/// `CCITTFaxDecode` is why this is more than the parameters: `/Rows` defaults to the
/// *image dictionary's* `/Height` (Table 12), which is a fact about the object the stream
/// belongs to rather than about the filter.
pub struct FilterContext<'a> {
    /// The stream's `/DecodeParms`, already resolved.
    pub params: Option<&'a Object>,
    /// The arena the stream lives in, for resolving what the parameters point at.
    pub arena: &'a Arena,
    /// The image dictionary's `/Height`, when the stream is an image's.
    pub image_rows: Option<u32>,
}

impl<'a> FilterContext<'a> {
    /// A context for a stream that is not an image's.
    pub fn new(params: Option<&'a Object>, arena: &'a Arena) -> (cx: Self)
        ensures
            cx.params == params,
            cx.arena == arena,
            cx.image_rows.is_none(),
    {
        FilterContext { params, arena, image_rows: None }
    }

    /// The same context, told how tall the image is.
    pub fn in_image(self, rows: Option<u32>) -> (cx: Self)
        ensures
            cx.params == self.params,
            cx.arena == self.arena,
            cx.image_rows == rows,
    {
        FilterContext { params: self.params, arena: self.arena, image_rows: rows }
    }
}

/// An integer `/DecodeParms` entry, when the parameters are a dictionary that carries it.
pub open spec fn spec_param_int(params: Option<Object>, arena: Arena, key: Seq<char>) -> Option<i64> {
    match params {
        Some(p) => match arena.spec_dict_of(p) {
            Some(d) => match d.spec_get(key) {
                Some(v) => arena.spec_integer_of(v),
                None => None,
            },
            None => None,
        },
        None => None,
    }
}

/// The filters this engine has a unit for (Table 6).
#[derive(Debug, PartialEq, Eq, Structural)]
pub enum FilterKind {
    /// `/FlateDecode`, `/Fl`.
    Flate,
    /// `/LZWDecode`, `/LZW`.
    Lzw,
    /// `/ASCIIHexDecode`, `/AHx`.
    AsciiHex,
    /// `/ASCII85Decode`, `/A85`.
    Ascii85,
    /// `/RunLengthDecode`, `/RL`.
    RunLength,
    /// `/DCTDecode`, `/DCT`.
    Dct,
    /// `/CCITTFaxDecode`, `/CCF`.
    Ccitt,
    /// `/JBIG2Decode`.
    Jbig2,
    /// `/JPXDecode`.
    Jpx,
}

/// The unit a filter name is handed to: Table 6's names and the abbreviations 7.8.6
/// gives them for inline images.
pub open spec fn spec_filter_for(name: Seq<char>) -> Option<FilterKind> {
    if name == "FlateDecode"@ || name == "Fl"@ {
        Some(FilterKind::Flate)
    } else if name == "LZWDecode"@ || name == "LZW"@ {
        Some(FilterKind::Lzw)
    } else if name == "ASCIIHexDecode"@ || name == "AHx"@ {
        Some(FilterKind::AsciiHex)
    } else if name == "ASCII85Decode"@ || name == "A85"@ {
        Some(FilterKind::Ascii85)
    } else if name == "RunLengthDecode"@ || name == "RL"@ {
        Some(FilterKind::RunLength)
    } else if name == "DCTDecode"@ || name == "DCT"@ {
        Some(FilterKind::Dct)
    } else if name == "CCITTFaxDecode"@ || name == "CCF"@ {
        Some(FilterKind::Ccitt)
    } else if name == "JBIG2Decode"@ {
        Some(FilterKind::Jbig2)
    } else if name == "JPXDecode"@ {
        Some(FilterKind::Jpx)
    } else {
        None
    }
}

/// The unit that decodes `filter_name`, or `None` when this engine has no decoder for it.
///
/// **The one list**: [`is_decoded`] and the dispatch in [`decode_with`] both derive from
/// it, so the census and the decoder cannot disagree.
pub fn filter_for(filter_name: &str) -> (r: Option<FilterKind>)
    ensures
        r == spec_filter_for(filter_name@),
{
    if str_eq(filter_name, "FlateDecode") || str_eq(filter_name, "Fl") {
        Some(FilterKind::Flate)
    } else if str_eq(filter_name, "LZWDecode") || str_eq(filter_name, "LZW") {
        Some(FilterKind::Lzw)
    } else if str_eq(filter_name, "ASCIIHexDecode") || str_eq(filter_name, "AHx") {
        Some(FilterKind::AsciiHex)
    } else if str_eq(filter_name, "ASCII85Decode") || str_eq(filter_name, "A85") {
        Some(FilterKind::Ascii85)
    } else if str_eq(filter_name, "RunLengthDecode") || str_eq(filter_name, "RL") {
        Some(FilterKind::RunLength)
    } else if str_eq(filter_name, "DCTDecode") || str_eq(filter_name, "DCT") {
        Some(FilterKind::Dct)
    } else if str_eq(filter_name, "CCITTFaxDecode") || str_eq(filter_name, "CCF") {
        Some(FilterKind::Ccitt)
    } else if str_eq(filter_name, "JBIG2Decode") {
        Some(FilterKind::Jbig2)
    } else if str_eq(filter_name, "JPXDecode") {
        Some(FilterKind::Jpx)
    } else {
        None
    }
}

/// Whether this engine decodes a filter of this name.
pub fn is_decoded(filter_name: &str) -> (r: bool)
    ensures
        r == spec_filter_for(filter_name@).is_some(),
{
    filter_for(filter_name).is_some()
}

/// A decoding outcome as values: the bytes, or the filter's name and the reason.
pub open spec fn result_view(r: PdfResult<Vec<u8>>) -> Result<Seq<u8>, (Seq<char>, Seq<char>)> {
    match r {
        Ok(v) => Ok(v@),
        Err(PdfError::Filter { filter, message }) => Err((filter@, message@)),
        Err(PdfError::Other(m)) => Err((Seq::<char>::empty(), m@)),
        Err(PdfError::Parse { pos: _, message }) => Err((Seq::<char>::empty(), message@)),
        Err(PdfError::Arena(m)) => Err((Seq::<char>::empty(), m@)),
    }
}

/// Why the two bilevel codecs are not decoded inside this library: they hand their
/// pixels back through a callback, and the callback is an implementation of the codec's
/// own trait, which lives with the code that calls the codec.
pub open spec fn bilevel_elsewhere_message() -> Seq<char> {
    "is decoded by the bilevel codec of the caller, not by this library"@
}

/// A decoding outcome as values, as far as this library fixes it: `None` where it rests
/// on the JPEG 2000 decoder's floating-point arithmetic, which the running machine
/// chooses.
pub open spec fn agrees(r: Result<Seq<u8>, (Seq<char>, Seq<char>)>, spec: Option<Result<Seq<u8>, (Seq<char>, Seq<char>)>>) -> bool {
    match spec {
        Some(x) => r == x,
        None => true,
    }
}

/// Whether `r` is exactly the outcome `spec`: the bytes, or a filter error with that
/// filter's name and reason.
pub open spec fn filter_result_matches(r: PdfResult<Vec<u8>>, spec: Result<Seq<u8>, (Seq<char>, Seq<char>)>) -> bool {
    match spec {
        Ok(b) => r matches Ok(v) && v@ == b,
        Err((f, m)) => r matches Err(PdfError::Filter { filter, message }) && filter@ == f && message@ == m,
    }
}

/// A decompressed outcome with the parameters' predictor (Table 8) undone; a predictor
/// that cannot be undone is refused under the filter's name `name`.
pub open spec fn then_unpredict(
    name: Seq<char>,
    decoded: Result<Seq<u8>, (Seq<char>, Seq<char>)>,
    params: Option<Object>,
    arena: Arena,
) -> Result<Seq<u8>, (Seq<char>, Seq<char>)> {
    match decoded {
        Ok(b) => match spec_unpredict(b, params, arena) {
            Ok(p) => Ok(p),
            Err(m) => Err((name, m)),
        },
        Err(e) => Err(e),
    }
}

/// What `/LZWDecode` decompresses `input` to, before any predictor.
pub open spec fn lzw_outcome(input: Seq<u8>, early_change: int) -> Result<Seq<u8>, (Seq<char>, Seq<char>)> {
    match spec_lzw_decode(input, early_change) {
        Ok(b) => Ok(b),
        Err(Some(code)) => Err(("LZWDecode"@, bad_code_message(code))),
        Err(None) => Err(("LZWDecode"@, too_large_message())),
    }
}

/// What `/FlateDecode` inflates `input` to, before any predictor.
pub open spec fn flate_outcome(input: Seq<u8>) -> Result<Seq<u8>, (Seq<char>, Seq<char>)> {
    match inflate_zlib(input, MAX_DECOMPRESSED_SIZE as nat) {
        Ok(b) => Ok(b),
        Err(m) => Err(("FlateDecode"@, "Failed to inflate: "@ + m)),
    }
}

/// What the unit for `kind` makes of `input`.
#[verifier::opaque]
pub open spec fn spec_kind_decode(
    kind: FilterKind,
    input: Seq<u8>,
    params: Option<Object>,
    arena: Arena,
) -> Option<Result<Seq<u8>, (Seq<char>, Seq<char>)>> {
    match kind {
        FilterKind::AsciiHex => Some(match spec_hex_decode(input) {
            Ok(b) => Ok(b),
            Err(b) => Err(
                ("ASCIIHexDecode"@, bad_byte_message(b, "' is not a hexadecimal digit"@)),
            ),
        }),
        FilterKind::Ascii85 => Some(match spec_a85_decode(input) {
            Ok(b) => Ok(b),
            Err(Some(b)) => Err(
                ("ASCII85Decode"@, bad_byte_message(b, "' is outside the base-85 alphabet"@)),
            ),
            Err(None) => Err(("ASCII85Decode"@, lone_digit_message())),
        }),
        FilterKind::RunLength => Some(Ok(spec_rl_decode(input))),
        FilterKind::Lzw => Some(
            then_unpredict(
                "LZWDecode"@,
                lzw_outcome(input, spec_early_change(spec_param_int(params, arena, "EarlyChange"@)) as int),
                params,
                arena,
            ),
        ),
        FilterKind::Flate => Some(then_unpredict("FlateDecode"@, flate_outcome(input), params, arena)),
        FilterKind::Dct => Some(match spec_dct(input) {
            Ok(b) => Ok(b),
            Err(m) => Err(("DCTDecode"@, m)),
        }),
        FilterKind::Jpx => match spec_jpx_layout(input) {
            Ok(_) => None,
            Err(m) => Some(Err(("JPXDecode"@, m))),
        },
        FilterKind::Ccitt => Some(Err(("CCITTFaxDecode"@, bilevel_elsewhere_message()))),
        FilterKind::Jbig2 => Some(Err(("JBIG2Decode"@, bilevel_elsewhere_message()))),
    }
}

/// What decoding one filter of this name gives.
pub open spec fn spec_decode_with(
    name: Seq<char>,
    input: Seq<u8>,
    params: Option<Object>,
    arena: Arena,
) -> Option<Result<Seq<u8>, (Seq<char>, Seq<char>)>> {
    match spec_filter_for(name) {
        None => Some(Err((name, "Unsupported filter: "@ + name))),
        Some(kind) => spec_kind_decode(kind, input, params, arena),
    }
}

/// Decodes one filter in the context the stream sits in.
///
/// The whole dispatch: a name becomes a unit, and the unit decodes. A name no unit
/// answers to is refused *by that name* — not "this engine cannot decode that" but
/// "this engine has not heard of that".
pub fn decode_with(filter_name: &str, input: &[u8], cx: &FilterContext<'_>) -> (r: PdfResult<
    Vec<u8>,
>)
    ensures
        agrees(result_view(r), spec_decode_with(filter_name@, input@, opt_ref(cx.params), *cx.arena)),
        spec_filter_for(filter_name@) is None ==> (r matches Err(PdfError::Filter { filter, message })
            && filter@ == filter_name@ && message@ == "Unsupported filter: "@ + filter_name@),
        spec_filter_for(filter_name@) == Some(FilterKind::Jpx) ==> r is Ok || (r matches Err(
            PdfError::Filter { filter, message: _ },
        ) && filter@ == "JPXDecode"@),
{
    proof {
        reveal(spec_kind_decode);
    }
    match filter_for(filter_name) {
        None => Err(
            PdfError::Filter {
                filter: text(filter_name),
                message: concat(text("Unsupported filter: "), filter_name),
            },
        ),
        Some(FilterKind::AsciiHex) => ascii::AsciiHexFilter.decode(input, cx),
        Some(FilterKind::Ascii85) => ascii::Ascii85Filter.decode(input, cx),
        Some(FilterKind::RunLength) => runlength::RunLengthFilter.decode(input, cx),
        Some(FilterKind::Lzw) => lzw::LzwFilter.decode(input, cx),
        Some(FilterKind::Flate) => flate::FlateFilter.decode(input, cx),
        Some(FilterKind::Dct) => jpeg::JpegFilter.decode(input, cx),
        Some(FilterKind::Jpx) => jpx::JpxFilter.decode(input, cx),
        Some(FilterKind::Ccitt) => Err(
            PdfError::Filter {
                filter: text("CCITTFaxDecode"),
                message: text("is decoded by the bilevel codec of the caller, not by this library"),
            },
        ),
        Some(FilterKind::Jbig2) => Err(
            PdfError::Filter {
                filter: text("JBIG2Decode"),
                message: text("is decoded by the bilevel codec of the caller, not by this library"),
            },
        ),
    }
}

/// Decodes one filter, for a stream that is not an image's.
pub fn decode_stream(
    filter_name: &str,
    input: &[u8],
    params: Option<&Object>,
    arena: &Arena,
) -> (r: PdfResult<Vec<u8>>)
    ensures
        agrees(result_view(r), spec_decode_with(filter_name@, input@, opt_ref(params), *arena)),
        spec_filter_for(filter_name@) is None ==> (r matches Err(PdfError::Filter { filter, message })
            && filter@ == filter_name@ && message@ == "Unsupported filter: "@ + filter_name@),
{
    decode_with(filter_name, input, &FilterContext::new(params, arena))
}

/// The resolved `/DecodeParms` of a stream dictionary.
pub open spec fn spec_params_of(dict: Dict, arena: Arena) -> Option<Object> {
    match dict.spec_get("DecodeParms"@) {
        Some(p) => Some(arena.spec_resolve(p)),
        None => None,
    }
}

/// The `/DecodeParms` array of a stream filtered more than once.
pub open spec fn spec_params_array(dict: Dict, arena: Arena) -> Option<Seq<Object>> {
    match dict.spec_get("DecodeParms"@) {
        Some(p) => match arena.spec_resolve(p) {
            Object::Array(a) => Some(a@),
            _ => None,
        },
        None => None,
    }
}

/// The parameters at index `i`, when there is an array with that many.
pub open spec fn param_at(parr: Option<Seq<Object>>, i: int) -> Option<Object> {
    match parr {
        Some(a) => if 0 <= i < a.len() {
            Some(a[i])
        } else {
            None
        },
        None => None,
    }
}

/// Each filter of a chain in turn from the `i`th (7.4.1), with the parameters at the same
/// index; an element that is not a name is passed over.
pub open spec fn spec_chain(
    filters: Seq<Object>,
    i: int,
    data: Seq<u8>,
    parr: Option<Seq<Object>>,
    arena: Arena,
) -> Option<Result<Seq<u8>, (Seq<char>, Seq<char>)>>
    decreases filters.len() - i,
{
    if i < 0 || i >= filters.len() {
        Some(Ok(data))
    } else {
        match arena.spec_resolve(filters[i]) {
            Object::Name(n) => match spec_decode_with(n@, data, param_at(parr, i), arena) {
                Some(Ok(next)) => spec_chain(filters, i + 1, next, parr, arena),
                Some(Err(e)) => Some(Err(e)),
                None => None,
            },
            _ => spec_chain(filters, i + 1, data, parr, arena),
        }
    }
}

/// What a stream's `/Filter` makes of its bytes: one filter, a chain, or none.
pub open spec fn spec_process(data: Seq<u8>, dict: Dict, arena: Arena, rows: Option<u32>) -> Option<
    Result<Seq<u8>, (Seq<char>, Seq<char>)>,
> {
    match dict.spec_get("Filter"@) {
        None => Some(Ok(data)),
        Some(f) => match arena.spec_resolve(f) {
            Object::Name(n) => spec_decode_with(n@, data, spec_params_of(dict, arena), arena),
            Object::Array(a) => spec_chain(a@, 0, data, spec_params_array(dict, arena), arena),
            _ => Some(Ok(data)),
        },
    }
}

/// A copy of a byte slice.
pub fn to_vec(data: &[u8]) -> (r: Vec<u8>)
    ensures
        r@ == data@,
{
    let mut out: Vec<u8> = Vec::new();
    let mut i: usize = 0;
    while i < data.len()
        invariant
            i <= data@.len(),
            out@ == data@.subrange(0, i as int),
        decreases data@.len() - i,
    {
        out.push(data[i]);
        assert(data@.subrange(0, i + 1) =~= data@.subrange(0, i as int).push(data@[i as int]));
        i = i + 1;
    }
    assert(data@.subrange(0, data@.len() as int) =~= data@);
    out
}

/// Orchestrates multi-filter decoding for a stream dictionary.
pub fn process_filters(data: &[u8], dict: &Dict, arena: &Arena, rows: Option<u32>) -> (r: PdfResult<
    Vec<u8>,
>)
    ensures
        agrees(result_view(r), spec_process(data@, *dict, *arena, rows)),
{
    match dict.get("Filter") {
        None => Ok(to_vec(data)),
        Some(f) => match arena.resolve(f) {
            Object::Name(n) => {
                let params = match dict.get("DecodeParms") {
                    Some(p) => Some(arena.resolve(p)),
                    None => None,
                };
                let cx = FilterContext::new(params, arena).in_image(rows);
                decode_with(n.as_str(), data, &cx)
            },
            Object::Array(a) => decode_filter_chain(data, a, dict, arena, rows),
            _ => Ok(to_vec(data)),
        },
    }
}

/// A stream filtered more than once (7.4.1): each filter in turn, with the parameters at
/// the same index of `/DecodeParms`.
fn decode_filter_chain(
    data: &[u8],
    filters: &Vec<Object>,
    dict: &Dict,
    arena: &Arena,
    rows: Option<u32>,
) -> (r: PdfResult<Vec<u8>>)
    ensures
        agrees(result_view(r), spec_chain(filters@, 0, data@, spec_params_array(*dict, *arena), *arena)),
{
    let params_arr: Option<&Vec<Object>> = match dict.get("DecodeParms") {
        Some(p) => match arena.resolve(p) {
            Object::Array(a) => Some(a),
            _ => None,
        },
        None => None,
    };
    let ghost parr = spec_params_array(*dict, *arena);
    assert(parr == match params_arr {
        Some(a) => Some(a@),
        None => None::<Seq<Object>>,
    });
    let mut current = to_vec(data);
    let mut i: usize = 0;
    while i < filters.len()
        invariant
            i <= filters@.len(),
            parr == spec_params_array(*dict, *arena),
            parr == match params_arr {
                Some(a) => Some(a@),
                None => None::<Seq<Object>>,
            },
            spec_chain(filters@, 0, data@, parr, *arena) is Some ==> spec_chain(filters@, 0, data@, parr, *arena)
                == spec_chain(filters@, i as int, current@, parr, *arena),
        decreases filters@.len() - i,
    {
        match arena.resolve(&filters[i]) {
            Object::Name(name) => {
                let p: Option<&Object> = match params_arr {
                    Some(a) => if i < a.len() {
                        Some(&a[i])
                    } else {
                        None
                    },
                    None => None,
                };
                assert(opt_ref(p) == param_at(parr, i as int));
                let cx = FilterContext::new(p, arena).in_image(rows);
                match decode_with(name.as_str(), current.as_slice(), &cx) {
                    Ok(next) => {
                        current = next;
                    },
                    Err(e) => {
                        assert(agrees(result_view(Err(e)), spec_chain(filters@, i as int, current@, parr, *arena)));
                        return Err(e);
                    },
                }
            },
            _ => {},
        }
        i = i + 1;
    }
    Ok(current)
}

/// The image's `/Height`, which only `/CCITTFaxDecode` reads and only without its own.
pub open spec fn spec_image_rows(dict: Dict, arena: Arena) -> Option<u32> {
    match dict.spec_get("Height"@) {
        Some(h) => match arena.spec_integer_of(h) {
            Some(v) => if 0 <= v <= u32::MAX {
                Some(v as u32)
            } else {
                None
            },
            None => None,
        },
        None => None,
    }
}

/// The image's `/Height`.
pub fn image_rows(dict: &Dict, arena: &Arena) -> (r: Option<u32>)
    ensures
        r == spec_image_rows(*dict, *arena),
{
    match dict.get("Height") {
        Some(h) => match arena.integer_of(h) {
            Some(v) => if 0 <= v && v <= 4294967295 {
                Some(v as u32)
            } else {
                None
            },
            None => None,
        },
        None => None,
    }
}

/// What `/SMaskInData` (8.9.5.2, Table 89) says about a `/JPXDecode` image's fourth
/// channel.
#[derive(PartialEq, Eq, Structural)]
pub enum SoftMaskInData {
    /// 0, the default: whatever alpha the data carries is not part of the image.
    Ignored,
    /// 1: the data carries a soft mask, and the colour is not premultiplied by it.
    Present,
    /// 2: the data carries a soft mask, and the colour **is** premultiplied by it.
    Premultiplied,
}

impl SoftMaskInData {
    /// Whether the image claims to carry its own mask.
    pub fn expects_a_mask(&self) -> (r: bool)
        ensures
            r == !(*self is Ignored),
    {
        match self {
            SoftMaskInData::Ignored => false,
            _ => true,
        }
    }
}

/// What `/SMaskInData` reads as: Table 89's three values, or the value the file wrote
/// when it is none of them.
pub open spec fn spec_soft_mask_in_data(dict: Dict, arena: Arena) -> Result<SoftMaskInData, i64> {
    match dict.spec_get("SMaskInData"@) {
        None => Ok(SoftMaskInData::Ignored),
        Some(e) => match arena.spec_integer_of(e) {
            None => Ok(SoftMaskInData::Ignored),
            Some(0) => Ok(SoftMaskInData::Ignored),
            Some(1) => Ok(SoftMaskInData::Present),
            Some(2) => Ok(SoftMaskInData::Premultiplied),
            Some(other) => Err(other),
        },
    }
}

/// Reads `/SMaskInData` from an image dictionary.
///
/// A value that is not one of Table 89's three comes back as the error, for the caller to
/// record: reading a `3` as the default is a choice about non-conforming input rather than
/// a fact about the file.
pub fn soft_mask_in_data(dict: &Dict, arena: &Arena) -> (r: Result<SoftMaskInData, i64>)
    ensures
        r == spec_soft_mask_in_data(*dict, *arena),
{
    match dict.get("SMaskInData") {
        None => Ok(SoftMaskInData::Ignored),
        Some(e) => match arena.integer_of(e) {
            None => Ok(SoftMaskInData::Ignored),
            Some(0) => Ok(SoftMaskInData::Ignored),
            Some(1) => Ok(SoftMaskInData::Present),
            Some(2) => Ok(SoftMaskInData::Premultiplied),
            Some(other) => Err(other),
        },
    }
}


/// Whether a stream's `/Filter` names `/JPXDecode`, alone or in a chain.
pub open spec fn names_jpx(dict: Dict, arena: Arena) -> bool {
    match dict.spec_get("Filter"@) {
        Some(f) => match arena.spec_resolve(f) {
            Object::Name(n) => n@ == "JPXDecode"@,
            Object::Array(a) => lists_jpx(arena, a@),
            _ => false,
        },
        None => false,
    }
}

/// Whether a chain of filters names `/JPXDecode`.
pub open spec fn lists_jpx(arena: Arena, items: Seq<Object>) -> bool {
    exists|i: int| 0 <= i < items.len() && #[trigger] is_jpx_name(arena, items[i])
}

/// Whether `o` resolves to the name `/JPXDecode`.
pub open spec fn is_jpx_name(arena: Arena, o: Object) -> bool {
    arena.spec_resolve(o) matches Object::Name(n) && n@ == "JPXDecode"@
}

/// Whether a stream's `/Filter` names `/JPXDecode`, alone or in a chain.
pub fn filters_name_jpx(dict: &Dict, arena: &Arena) -> (r: bool)
    ensures
        r == names_jpx(*dict, *arena),
{
    match dict.get("Filter") {
        Some(f) => match arena.resolve(f) {
            Object::Name(n) => str_eq(n.as_str(), "JPXDecode"),
            Object::Array(a) => {
                let mut i: usize = 0;
                while i < a.len()
                    invariant
                        i <= a@.len(),
                        dict.spec_get("Filter"@) == Some(*f),
                        arena.spec_resolve(*f) == Object::Array(*a),
                        forall|j: int| 0 <= j < i ==> !#[trigger] is_jpx_name(*arena, a@[j]),
                    decreases a@.len() - i,
                {
                    let hit = match arena.resolve(&a[i]) {
                        Object::Name(n) => str_eq(n.as_str(), "JPXDecode"),
                        _ => false,
                    };
                    if hit {
                        assert(is_jpx_name(*arena, a@[i as int]));
                        assert(dict.spec_get("Filter"@) == Some(*f));
                        assert(lists_jpx(*arena, a@));
                        return true;
                    }
                    i = i + 1;
                }
                false
            },
            _ => false,
        },
        None => false,
    }
}

/// A filter other than `/JPXDecode` has an outcome this library fixes.
proof fn lemma_known_step(n: Seq<char>, data: Seq<u8>, params: Option<Object>, arena: Arena)
    requires
        n != "JPXDecode"@,
    ensures
        spec_decode_with(n, data, params, arena) is Some,
{
    reveal(spec_kind_decode);
}

/// A chain that names no `/JPXDecode` from its `k`th filter on has an outcome this
/// library fixes.
proof fn lemma_known_chain(filters: Seq<Object>, k: int, data: Seq<u8>, parr: Option<Seq<Object>>, arena: Arena)
    requires
        forall|i: int| k <= i < filters.len() ==> !#[trigger] is_jpx_name(arena, filters[i]),
    ensures
        spec_chain(filters, k, data, parr, arena) is Some,
    decreases filters.len() - k,
{
    if 0 <= k < filters.len() {
        assert(!is_jpx_name(arena, filters[k]));
        match arena.spec_resolve(filters[k]) {
            Object::Name(n) => {
                lemma_known_step(n@, data, param_at(parr, k), arena);
                match spec_decode_with(n@, data, param_at(parr, k), arena) {
                    Some(Ok(next)) => lemma_known_chain(filters, k + 1, next, parr, arena),
                    _ => {},
                }
            },
            _ => lemma_known_chain(filters, k + 1, data, parr, arena),
        }
    } else if k < 0 {
    }
}

/// A stream whose `/Filter` names no `/JPXDecode` has an outcome this library fixes.
pub proof fn lemma_known_without_jpx(data: Seq<u8>, dict: Dict, arena: Arena)
    requires
        !names_jpx(dict, arena),
    ensures
        spec_process(data, dict, arena, None) is Some,
{
    match dict.spec_get("Filter"@) {
        Some(f) => match arena.spec_resolve(f) {
            Object::Name(n) => lemma_known_step(n@, data, spec_params_of(dict, arena), arena),
            Object::Array(a) => {
                assert forall|i: int| 0 <= i < a@.len() implies !#[trigger] is_jpx_name(arena, a@[i]) by {}
                lemma_known_chain(a@, 0, data, spec_params_array(dict, arena), arena);
            },
            _ => {},
        },
        None => {},
    }
}

} // verus!
