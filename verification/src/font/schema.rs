//! Typed schema for font dictionaries (9.2 to 9.7). An object number stands where the
//! dictionary holds a reference.

use crate::object::Object;
use vstd::prelude::*;

verus! {

/// The base font dictionary (9.2).
pub struct PdfFont {
    /// `/Subtype`: the font's specific kind.
    pub subtype: String,
    /// `/BaseFont`: the PostScript name of the font.
    pub base_font: String,
    /// `/FirstChar`: first code covered by `widths`.
    pub first_char: Option<i64>,
    /// `/LastChar`: last code covered by `widths`.
    pub last_char: Option<i64>,
    /// `/Widths`: advance widths for `first_char..=last_char`.
    pub widths: Option<Vec<Object>>,
    /// `/FontDescriptor`: metrics and the embedded program.
    pub font_descriptor: Option<u32>,
    /// `/Encoding`: a base encoding name or a differences dictionary.
    pub encoding: Option<Object>,
}

/// A Type 1 font dictionary (9.6.2).
pub struct PdfType1Font {
    /// `/BaseFont`: the PostScript name of the font.
    pub base_font: String,
    /// `/FirstChar`: first code covered by `widths`.
    pub first_char: Option<i64>,
    /// `/LastChar`: last code covered by `widths`.
    pub last_char: Option<i64>,
    /// `/Widths`: advance widths for `first_char..=last_char`.
    pub widths: Option<Vec<Object>>,
    /// `/FontDescriptor`: metrics and the embedded program.
    pub font_descriptor: Option<u32>,
}

/// A TrueType font dictionary (9.6.3).
pub struct PdfTrueTypeFont {
    /// `/BaseFont`: the PostScript name of the font.
    pub base_font: String,
    /// `/FirstChar`: first code covered by `widths`.
    pub first_char: Option<i64>,
    /// `/LastChar`: last code covered by `widths`.
    pub last_char: Option<i64>,
    /// `/Widths`: advance widths for `first_char..=last_char`.
    pub widths: Option<Vec<Object>>,
    /// `/FontDescriptor`: metrics and the embedded program.
    pub font_descriptor: Option<u32>,
}

/// A Type 0 font dictionary (9.7).
pub struct PdfType0Font {
    /// `/BaseFont`: the PostScript name of the composite font.
    pub base_font: String,
    /// `/Encoding`: a predefined CMap name, or an embedded CMap stream.
    pub encoding: Object,
    /// `/DescendantFonts`: the single CIDFont this font wraps.
    pub descendant_fonts: Vec<Object>,
}

/// An OpenType font dictionary (9.6.4).
pub struct PdfOpenTypeFont {
    /// `/BaseFont`: the PostScript name of the font.
    pub base_font: String,
    /// `/FontDescriptor`: metrics and the embedded program.
    pub font_descriptor: u32,
}

/// A CIDFont dictionary (9.7.4).
pub struct PdfCIDFont {
    /// `/Subtype`: `CIDFontType0` (CFF) or `CIDFontType2` (TrueType).
    pub subtype: String,
    /// `/BaseFont`: the PostScript name of the font.
    pub base_font: String,
    /// `/CIDSystemInfo`: registry, ordering and supplement of the CID collection.
    pub cid_system_info: u32,
    /// `/FontDescriptor`: metrics and the embedded program.
    pub font_descriptor: u32,
    /// `/DW`: default horizontal advance for CIDs absent from `w`.
    pub dw: Option<i64>,
    /// `/W`: horizontal advances, in the run-length form.
    pub w: Option<Vec<Object>>,
    /// `/DW2`: default vertical position and advance.
    pub dw2: Option<Vec<Object>>,
    /// `/W2`: vertical metrics, in the run-length form.
    pub w2: Option<Vec<Object>>,
    /// `/CIDToGIDMap`: `Identity`, or a stream mapping CIDs to glyph indices.
    pub cid_to_gid_map: Option<Object>,
}

} // verus!
