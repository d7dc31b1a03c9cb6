//! The document catalogue's own values (7.7.2) and the viewer preferences it carries
//! (12.2): each a name the standard defines, or the name the file wrote kept verbatim.

pub mod entries;
pub mod extensions;
pub mod normalize;
pub mod page;
pub mod state;
pub mod structure;
pub mod tree;

pub use state::{Access, Document};

use crate::destination::DestsDictionary;
use crate::error::{text, PdfError, PdfResult};
use crate::object::{opt_ref, str_eq, Arena, Dict, Object};
use entries::{
    array_field, bool_field, entry_readable, entry_reads, int_field, name_field, opt_seq, opt_view, read_array,
    read_bool, read_int, read_name, read_text, read_with, text_field, AcroForm, AdditionalActions, ArticleThreads,
    DeclaredVersion, FromPdfObject, Located, MarkInfo, NameDictionary, OptionalContent, OutlineRoot, OutputIntents,
    PageLabels, PageTreeRoot, StructTreeRoot, TriggeredAction, XmpMetadata,
};
use vstd::prelude::*;

verus! {

/// The name an object is.
fn named<'a>(arena: &'a Arena, o: &'a Object) -> (r: PdfResult<&'a String>)
    ensures
        match r {
            Ok(n) => arena.spec_name_of(*o) == Some(n@),
            Err(e) => arena.spec_name_of(*o).is_none() && (e matches PdfError::Parse { pos, message } && pos == 0
                && message@ == "expected a name"@),
        },
{
    match arena.name_of(o) {
        Some(n) => Ok(n),
        None => Err(PdfError::Parse { pos: 0, message: text("expected a name") }),
    }
}

/// What the source document was, kept so the output can say what it derives from.
pub struct Provenance {
    /// The source's `xmpMM:DocumentID`, or its trailer `/ID[0]` when it carried no XMP.
    pub source_id: Option<String>,
    /// The root of the derivation chain.
    pub original_id: Option<String>,
    /// Signature dictionaries the source carried (12.8). They cannot survive a save.
    pub signatures: usize,
}

/// `/Direction` (Table 147): reading order for two-page spreads.
pub enum Direction {
    /// Left to right.
    L2R,
    /// Right to left, which includes vertical Japanese written right to left.
    R2L,
    /// A name the standard does not define here, kept verbatim.
    Other(String),
}

impl Direction {
    /// Reads the name an object is: a value the standard defines, or the name kept.
    pub fn from_object(arena: &Arena, o: &Object) -> (r: PdfResult<Self>)
        ensures
            arena.spec_name_of(*o).is_none() ==> (r matches Err(PdfError::Parse { pos, message }) && pos == 0 && message@ == "expected a name"@),
            arena.spec_name_of(*o) matches Some(n) ==> (r matches Ok(v) && match v {
                Direction::L2R => n == "L2R"@,
                Direction::R2L => n == "R2L"@,
                Direction::Other(s) => s@ == n && n != "L2R"@ && n != "R2L"@,
            }),
    {
        let n = named(arena, o)?;
        let s = n.as_str();
        if str_eq(s, "L2R") {
            Ok(Direction::L2R)
        } else if str_eq(s, "R2L") {
            Ok(Direction::R2L)
        } else {
            Ok(Direction::Other(text(s)))
        }
    }
}

/// A page boundary, as the deprecated `/ViewArea` family names one (14.11.2).
pub enum PageBoundary {
    /// `/MediaBox`.
    MediaBox,
    /// `/CropBox`.
    CropBox,
    /// `/BleedBox`.
    BleedBox,
    /// `/TrimBox`.
    TrimBox,
    /// `/ArtBox`.
    ArtBox,
    /// A name the standard does not define here, kept verbatim.
    Other(String),
}

impl PageBoundary {
    /// Reads the name an object is: a value the standard defines, or the name kept.
    pub fn from_object(arena: &Arena, o: &Object) -> (r: PdfResult<Self>)
        ensures
            arena.spec_name_of(*o).is_none() ==> (r matches Err(PdfError::Parse { pos, message }) && pos == 0 && message@ == "expected a name"@),
            arena.spec_name_of(*o) matches Some(n) ==> (r matches Ok(v) && match v {
                PageBoundary::MediaBox => n == "MediaBox"@,
                PageBoundary::CropBox => n == "CropBox"@,
                PageBoundary::BleedBox => n == "BleedBox"@,
                PageBoundary::TrimBox => n == "TrimBox"@,
                PageBoundary::ArtBox => n == "ArtBox"@,
                PageBoundary::Other(s) => s@ == n && n != "MediaBox"@ && n != "CropBox"@ && n != "BleedBox"@ && n != "TrimBox"@ && n != "ArtBox"@,
            }),
    {
        let n = named(arena, o)?;
        let s = n.as_str();
        if str_eq(s, "MediaBox") {
            Ok(PageBoundary::MediaBox)
        } else if str_eq(s, "CropBox") {
            Ok(PageBoundary::CropBox)
        } else if str_eq(s, "BleedBox") {
            Ok(PageBoundary::BleedBox)
        } else if str_eq(s, "TrimBox") {
            Ok(PageBoundary::TrimBox)
        } else if str_eq(s, "ArtBox") {
            Ok(PageBoundary::ArtBox)
        } else {
            Ok(PageBoundary::Other(text(s)))
        }
    }
}

/// `/PrintScaling` (Table 147).
pub enum PrintScaling {
    /// `/None`: no scaling, one PDF unit to one device unit.
    NoScaling,
    /// Whatever the viewer would do anyway.
    AppDefault,
    /// A name the standard does not define here, kept verbatim.
    Other(String),
}

impl PrintScaling {
    /// Reads the name an object is: a value the standard defines, or the name kept.
    pub fn from_object(arena: &Arena, o: &Object) -> (r: PdfResult<Self>)
        ensures
            arena.spec_name_of(*o).is_none() ==> (r matches Err(PdfError::Parse { pos, message }) && pos == 0 && message@ == "expected a name"@),
            arena.spec_name_of(*o) matches Some(n) ==> (r matches Ok(v) && match v {
                PrintScaling::NoScaling => n == "None"@,
                PrintScaling::AppDefault => n == "AppDefault"@,
                PrintScaling::Other(s) => s@ == n && n != "None"@ && n != "AppDefault"@,
            }),
    {
        let n = named(arena, o)?;
        let s = n.as_str();
        if str_eq(s, "None") {
            Ok(PrintScaling::NoScaling)
        } else if str_eq(s, "AppDefault") {
            Ok(PrintScaling::AppDefault)
        } else {
            Ok(PrintScaling::Other(text(s)))
        }
    }
}

/// `/Duplex` (Table 147).
pub enum Duplex {
    /// One side only.
    Simplex,
    /// Two-sided, flipping about the short edge.
    DuplexFlipShortEdge,
    /// Two-sided, flipping about the long edge.
    DuplexFlipLongEdge,
    /// A name the standard does not define here, kept verbatim.
    Other(String),
}

impl Duplex {
    /// Reads the name an object is: a value the standard defines, or the name kept.
    pub fn from_object(arena: &Arena, o: &Object) -> (r: PdfResult<Self>)
        ensures
            arena.spec_name_of(*o).is_none() ==> (r matches Err(PdfError::Parse { pos, message }) && pos == 0 && message@ == "expected a name"@),
            arena.spec_name_of(*o) matches Some(n) ==> (r matches Ok(v) && match v {
                Duplex::Simplex => n == "Simplex"@,
                Duplex::DuplexFlipShortEdge => n == "DuplexFlipShortEdge"@,
                Duplex::DuplexFlipLongEdge => n == "DuplexFlipLongEdge"@,
                Duplex::Other(s) => s@ == n && n != "Simplex"@ && n != "DuplexFlipShortEdge"@ && n != "DuplexFlipLongEdge"@,
            }),
    {
        let n = named(arena, o)?;
        let s = n.as_str();
        if str_eq(s, "Simplex") {
            Ok(Duplex::Simplex)
        } else if str_eq(s, "DuplexFlipShortEdge") {
            Ok(Duplex::DuplexFlipShortEdge)
        } else if str_eq(s, "DuplexFlipLongEdge") {
            Ok(Duplex::DuplexFlipLongEdge)
        } else {
            Ok(Duplex::Other(text(s)))
        }
    }
}

/// `/PageMode` (Table 29): what a viewer shows alongside the page. `Other` keeps a name this list does not have rather than folding it to a default: the set has grown twice, and a file may carry a value newer than this code.
pub enum PageMode {
    /// Neither outlines nor thumbnails.
    UseNone,
    /// The outline pane.
    UseOutlines,
    /// The thumbnail pane.
    UseThumbs,
    /// Full-screen, with no viewer chrome.
    FullScreen,
    /// The optional content group pane (1.5).
    UseOC,
    /// The attachments pane (1.6).
    UseAttachments,
    /// A name the standard does not define here, kept verbatim.
    Other(String),
}

impl PageMode {
    /// Reads the name an object is: a value the standard defines, or the name kept.
    pub fn from_object(arena: &Arena, o: &Object) -> (r: PdfResult<Self>)
        ensures
            arena.spec_name_of(*o).is_none() ==> (r matches Err(PdfError::Parse { pos, message }) && pos == 0 && message@ == "expected a name"@),
            arena.spec_name_of(*o) matches Some(n) ==> (r matches Ok(v) && match v {
                PageMode::UseNone => n == "UseNone"@,
                PageMode::UseOutlines => n == "UseOutlines"@,
                PageMode::UseThumbs => n == "UseThumbs"@,
                PageMode::FullScreen => n == "FullScreen"@,
                PageMode::UseOC => n == "UseOC"@,
                PageMode::UseAttachments => n == "UseAttachments"@,
                PageMode::Other(s) => s@ == n && n != "UseNone"@ && n != "UseOutlines"@ && n != "UseThumbs"@ && n != "FullScreen"@ && n != "UseOC"@ && n != "UseAttachments"@,
            }),
    {
        let n = named(arena, o)?;
        let s = n.as_str();
        if str_eq(s, "UseNone") {
            Ok(PageMode::UseNone)
        } else if str_eq(s, "UseOutlines") {
            Ok(PageMode::UseOutlines)
        } else if str_eq(s, "UseThumbs") {
            Ok(PageMode::UseThumbs)
        } else if str_eq(s, "FullScreen") {
            Ok(PageMode::FullScreen)
        } else if str_eq(s, "UseOC") {
            Ok(PageMode::UseOC)
        } else if str_eq(s, "UseAttachments") {
            Ok(PageMode::UseAttachments)
        } else {
            Ok(PageMode::Other(text(s)))
        }
    }
}

/// `/PageLayout` (Table 29): how a viewer arranges the pages.
pub enum PageLayout {
    /// One page at a time.
    SinglePage,
    /// One column, scrolling.
    OneColumn,
    /// Two columns, odd-numbered pages to the left.
    TwoColumnLeft,
    /// Two columns, odd-numbered pages to the right.
    TwoColumnRight,
    /// Two pages at a time, odd-numbered to the left (1.5).
    TwoPageLeft,
    /// Two pages at a time, odd-numbered to the right (1.5).
    TwoPageRight,
    /// A name the standard does not define here, kept verbatim.
    Other(String),
}

impl PageLayout {
    /// Reads the name an object is: a value the standard defines, or the name kept.
    pub fn from_object(arena: &Arena, o: &Object) -> (r: PdfResult<Self>)
        ensures
            arena.spec_name_of(*o).is_none() ==> (r matches Err(PdfError::Parse { pos, message }) && pos == 0 && message@ == "expected a name"@),
            arena.spec_name_of(*o) matches Some(n) ==> (r matches Ok(v) && match v {
                PageLayout::SinglePage => n == "SinglePage"@,
                PageLayout::OneColumn => n == "OneColumn"@,
                PageLayout::TwoColumnLeft => n == "TwoColumnLeft"@,
                PageLayout::TwoColumnRight => n == "TwoColumnRight"@,
                PageLayout::TwoPageLeft => n == "TwoPageLeft"@,
                PageLayout::TwoPageRight => n == "TwoPageRight"@,
                PageLayout::Other(s) => s@ == n && n != "SinglePage"@ && n != "OneColumn"@ && n != "TwoColumnLeft"@ && n != "TwoColumnRight"@ && n != "TwoPageLeft"@ && n != "TwoPageRight"@,
            }),
    {
        let n = named(arena, o)?;
        let s = n.as_str();
        if str_eq(s, "SinglePage") {
            Ok(PageLayout::SinglePage)
        } else if str_eq(s, "OneColumn") {
            Ok(PageLayout::OneColumn)
        } else if str_eq(s, "TwoColumnLeft") {
            Ok(PageLayout::TwoColumnLeft)
        } else if str_eq(s, "TwoColumnRight") {
            Ok(PageLayout::TwoColumnRight)
        } else if str_eq(s, "TwoPageLeft") {
            Ok(PageLayout::TwoPageLeft)
        } else if str_eq(s, "TwoPageRight") {
            Ok(PageLayout::TwoPageRight)
        } else {
            Ok(PageLayout::Other(text(s)))
        }
    }
}

impl Direction {
    /// The name this value was read from, so a report prints what the file said.
    pub fn as_name(&self) -> (r: &str)
        ensures
            r@ == match self {
                Direction::L2R => "L2R"@,
                Direction::R2L => "R2L"@,
                Direction::Other(n) => n@,
            },
    {
        match self {
            Direction::L2R => "L2R",
            Direction::R2L => "R2L",
            Direction::Other(n) => n.as_str(),
        }
    }
}

/// `/ViewerPreferences` (12.2, Table 147): how the document asks to be presented.
///
/// Every field is an `Option`, including the booleans Table 147 gives defaults for: a
/// document that says nothing must not come back claiming `false`.
pub struct ViewerPreferences<'a> {
    /// Hide the viewer's toolbars.
    pub hide_toolbar: Option<bool>,
    /// Hide the viewer's menu bar.
    pub hide_menubar: Option<bool>,
    /// Hide scroll bars and other window furniture.
    pub hide_window_ui: Option<bool>,
    /// Resize the window to the first page.
    pub fit_window: Option<bool>,
    /// Centre the window on the screen.
    pub center_window: Option<bool>,
    /// Show `dc:title` in the title bar instead of the file name (1.4).
    pub display_doc_title: Option<bool>,
    /// What to show on leaving full-screen.
    pub non_full_screen_page_mode: Option<PageMode>,
    /// Reading order for spreads (1.3).
    pub direction: Option<Direction>,
    /// Which page boundary to display. Deprecated in PDF 2.0.
    pub view_area: Option<PageBoundary>,
    /// Which page boundary to clip to when displaying. Deprecated in PDF 2.0.
    pub view_clip: Option<PageBoundary>,
    /// Which page boundary to print. Deprecated in PDF 2.0.
    pub print_area: Option<PageBoundary>,
    /// Which page boundary to clip to when printing. Deprecated in PDF 2.0.
    pub print_clip: Option<PageBoundary>,
    /// The print dialogue's default scaling (1.6).
    pub print_scaling: Option<PrintScaling>,
    /// The print dialogue's default duplex handling (1.7).
    pub duplex: Option<Duplex>,
    /// Choose the paper tray by page size (1.7).
    pub pick_tray_by_pdf_size: Option<bool>,
    /// Page ranges for the print dialogue, as pairs of first and last (1.7): the array,
    /// its elements not turned into ranges.
    pub print_page_range: Option<&'a Vec<Object>>,
    /// The print dialogue's default copy count (1.7).
    pub num_copies: Option<i64>,
    /// Which preferences a viewer should enforce rather than offer (2.0).
    pub enforce: Option<&'a Vec<Object>>,
}


impl<'a> FromPdfObject<'a> for Direction {
    open spec fn readable(arena: Arena, obj: Object) -> bool {
        arena.spec_name_of(obj) is Some
    }

    open spec fn read_as(arena: Arena, obj: Object, v: Self) -> bool {
        arena.spec_name_of(obj) matches Some(n) && match v {
            Direction::L2R => n == "L2R"@,
            Direction::R2L => n == "R2L"@,
            Direction::Other(s) => s@ == n && n != "L2R"@ && n != "R2L"@,
        }
    }

    fn from_pdf_object(obj: &'a Object, arena: &'a Arena) -> (r: PdfResult<Self>) {
        Direction::from_object(arena, obj)
    }
}

impl<'a> FromPdfObject<'a> for PageBoundary {
    open spec fn readable(arena: Arena, obj: Object) -> bool {
        arena.spec_name_of(obj) is Some
    }

    open spec fn read_as(arena: Arena, obj: Object, v: Self) -> bool {
        arena.spec_name_of(obj) matches Some(n) && match v {
            PageBoundary::MediaBox => n == "MediaBox"@,
            PageBoundary::CropBox => n == "CropBox"@,
            PageBoundary::BleedBox => n == "BleedBox"@,
            PageBoundary::TrimBox => n == "TrimBox"@,
            PageBoundary::ArtBox => n == "ArtBox"@,
            PageBoundary::Other(s) => s@ == n && n != "MediaBox"@ && n != "CropBox"@ && n != "BleedBox"@ && n != "TrimBox"@ && n != "ArtBox"@,
        }
    }

    fn from_pdf_object(obj: &'a Object, arena: &'a Arena) -> (r: PdfResult<Self>) {
        PageBoundary::from_object(arena, obj)
    }
}

impl<'a> FromPdfObject<'a> for PrintScaling {
    open spec fn readable(arena: Arena, obj: Object) -> bool {
        arena.spec_name_of(obj) is Some
    }

    open spec fn read_as(arena: Arena, obj: Object, v: Self) -> bool {
        arena.spec_name_of(obj) matches Some(n) && match v {
            PrintScaling::NoScaling => n == "None"@,
            PrintScaling::AppDefault => n == "AppDefault"@,
            PrintScaling::Other(s) => s@ == n && n != "None"@ && n != "AppDefault"@,
        }
    }

    fn from_pdf_object(obj: &'a Object, arena: &'a Arena) -> (r: PdfResult<Self>) {
        PrintScaling::from_object(arena, obj)
    }
}

impl<'a> FromPdfObject<'a> for Duplex {
    open spec fn readable(arena: Arena, obj: Object) -> bool {
        arena.spec_name_of(obj) is Some
    }

    open spec fn read_as(arena: Arena, obj: Object, v: Self) -> bool {
        arena.spec_name_of(obj) matches Some(n) && match v {
            Duplex::Simplex => n == "Simplex"@,
            Duplex::DuplexFlipShortEdge => n == "DuplexFlipShortEdge"@,
            Duplex::DuplexFlipLongEdge => n == "DuplexFlipLongEdge"@,
            Duplex::Other(s) => s@ == n && n != "Simplex"@ && n != "DuplexFlipShortEdge"@ && n != "DuplexFlipLongEdge"@,
        }
    }

    fn from_pdf_object(obj: &'a Object, arena: &'a Arena) -> (r: PdfResult<Self>) {
        Duplex::from_object(arena, obj)
    }
}

impl<'a> FromPdfObject<'a> for PageMode {
    open spec fn readable(arena: Arena, obj: Object) -> bool {
        arena.spec_name_of(obj) is Some
    }

    open spec fn read_as(arena: Arena, obj: Object, v: Self) -> bool {
        arena.spec_name_of(obj) matches Some(n) && match v {
            PageMode::UseNone => n == "UseNone"@,
            PageMode::UseOutlines => n == "UseOutlines"@,
            PageMode::UseThumbs => n == "UseThumbs"@,
            PageMode::FullScreen => n == "FullScreen"@,
            PageMode::UseOC => n == "UseOC"@,
            PageMode::UseAttachments => n == "UseAttachments"@,
            PageMode::Other(s) => s@ == n && n != "UseNone"@ && n != "UseOutlines"@ && n != "UseThumbs"@ && n != "FullScreen"@ && n != "UseOC"@ && n != "UseAttachments"@,
        }
    }

    fn from_pdf_object(obj: &'a Object, arena: &'a Arena) -> (r: PdfResult<Self>) {
        PageMode::from_object(arena, obj)
    }
}

impl<'a> FromPdfObject<'a> for PageLayout {
    open spec fn readable(arena: Arena, obj: Object) -> bool {
        arena.spec_name_of(obj) is Some
    }

    open spec fn read_as(arena: Arena, obj: Object, v: Self) -> bool {
        arena.spec_name_of(obj) matches Some(n) && match v {
            PageLayout::SinglePage => n == "SinglePage"@,
            PageLayout::OneColumn => n == "OneColumn"@,
            PageLayout::TwoColumnLeft => n == "TwoColumnLeft"@,
            PageLayout::TwoColumnRight => n == "TwoColumnRight"@,
            PageLayout::TwoPageLeft => n == "TwoPageLeft"@,
            PageLayout::TwoPageRight => n == "TwoPageRight"@,
            PageLayout::Other(s) => s@ == n && n != "SinglePage"@ && n != "OneColumn"@ && n != "TwoColumnLeft"@ && n != "TwoColumnRight"@ && n != "TwoPageLeft"@ && n != "TwoPageRight"@,
        }
    }

    fn from_pdf_object(obj: &'a Object, arena: &'a Arena) -> (r: PdfResult<Self>) {
        PageLayout::from_object(arena, obj)
    }
}

impl<'a> FromPdfObject<'a> for ViewerPreferences<'a> {
    open spec fn readable(arena: Arena, obj: Object) -> bool {
        arena.spec_dict_of(obj) matches Some(d) && bool_field(arena, d, "HideToolbar"@) is Some
            && bool_field(arena, d, "HideMenubar"@) is Some
            && bool_field(arena, d, "HideWindowUI"@) is Some
            && bool_field(arena, d, "FitWindow"@) is Some
            && bool_field(arena, d, "CenterWindow"@) is Some
            && bool_field(arena, d, "DisplayDocTitle"@) is Some
            && entry_readable::<PageMode>(arena, d.spec_get("NonFullScreenPageMode"@))
            && entry_readable::<Direction>(arena, d.spec_get("Direction"@))
            && entry_readable::<PageBoundary>(arena, d.spec_get("ViewArea"@))
            && entry_readable::<PageBoundary>(arena, d.spec_get("ViewClip"@))
            && entry_readable::<PageBoundary>(arena, d.spec_get("PrintArea"@))
            && entry_readable::<PageBoundary>(arena, d.spec_get("PrintClip"@))
            && entry_readable::<PrintScaling>(arena, d.spec_get("PrintScaling"@))
            && entry_readable::<Duplex>(arena, d.spec_get("Duplex"@))
            && bool_field(arena, d, "PickTrayByPDFSize"@) is Some
            && array_field(arena, d, "PrintPageRange"@) is Some
            && int_field(arena, d, "NumCopies"@) is Some
            && array_field(arena, d, "Enforce"@) is Some
    }

    open spec fn read_as(arena: Arena, obj: Object, v: Self) -> bool {
        arena.spec_dict_of(obj) matches Some(d) && bool_field(arena, d, "HideToolbar"@) == Some(v.hide_toolbar)
            && bool_field(arena, d, "HideMenubar"@) == Some(v.hide_menubar)
            && bool_field(arena, d, "HideWindowUI"@) == Some(v.hide_window_ui)
            && bool_field(arena, d, "FitWindow"@) == Some(v.fit_window)
            && bool_field(arena, d, "CenterWindow"@) == Some(v.center_window)
            && bool_field(arena, d, "DisplayDocTitle"@) == Some(v.display_doc_title)
            && entry_reads::<PageMode>(arena, d.spec_get("NonFullScreenPageMode"@), v.non_full_screen_page_mode)
            && entry_reads::<Direction>(arena, d.spec_get("Direction"@), v.direction)
            && entry_reads::<PageBoundary>(arena, d.spec_get("ViewArea"@), v.view_area)
            && entry_reads::<PageBoundary>(arena, d.spec_get("ViewClip"@), v.view_clip)
            && entry_reads::<PageBoundary>(arena, d.spec_get("PrintArea"@), v.print_area)
            && entry_reads::<PageBoundary>(arena, d.spec_get("PrintClip"@), v.print_clip)
            && entry_reads::<PrintScaling>(arena, d.spec_get("PrintScaling"@), v.print_scaling)
            && entry_reads::<Duplex>(arena, d.spec_get("Duplex"@), v.duplex)
            && bool_field(arena, d, "PickTrayByPDFSize"@) == Some(v.pick_tray_by_pdf_size)
            && array_field(arena, d, "PrintPageRange"@) == Some(opt_seq(v.print_page_range))
            && int_field(arena, d, "NumCopies"@) == Some(v.num_copies)
            && array_field(arena, d, "Enforce"@) == Some(opt_seq(v.enforce))
    }

    fn from_pdf_object(obj: &'a Object, arena: &'a Arena) -> (r: PdfResult<Self>) {
        let d = match arena.dict_of(obj) {
            Some(d) => d,
            None => return Err(PdfError::Other(text("/ViewerPreferences is not a dictionary"))),
        };
        let hide_toolbar = read_bool(arena, d, "HideToolbar")?;
        let hide_menubar = read_bool(arena, d, "HideMenubar")?;
        let hide_window_ui = read_bool(arena, d, "HideWindowUI")?;
        let fit_window = read_bool(arena, d, "FitWindow")?;
        let center_window = read_bool(arena, d, "CenterWindow")?;
        let display_doc_title = read_bool(arena, d, "DisplayDocTitle")?;
        let non_full_screen_page_mode = read_with(arena, d, "NonFullScreenPageMode")?;
        let direction = read_with(arena, d, "Direction")?;
        let view_area = read_with(arena, d, "ViewArea")?;
        let view_clip = read_with(arena, d, "ViewClip")?;
        let print_area = read_with(arena, d, "PrintArea")?;
        let print_clip = read_with(arena, d, "PrintClip")?;
        let print_scaling = read_with(arena, d, "PrintScaling")?;
        let duplex = read_with(arena, d, "Duplex")?;
        let pick_tray_by_pdf_size = read_bool(arena, d, "PickTrayByPDFSize")?;
        let print_page_range = read_array(arena, d, "PrintPageRange")?;
        let num_copies = read_int(arena, d, "NumCopies")?;
        let enforce = read_array(arena, d, "Enforce")?;
        Ok(ViewerPreferences {
            hide_toolbar,
            hide_menubar,
            hide_window_ui,
            fit_window,
            center_window,
            display_doc_title,
            non_full_screen_page_mode,
            direction,
            view_area,
            view_clip,
            print_area,
            print_clip,
            print_scaling,
            duplex,
            pick_tray_by_pdf_size,
            print_page_range,
            num_copies,
            enforce,
        })
    }
}

/// The document catalogue (7.7.2, Table 29), every entry read.
///
/// Reading it means reading all thirty-two entries, and any one that is present and will
/// not read fails the lot — which is why [`entries::entry`] reads one entry alone. Where
/// an entry's contents have a reader here its field holds what the reader makes of it;
/// `/AF`, `/PieceInfo` and `/Requirements` are kept reachable, as the object
/// the file wrote, with the other entries Table 29 leaves to subsystems.
pub struct PdfCatalog<'a> {
    /// `/Pages`.
    pub pages: Option<Located<PageTreeRoot<'a>>>,
    /// `/StructTreeRoot`.
    pub struct_tree_root: Option<Located<StructTreeRoot<'a>>>,
    /// `/MarkInfo`.
    pub mark_info: Option<MarkInfo>,
    /// `/Metadata`.
    pub metadata: Option<XmpMetadata>,
    /// `/Version`.
    pub version: Option<DeclaredVersion>,
    /// `/AcroForm`.
    pub acro_form: Option<AcroForm<'a>>,
    /// `/Names`.
    pub names: Option<NameDictionary>,
    /// `/Outlines`.
    pub outlines: Option<OutlineRoot>,
    /// `/OpenAction`.
    pub open_action: Option<TriggeredAction<'a>>,
    /// `/AA`.
    pub additional_actions: Option<AdditionalActions<'a>>,
    /// `/PageMode`.
    pub page_mode: Option<PageMode>,
    /// `/PageLayout`.
    pub page_layout: Option<PageLayout>,
    /// `/Dests`.
    pub dests: Option<DestsDictionary>,
    /// `/ViewerPreferences`.
    pub viewer_preferences: Option<ViewerPreferences<'a>>,
    /// `/Lang`.
    pub lang: Option<String>,
    /// `/Type`.
    pub catalog_type: Option<String>,
    /// `/PageLabels`.
    pub page_labels: Option<PageLabels>,
    /// `/Threads`.
    pub threads: Option<ArticleThreads<'a>>,
    /// `/OutputIntents`.
    pub output_intents: Option<OutputIntents<'a>>,
    /// `/OCProperties`.
    pub oc_properties: Option<OptionalContent<'a>>,
    /// `/Collection`.
    pub collection: Option<&'a Object>,
    /// `/AF`.
    pub associated_files: Option<&'a Object>,
    /// `/Extensions`.
    pub extensions: Option<&'a Object>,
    /// `/URI`.
    pub uri: Option<&'a Object>,
    /// `/SpiderInfo`.
    pub spider_info: Option<&'a Object>,
    /// `/PieceInfo`.
    pub piece_info: Option<&'a Object>,
    /// `/Perms`.
    pub perms: Option<&'a Object>,
    /// `/Legal`.
    pub legal: Option<&'a Object>,
    /// `/Requirements`.
    pub requirements: Option<&'a Object>,
    /// `/NeedsRendering`.
    pub needs_rendering: Option<bool>,
    /// `/DSS`.
    pub dss: Option<&'a Object>,
    /// `/DPartRoot`.
    pub dpart_root: Option<&'a Object>,
}

impl<'a> FromPdfObject<'a> for PdfCatalog<'a> {
    open spec fn readable(arena: Arena, obj: Object) -> bool {
        arena.spec_dict_of(obj) matches Some(d) && entry_readable::<Located<PageTreeRoot<'a>>>(arena, d.spec_get("Pages"@))
            && entry_readable::<Located<StructTreeRoot<'a>>>(arena, d.spec_get("StructTreeRoot"@))
            && entry_readable::<MarkInfo>(arena, d.spec_get("MarkInfo"@))
            && entry_readable::<XmpMetadata>(arena, d.spec_get("Metadata"@))
            && entry_readable::<DeclaredVersion>(arena, d.spec_get("Version"@))
            && entry_readable::<AcroForm<'a>>(arena, d.spec_get("AcroForm"@))
            && entry_readable::<NameDictionary>(arena, d.spec_get("Names"@))
            && entry_readable::<OutlineRoot>(arena, d.spec_get("Outlines"@))
            && entry_readable::<TriggeredAction<'a>>(arena, d.spec_get("OpenAction"@))
            && entry_readable::<AdditionalActions<'a>>(arena, d.spec_get("AA"@))
            && entry_readable::<PageMode>(arena, d.spec_get("PageMode"@))
            && entry_readable::<PageLayout>(arena, d.spec_get("PageLayout"@))
            && entry_readable::<DestsDictionary>(arena, d.spec_get("Dests"@))
            && entry_readable::<ViewerPreferences<'a>>(arena, d.spec_get("ViewerPreferences"@))
            && text_field(arena, d, "Lang"@) is Some
            && name_field(arena, d, "Type"@) is Some
            && entry_readable::<PageLabels>(arena, d.spec_get("PageLabels"@))
            && entry_readable::<ArticleThreads<'a>>(arena, d.spec_get("Threads"@))
            && entry_readable::<OutputIntents<'a>>(arena, d.spec_get("OutputIntents"@))
            && entry_readable::<OptionalContent<'a>>(arena, d.spec_get("OCProperties"@))
            && bool_field(arena, d, "NeedsRendering"@) is Some
    }

    open spec fn read_as(arena: Arena, obj: Object, v: Self) -> bool {
        arena.spec_dict_of(obj) matches Some(d) && entry_reads::<Located<PageTreeRoot<'a>>>(arena, d.spec_get("Pages"@), v.pages)
            && entry_reads::<Located<StructTreeRoot<'a>>>(arena, d.spec_get("StructTreeRoot"@), v.struct_tree_root)
            && entry_reads::<MarkInfo>(arena, d.spec_get("MarkInfo"@), v.mark_info)
            && entry_reads::<XmpMetadata>(arena, d.spec_get("Metadata"@), v.metadata)
            && entry_reads::<DeclaredVersion>(arena, d.spec_get("Version"@), v.version)
            && entry_reads::<AcroForm<'a>>(arena, d.spec_get("AcroForm"@), v.acro_form)
            && entry_reads::<NameDictionary>(arena, d.spec_get("Names"@), v.names)
            && entry_reads::<OutlineRoot>(arena, d.spec_get("Outlines"@), v.outlines)
            && entry_reads::<TriggeredAction<'a>>(arena, d.spec_get("OpenAction"@), v.open_action)
            && entry_reads::<AdditionalActions<'a>>(arena, d.spec_get("AA"@), v.additional_actions)
            && entry_reads::<PageMode>(arena, d.spec_get("PageMode"@), v.page_mode)
            && entry_reads::<PageLayout>(arena, d.spec_get("PageLayout"@), v.page_layout)
            && entry_reads::<DestsDictionary>(arena, d.spec_get("Dests"@), v.dests)
            && entry_reads::<ViewerPreferences<'a>>(arena, d.spec_get("ViewerPreferences"@), v.viewer_preferences)
            && text_field(arena, d, "Lang"@) == Some(opt_view(v.lang))
            && name_field(arena, d, "Type"@) == Some(opt_view(v.catalog_type))
            && entry_reads::<PageLabels>(arena, d.spec_get("PageLabels"@), v.page_labels)
            && entry_reads::<ArticleThreads<'a>>(arena, d.spec_get("Threads"@), v.threads)
            && entry_reads::<OutputIntents<'a>>(arena, d.spec_get("OutputIntents"@), v.output_intents)
            && entry_reads::<OptionalContent<'a>>(arena, d.spec_get("OCProperties"@), v.oc_properties)
            && d.spec_get("Collection"@) == opt_ref(v.collection)
            && d.spec_get("AF"@) == opt_ref(v.associated_files)
            && d.spec_get("Extensions"@) == opt_ref(v.extensions)
            && d.spec_get("URI"@) == opt_ref(v.uri)
            && d.spec_get("SpiderInfo"@) == opt_ref(v.spider_info)
            && d.spec_get("PieceInfo"@) == opt_ref(v.piece_info)
            && d.spec_get("Perms"@) == opt_ref(v.perms)
            && d.spec_get("Legal"@) == opt_ref(v.legal)
            && d.spec_get("Requirements"@) == opt_ref(v.requirements)
            && bool_field(arena, d, "NeedsRendering"@) == Some(v.needs_rendering)
            && d.spec_get("DSS"@) == opt_ref(v.dss)
            && d.spec_get("DPartRoot"@) == opt_ref(v.dpart_root)
    }

    #[verifier::rlimit(40)]
    fn from_pdf_object(obj: &'a Object, arena: &'a Arena) -> (r: PdfResult<Self>) {
        let d = match arena.dict_of(obj) {
            Some(d) => d,
            None => return Err(PdfError::Other(text("the catalogue is not a dictionary"))),
        };
        let pages = read_with(arena, d, "Pages")?;
        let struct_tree_root = read_with(arena, d, "StructTreeRoot")?;
        let mark_info = read_with(arena, d, "MarkInfo")?;
        let metadata = read_with(arena, d, "Metadata")?;
        let version = read_with(arena, d, "Version")?;
        let acro_form = read_with(arena, d, "AcroForm")?;
        let names = read_with(arena, d, "Names")?;
        let outlines = read_with(arena, d, "Outlines")?;
        let open_action = read_with(arena, d, "OpenAction")?;
        let additional_actions = read_with(arena, d, "AA")?;
        let page_mode = read_with(arena, d, "PageMode")?;
        let page_layout = read_with(arena, d, "PageLayout")?;
        let dests = read_with(arena, d, "Dests")?;
        let viewer_preferences = read_with(arena, d, "ViewerPreferences")?;
        let lang = read_text(arena, d, "Lang")?;
        let catalog_type = read_name(arena, d, "Type")?;
        let page_labels = read_with(arena, d, "PageLabels")?;
        let threads = read_with(arena, d, "Threads")?;
        let output_intents = read_with(arena, d, "OutputIntents")?;
        let oc_properties = read_with(arena, d, "OCProperties")?;
        let collection = d.get("Collection");
        let associated_files = d.get("AF");
        let extensions = d.get("Extensions");
        let uri = d.get("URI");
        let spider_info = d.get("SpiderInfo");
        let piece_info = d.get("PieceInfo");
        let perms = d.get("Perms");
        let legal = d.get("Legal");
        let requirements = d.get("Requirements");
        let needs_rendering = read_bool(arena, d, "NeedsRendering")?;
        let dss = d.get("DSS");
        let dpart_root = d.get("DPartRoot");
        Ok(PdfCatalog {
            pages,
            struct_tree_root,
            mark_info,
            metadata,
            version,
            acro_form,
            names,
            outlines,
            open_action,
            additional_actions,
            page_mode,
            page_layout,
            dests,
            viewer_preferences,
            lang,
            catalog_type,
            page_labels,
            threads,
            output_intents,
            oc_properties,
            collection,
            associated_files,
            extensions,
            uri,
            spider_info,
            piece_info,
            perms,
            legal,
            requirements,
            needs_rendering,
            dss,
            dpart_root,
        })
    }
}

} // verus!
