//! Value objects for the parts of ISO 32000-2 a document can be given: portfolios
//! (/Collection), outlines, optional content, associated files (/AF), output intents,
//! forms, page labels, transitions, mesh shadings and encryption wrappers.

use vstd::prelude::*;

verus! {

/// Layout view mode for a portfolio (12.3.5).
#[derive(Debug, Clone, Copy, PartialEq, Eq, Structural)]
pub enum CollectionViewMode {
    /// Show a detailed list.
    Details,
    /// Show icon tiles.
    Tile,
    /// Hide the controls.
    Hidden,
}

impl Default for CollectionViewMode {
    fn default() -> (r: Self)
        ensures
            r == CollectionViewMode::Details,
    {
        CollectionViewMode::Details
    }
}

/// A portfolio, or collection.
#[derive(Debug, Clone, PartialEq, Eq)]
pub struct PortfolioCollection {
    /// View layout for the collection.
    pub view_mode: CollectionViewMode,
    /// The document to show when the portfolio opens.
    pub initial_document: Option<String>,
    /// The items inside the portfolio.
    pub items: Vec<PortfolioItem>,
}

impl Default for PortfolioCollection {
    fn default() -> (r: Self)
        ensures
            r.view_mode == CollectionViewMode::Details,
            r.initial_document is None,
            r.items@.len() == 0,
    {
        PortfolioCollection { view_mode: CollectionViewMode::Details, initial_document: None, items: Vec::new() }
    }
}

/// One item of a portfolio.
#[derive(Debug, Clone, PartialEq, Eq)]
pub struct PortfolioItem {
    /// File name of the embedded document.
    pub filename: String,
    /// Its MIME type.
    pub mime_type: Option<String>,
    /// A description for a reader.
    pub description: Option<String>,
    /// Its size in bytes.
    pub size_bytes: u64,
    /// Its contents.
    pub data: Vec<u8>,
}

/// Where content sits on a sheet along one axis: `Start` is the side the origin is on —
/// the left, and the bottom — because that is where a PDF measures from (8.3.2.3).
#[derive(Debug, Clone, Copy, PartialEq, Eq, Structural)]
pub enum Align {
    /// Against the origin: left, or bottom.
    Start,
    /// In the middle.
    Middle,
    /// Against the far edge: right, or top.
    End,
}

impl Default for Align {
    fn default() -> (r: Self)
        ensures
            r == Align::Middle,
    {
        Align::Middle
    }
}

/// One item of a bookmark tree (12.3.3).
#[derive(Debug)]
pub struct OutlineNode {
    /// The title shown for the item.
    pub title: String,
    /// The page it goes to, counted from 0.
    pub destination_page: usize,
    /// The items beneath it.
    pub children: Vec<OutlineNode>,
}

/// A whole bookmark tree.
#[derive(Debug)]
pub struct OutlineTree {
    /// The top-level items.
    pub items: Vec<OutlineNode>,
}

impl Default for OutlineTree {
    fn default() -> (r: Self)
        ensures
            r.items@.len() == 0,
    {
        OutlineTree { items: Vec::new() }
    }
}

/// Whether an optional content group is shown when the document opens.
#[derive(Debug, Clone, Copy, PartialEq, Eq, Structural)]
pub enum VisibilityState {
    /// Shown.
    On,
    /// Hidden.
    Off,
}

impl Default for VisibilityState {
    fn default() -> (r: Self)
        ensures
            r == VisibilityState::On,
    {
        VisibilityState::On
    }
}

/// One optional content group, or layer (8.11). `name` is its identity: Table 96 gives a
/// group `/Name` and nothing else that identifies it.
#[derive(Debug, Clone, PartialEq, Eq)]
pub struct LayerGroup {
    /// The name shown for the layer, and what an operation names it by.
    pub name: String,
    /// Whether it is shown when the document opens.
    pub default_state: VisibilityState,
    /// Whether it is printed.
    pub printable: bool,
}

/// The layers a document defines.
#[derive(Debug, Clone, PartialEq, Eq)]
pub struct OptionalContentProperties {
    /// The layers.
    pub layers: Vec<LayerGroup>,
}

impl Default for OptionalContentProperties {
    fn default() -> (r: Self)
        ensures
            r.layers@.len() == 0,
    {
        OptionalContentProperties { layers: Vec::new() }
    }
}

/// How an associated file relates to what it is attached to (14.13).
#[derive(Debug, Clone, Copy, PartialEq, Eq, Structural)]
pub enum AFRelationship {
    /// The original source, such as a drawing or a word-processor file.
    Source,
    /// Structured data, such as CSV or XML.
    Data,
    /// Supplemental information.
    Supplement,
    /// An alternative representation.
    Alternative,
    /// Not stated.
    Unspecified,
}

impl Default for AFRelationship {
    fn default() -> (r: Self)
        ensures
            r == AFRelationship::Unspecified,
    {
        AFRelationship::Unspecified
    }
}

/// An associated file (`/AF`) to attach.
#[derive(Debug, Clone, PartialEq, Eq)]
pub struct AssociatedFile {
    /// Its file name.
    pub filename: String,
    /// How it relates to what it is attached to.
    pub relationship: AFRelationship,
    /// Its MIME type.
    pub mime_type: String,
    /// Its contents.
    pub data: Vec<u8>,
}

/// An output intent to write (14.11.5).
#[derive(Debug, Clone, PartialEq, Eq)]
pub struct OutputIntent {
    /// The subtype, such as `GTS_PDFA1`.
    pub subtype: String,
    /// The output condition's identifier.
    pub identifier: String,
    /// More about the condition.
    pub info: Option<String>,
    /// The ICC profile, when one is embedded.
    pub icc_profile_bytes: Option<Vec<u8>>,
}

/// The value of a form field.
#[derive(Debug, Clone, PartialEq, Eq)]
pub enum FormValue {
    /// Text.
    Text(String),
    /// One choice among several.
    Choice(String),
    /// A check box's state.
    Boolean(bool),
}

/// A form field and the value to give it.
#[derive(Debug, Clone, PartialEq, Eq)]
pub struct FormFieldSpec {
    /// The fully qualified field name.
    pub name: String,
    /// The value.
    pub value: FormValue,
}

/// A numbering style for page labels (12.4.2).
#[derive(Debug, Clone, Copy, PartialEq, Eq, Structural)]
pub enum PageLabelStyle {
    /// Decimal Arabic numerals.
    Decimal,
    /// Upper-case Roman numerals.
    UpperRoman,
    /// Lower-case Roman numerals.
    LowerRoman,
    /// Upper-case letters.
    UpperAlpha,
    /// Lower-case letters.
    LowerAlpha,
}

impl Default for PageLabelStyle {
    fn default() -> (r: Self)
        ensures
            r == PageLabelStyle::Decimal,
    {
        PageLabelStyle::Decimal
    }
}

/// A page label range to write (`/PageLabels`).
#[derive(Debug, Clone, PartialEq, Eq)]
pub struct PageLabelSpec {
    /// The first page of the range, counted from 0.
    pub start_page: usize,
    /// The numbering style.
    pub style: PageLabelStyle,
    /// A prefix before the number, such as `Appendix-`.
    pub prefix: Option<String>,
    /// The number the range starts at.
    pub start_number: u32,
}

/// How one page gives way to the next (12.4.4).
#[derive(Debug, Clone, Copy, PartialEq, Eq, Structural)]
pub enum TransitionStyle {
    /// Split.
    Split,
    /// Blinds.
    Blinds,
    /// Box.
    Box,
    /// Wipe.
    Wipe,
    /// Dissolve.
    Dissolve,
    /// Glitter.
    Glitter,
    /// Fly.
    Fly,
}

impl Default for TransitionStyle {
    fn default() -> (r: Self)
        ensures
            r == TransitionStyle::Split,
    {
        TransitionStyle::Split
    }
}

/// The mesh shading types, 4 to 7 (8.7.4.5).
#[derive(Debug, Clone, Copy, PartialEq, Eq, Structural)]
pub enum MeshShadingType {
    /// Type 4: a free-form triangle mesh.
    FreeFormTriangleMesh,
    /// Type 5: a lattice-form triangle mesh.
    LatticeFormTriangleMesh,
    /// Type 6: a Coons patch mesh.
    CoonsPatchMesh,
    /// Type 7: a tensor-product patch mesh.
    TensorProductPatchMesh,
}

impl MeshShadingType {
    /// The `/ShadingType` number this type is written as.
    pub fn number(self) -> (r: u8)
        ensures
            r == match self {
                MeshShadingType::FreeFormTriangleMesh => 4u8,
                MeshShadingType::LatticeFormTriangleMesh => 5u8,
                MeshShadingType::CoonsPatchMesh => 6u8,
                MeshShadingType::TensorProductPatchMesh => 7u8,
            },
    {
        match self {
            MeshShadingType::FreeFormTriangleMesh => 4,
            MeshShadingType::LatticeFormTriangleMesh => 5,
            MeshShadingType::CoonsPatchMesh => 6,
            MeshShadingType::TensorProductPatchMesh => 7,
        }
    }
}

impl Default for MeshShadingType {
    fn default() -> (r: Self)
        ensures
            r == MeshShadingType::FreeFormTriangleMesh,
    {
        MeshShadingType::FreeFormTriangleMesh
    }
}

/// A mesh shading to write.
#[derive(Debug, Clone, PartialEq, Eq)]
pub struct MeshShadingSpec {
    /// The shading type.
    pub shading_type: MeshShadingType,
    /// The colour space's name.
    pub color_space: String,
    /// The shading stream's bytes.
    pub data_bytes: Vec<u8>,
}

/// An unencrypted wrapper document (7.6.7) to write around an encrypted payload.
#[derive(Debug, Clone, PartialEq, Eq)]
pub struct UnencryptedWrapperSpec {
    /// What a reader that cannot open the payload is shown.
    pub notice_message: String,
    /// The encrypted payload.
    pub encrypted_payload_bytes: Vec<u8>,
}

/// One recipient of a public-key security handler (7.6.5).
#[derive(Debug, Clone, PartialEq, Eq)]
pub struct PublicKeyRecipientSpec {
    /// The recipient's DER-encoded X.509 certificate.
    pub certificate_der_bytes: Vec<u8>,
    /// The file key, encrypted for this recipient.
    pub encrypted_key_bytes: Vec<u8>,
}

} // verus!
