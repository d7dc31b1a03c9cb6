//! The logical structure's dictionaries (14.7).

use crate::object::Object;
use vstd::prelude::*;

verus! {

/// The structure tree root (14.7.2).
pub struct StructTreeRoot {
    /// `/K`: the root's child structure elements.
    pub kids: Option<Object>,
    /// `/ParentTree`: the number tree linking content back to structure, by object
    /// number.
    pub parent_tree: Option<u32>,
}

/// A structure element (14.7.3). The type is optional because real files omit `/S` or
/// `/P`, and a reader skips such elements rather than failing on them.
pub struct StructElement {
    /// `/S`: the structure type.
    pub subtype: Option<String>,
    /// `/P`: the enclosing structure element, by object number.
    pub parent: Option<u32>,
    /// `/K`: this element's children.
    pub kids: Option<Object>,
    /// `/Alt`: alternative description for assistive technology.
    pub alt: Option<String>,
    /// `/ActualText`: the text this element actually represents.
    pub actual_text: Option<String>,
}

} // verus!
