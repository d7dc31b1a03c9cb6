//! A model of PDF documents (ISO 32000-2): what a file's objects hold, read.
use vstd::prelude::*;

pub mod actions;
pub mod annotation;
pub mod audit;
pub mod catalog;
pub mod color;
pub mod coverage;
pub mod decision;
pub mod document;
pub mod decrypt;
pub mod destination;
pub mod encryption;
pub mod error;
pub mod file_structure;
pub mod filters;
pub mod font;
pub mod function;
pub mod object;
pub mod text;

verus! {
} // verus!
