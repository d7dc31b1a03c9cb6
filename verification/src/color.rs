//! Colour spaces (8.6), by family.

use vstd::prelude::*;

verus! {

/// The family a colour space belongs to.
#[derive(Debug, Clone, Copy, PartialEq, Eq, Structural)]
pub enum ColorSpaceKind {
    /// DeviceGray.
    DeviceGray,
    /// DeviceRGB.
    DeviceRGB,
    /// DeviceCMYK.
    DeviceCMYK,
    /// CIE-based CalGray.
    CalGray,
    /// CIE-based CalRGB.
    CalRGB,
    /// CIE-based L*a*b*.
    Lab,
    /// ICC-profile based.
    ICCBased,
    /// Pattern space; colour comes from a pattern.
    Pattern,
    /// Indexed palette over a base space.
    Indexed,
    /// Separation (single colorant).
    Separation,
    /// DeviceN (multiple colorants).
    DeviceN,
    /// Unrecognised or absent.
    Unknown,
}

} // verus!
