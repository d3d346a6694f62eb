//! The material held by one voxel cell.
use vstd::prelude::*;

verus! {

/// An 8-bit-per-channel color.
#[derive(Clone, Copy, Debug, PartialEq, Eq, Hash, Structural)]
pub struct Rgba {
    pub r: u8,
    pub g: u8,
    pub b: u8,
    pub a: u8,
}

/// The material of one cell: color, physically based surface parameters and emission.
/// The all-zero value is the empty cell; every other value is occupied.
#[derive(Clone, Copy, Debug, PartialEq, Eq, Hash, Structural)]
pub struct PbrProps {
    pub color: Rgba,
    pub metallic: u8,
    pub roughness: u8,
    pub reflectance: u8,
    pub emission: u8,
}

impl Rgba {
    pub open spec fn shadow_spec(self, shadowed: bool) -> Rgba {
        if shadowed {
            Rgba { r: self.r / 2, g: self.g / 2, b: self.b / 2, a: self.a }
        } else {
            self
        }
    }

    /// The color darkened for an occluded corner: red, green and blue halved, alpha kept.
    pub fn shadow(&self, shadowed: bool) -> (r: Rgba)
        ensures
            r == self.shadow_spec(shadowed),
    {
        if shadowed {
            Rgba { r: self.r / 2, g: self.g / 2, b: self.b / 2, a: self.a }
        } else {
            *self
        }
    }
}

impl Default for Rgba {
    fn default() -> (r: Rgba)
        ensures
            r == (Rgba { r: 0, g: 0, b: 0, a: 0 }),
    {
        Rgba { r: 0, g: 0, b: 0, a: 0 }
    }
}

/// The empty cell: every field zero.
pub open spec fn empty_cell() -> PbrProps {
    PbrProps {
        color: Rgba { r: 0, g: 0, b: 0, a: 0 },
        metallic: 0,
        roughness: 0,
        reflectance: 0,
        emission: 0,
    }
}

impl PbrProps {
    /// The empty cell.
    pub fn empty() -> (r: PbrProps)
        ensures
            r == empty_cell(),
    {
        PbrProps {
            color: Rgba { r: 0, g: 0, b: 0, a: 0 },
            metallic: 0,
            roughness: 0,
            reflectance: 0,
            emission: 0,
        }
    }

    /// Whether this is the empty cell.
    pub fn is_empty(&self) -> (r: bool)
        ensures
            r == (*self == empty_cell()),
    {
        *self == PbrProps::empty()
    }
}

impl Default for PbrProps {
    fn default() -> (r: PbrProps)
        ensures
            r == empty_cell(),
    {
        PbrProps::empty()
    }
}

} // verus!
