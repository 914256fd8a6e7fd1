//! Small plane-geometry value types: grid points and offset vectors
//! with unsigned coordinates.

use vstd::prelude::*;

verus! {

/// A point on the integer grid (a cell coordinate or the integral part
/// of a port coordinate).
#[derive(Clone, Copy, Debug, PartialEq, Eq, Structural, Hash)]
pub struct Pt2u {
    pub x: u32,
    pub y: u32,
}

/// An offset with unsigned coordinates (the fractional part of a port
/// coordinate, scaled by the board's ports-per-edge plus one).
#[derive(Clone, Copy, Debug, PartialEq, Eq, Structural, Hash)]
pub struct Vec2u {
    pub x: u32,
    pub y: u32,
}

impl Pt2u {
    pub fn new(x: u32, y: u32) -> (r: Pt2u)
        ensures
            r == (Pt2u { x, y }),
    {
        Pt2u { x, y }
    }
}

impl Vec2u {
    pub fn new(x: u32, y: u32) -> (r: Vec2u)
        ensures
            r == (Vec2u { x, y }),
    {
        Vec2u { x, y }
    }
}

/// Convenience constructor mirroring the point-building helper.
pub fn pt2(x: u32, y: u32) -> (r: Pt2u)
    ensures
        r == (Pt2u { x, y }),
{
    Pt2u { x, y }
}

} // verus!
