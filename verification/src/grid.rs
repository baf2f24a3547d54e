use vstd::prelude::*;

verus! {

/// An unsigned two-dimensional cell coordinate or cell extent.
#[derive(Clone, Copy, Debug, PartialEq, Eq, Structural)]
pub struct UVec2 {
    pub x: u32,
    pub y: u32,
}

impl UVec2 {
    pub fn new(x: u32, y: u32) -> (r: UVec2)
        ensures
            r.x == x,
            r.y == y,
    {
        UVec2 { x, y }
    }

    /// The origin cell `(0, 0)`.
    pub fn zero() -> (r: UVec2)
        ensures
            r.x == 0,
            r.y == 0,
    {
        UVec2 { x: 0, y: 0 }
    }

    /// The extent of a single cell, `(1, 1)`.
    pub fn one() -> (r: UVec2)
        ensures
            r.x == 1,
            r.y == 1,
    {
        UVec2 { x: 1, y: 1 }
    }

    /// True when either axis is zero: such an extent covers no cell.
    pub open spec fn is_degenerate(self) -> bool {
        self.x == 0 || self.y == 0
    }

    /// True when this extent is wider or taller than `grid`.
    pub open spec fn exceeds(self, grid: UVec2) -> bool {
        self.x > grid.x || self.y > grid.y
    }
}

} // verus!
