//! Two-dimensional cell coordinates.

use vstd::prelude::*;

verus! {

/// A grid coordinate: `x` indexes columns (0 is column "A"), `y` indexes rows.
#[derive(Debug, PartialEq, Eq, Structural, Hash, Copy, Clone)]
pub struct CellPos {
    pub x: usize,
    pub y: usize,
}

impl CellPos {
    /// Builds the coordinate `(x, y)`.
    pub fn new(x: usize, y: usize) -> (r: CellPos)
        ensures
            r.x == x,
            r.y == y,
    {
        CellPos { x, y }
    }

    /// The signed displacement from `self` to `other`, component-wise.
    pub fn offset(&self, other: &CellPos) -> (r: (i32, i32))
        requires
            other.x - self.x <= i32::MAX,
            other.x - self.x >= i32::MIN,
            other.y - self.y <= i32::MAX,
            other.y - self.y >= i32::MIN,
        ensures
            r.0 == other.x - self.x,
            r.1 == other.y - self.y,
    {
        let x = if other.x >= self.x {
            (other.x - self.x) as i32
        } else {
            (0i32 - ((self.x - other.x - 1) as i32)) - 1
        };
        let y = if other.y >= self.y {
            (other.y - self.y) as i32
        } else {
            (0i32 - ((self.y - other.y - 1) as i32)) - 1
        };
        (x, y)
    }

    /// Component-wise sum of two coordinates.
    pub fn plus(self, other: CellPos) -> (r: CellPos)
        requires
            self.x + other.x <= usize::MAX,
            self.y + other.y <= usize::MAX,
        ensures
            r.x == self.x + other.x,
            r.y == self.y + other.y,
    {
        CellPos { x: self.x + other.x, y: self.y + other.y }
    }

    /// Component-wise saturating difference: moving left of column 0 or above
    /// row 0 pins to 0.
    pub fn saturating_minus(self, other: CellPos) -> (r: CellPos)
        ensures
            r.x == if self.x >= other.x { self.x - other.x } else { 0int },
            r.y == if self.y >= other.y { self.y - other.y } else { 0int },
    {
        CellPos {
            x: if self.x >= other.x { self.x - other.x } else { 0 },
            y: if self.y >= other.y { self.y - other.y } else { 0 },
        }
    }
}

impl Default for CellPos {
    /// The origin `(0, 0)`.
    fn default() -> (r: CellPos)
        ensures
            r.x == 0,
            r.y == 0,
    {
        CellPos { x: 0, y: 0 }
    }
}

} // verus!
