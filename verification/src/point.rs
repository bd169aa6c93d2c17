//! Grid coordinates.

use vstd::prelude::*;

verus! {

/// A cell position: `x` is the column, `y` is the row.
#[derive(Debug, Clone, Copy, PartialEq, Eq, Structural)]
pub struct Point {
    /// The horizontal coordinate (column).
    pub x: u16,
    /// The vertical coordinate (row).
    pub y: u16,
}

impl Point {
    /// Creates the point with the given column and row.
    pub fn new(x: u16, y: u16) -> (p: Point)
        ensures
            p.x == x,
            p.y == y,
    {
        Point { x, y }
    }
}

} // verus!
