//! Grid points and the distance the search is stated in.

use vstd::prelude::*;

verus! {

/// A cell of the integer grid.
#[derive(Clone, Copy, Debug, PartialEq, Eq, Structural)]
pub struct GridPoint {
    pub x: i32,
    pub y: i32,
}

/// Distance between two integers.
pub open spec fn abs_diff(a: int, b: int) -> int {
    if a >= b {
        a - b
    } else {
        b - a
    }
}

/// Whether `(i, j)` lies on a square grid of side `g`.
pub open spec fn in_grid(g: int, i: int, j: int) -> bool {
    0 <= i < g && 0 <= j < g
}

/// Cells numbered row by row: the number of a grid cell lies below `g * g`,
/// and distinct cells have distinct numbers.
pub proof fn lemma_cell_index(g: int, i: int, j: int, a: int, b: int)
    requires
        in_grid(g, i, j),
        in_grid(g, a, b),
    ensures
        0 <= i * g + j < g * g,
        i * g + j == a * g + b ==> i == a && j == b,
{
    assert(0 <= i * g + j < g * g) by (nonlinear_arith)
        requires
            0 <= i < g,
            0 <= j < g,
    ;
    assert(i * g + j == a * g + b ==> i == a) by (nonlinear_arith)
        requires
            0 <= i < g,
            0 <= j < g,
            0 <= a < g,
            0 <= b < g,
    ;
}

impl GridPoint {
    /// A point from its two coordinates.
    pub fn new(x: i32, y: i32) -> (p: GridPoint)
        ensures
            p.x == x,
            p.y == y,
    {
        GridPoint { x, y }
    }
}

} // verus!
