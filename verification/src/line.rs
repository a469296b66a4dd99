//! The polyline: an ordered run of grid points.

use vstd::prelude::*;
use crate::point::GridPoint;

verus! {

/// An ordered sequence of grid vertices together with the side of the grid
/// they live on.
#[derive(Debug)]
pub struct PolyLine {
    pub nodes: Vec<GridPoint>,
    pub grid_size: i16,
}

impl View for PolyLine {
    type V = Seq<GridPoint>;

    open spec fn view(&self) -> Seq<GridPoint> {
        self.nodes@
    }
}

impl PolyLine {
    /// A line over the given vertices.
    pub fn new(pts: Vec<GridPoint>, grid_size: i16) -> (line: PolyLine)
        ensures
            line.nodes == pts,
            line.grid_size == grid_size,
    {
        PolyLine { nodes: pts, grid_size }
    }
}

impl Clone for PolyLine {
    /// An independent copy with the same vertices.
    fn clone(&self) -> (copy: PolyLine)
        ensures
            copy@ == self@,
            copy.grid_size == self.grid_size,
    {
        PolyLine { nodes: self.nodes.clone(), grid_size: self.grid_size }
    }
}

} // verus!
