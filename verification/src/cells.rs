//! The set of grid cells a path may visit.

use vstd::prelude::*;
use crate::point::{in_grid, lemma_cell_index, GridPoint};

verus! {

/// A subset of the cells of a square grid, answering membership in constant
/// time.
pub struct CellSet {
    grid_size: i16,
    mask: Vec<bool>,
}

/// The cells of `pts` that lie on a grid of side `g`.
pub open spec fn cells_of(pts: Seq<GridPoint>, g: int) -> Set<(int, int)> {
    Set::new(
        |c: (int, int)|
            in_grid(g, c.0, c.1) && exists|k: int|
                0 <= k < pts.len() && (#[trigger] pts[k]).x == c.0 && pts[k].y == c.1,
    )
}

impl CellSet {
    /// Side of the grid; a side that is not positive gives a grid without cells.
    pub closed spec fn side(&self) -> int {
        self.grid_size as int
    }

    /// The permitted cells, as pairs of coordinates. The mask numbers the
    /// cells row by row and is only as long as the cells set so far need.
    pub closed spec fn view(&self) -> Set<(int, int)> {
        Set::new(
            |c: (int, int)|
                in_grid(self.grid_size as int, c.0, c.1) && c.0 * self.grid_size + c.1
                    < self.mask@.len() && self.mask@[c.0 * self.grid_size + c.1],
        )
    }

    /// The empty set over a grid of the given side.
    pub fn new(grid_size: i16) -> (set: CellSet)
        ensures
            set.side() == grid_size,
            set@ == Set::<(int, int)>::empty(),
    {
        let set = CellSet { grid_size, mask: Vec::new() };
        proof {
            assert forall|c: (int, int)| !set@.contains(c) by {
                if in_grid(grid_size as int, c.0, c.1) {
                    lemma_cell_index(grid_size as int, c.0, c.1, c.0, c.1);
                }
            }
            assert(set@ =~= Set::<(int, int)>::empty());
        }
        set
    }

    /// Side of the grid.
    pub fn grid_size(&self) -> (g: i16)
        ensures
            g == self.side(),
    {
        self.grid_size
    }

    /// Whether the cell at `p` is permitted.
    pub fn contains(&self, p: GridPoint) -> (found: bool)
        ensures
            found == self@.contains((p.x as int, p.y as int)),
    {
        let g: i32 = self.grid_size as i32;
        if p.x < 0 || p.x >= g || p.y < 0 || p.y >= g {
            return false;
        }
        proof {
            lemma_cell_index(g as int, p.x as int, p.y as int, p.x as int, p.y as int);
            assert(g * g <= 32767 * 32767) by (nonlinear_arith)
                requires
                    0 <= g <= 32767,
            ;
        }
        let idx: usize = (p.x as usize) * (g as usize) + (p.y as usize);
        idx < self.mask.len() && self.mask[idx]
    }

    /// Permits the cell at `p`. A point off the grid is left out; the result
    /// says whether `p` is on the grid.
    pub fn insert(&mut self, p: GridPoint) -> (on_grid: bool)
        ensures
            final(self).side() == old(self).side(),
            on_grid == in_grid(old(self).side(), p.x as int, p.y as int),
            final(self)@ == (if on_grid {
                old(self)@.insert((p.x as int, p.y as int))
            } else {
                old(self)@
            }),
    {
        let g: i32 = self.grid_size as i32;
        if p.x < 0 || p.x >= g || p.y < 0 || p.y >= g {
            return false;
        }
        proof {
            lemma_cell_index(g as int, p.x as int, p.y as int, p.x as int, p.y as int);
            assert(g * g <= 32767 * 32767) by (nonlinear_arith)
                requires
                    0 <= g <= 32767,
            ;
        }
        let idx: usize = (p.x as usize) * (g as usize) + (p.y as usize);
        while self.mask.len() <= idx
            invariant
                self.grid_size == old(self).grid_size,
                old(self).mask@.len() <= self.mask@.len(),
                forall|t: int| 0 <= t < old(self).mask@.len() ==> self.mask@[t] == old(self).mask@[t],
                forall|t: int| old(self).mask@.len() <= t < self.mask@.len() ==> !self.mask@[t],
                idx < 32767 * 32767,
            decreases idx + 1 - self.mask.len(),
        {
            self.mask.push(false);
        }
        self.mask.set(idx, true);
        proof {
            let cell = (p.x as int, p.y as int);
            assert forall|c: (int, int)|
                self@.contains(c) == old(self)@.insert(cell).contains(c) by {
                if in_grid(g as int, c.0, c.1) {
                    lemma_cell_index(g as int, p.x as int, p.y as int, c.0, c.1);
                }
            }
            assert(self@ =~= old(self)@.insert(cell));
        }
        true
    }

    /// The set of those points of `pts` that lie on a grid of the given side.
    pub fn from_points(grid_size: i16, pts: &Vec<GridPoint>) -> (set: CellSet)
        ensures
            set.side() == grid_size,
            set@ == cells_of(pts@, grid_size as int),
    {
        let mut set = CellSet::new(grid_size);
        let mut k: usize = 0;
        assert(set@ =~= cells_of(pts@.take(0), grid_size as int));
        while k < pts.len()
            invariant
                k <= pts.len(),
                set.side() == grid_size,
                set@ == cells_of(pts@.take(k as int), grid_size as int),
            decreases pts.len() - k,
        {
            let p = pts[k];
            let ghost before = set@;
            let on_grid = set.insert(p);
            proof {
                let g = grid_size as int;
                let shorter = pts@.take(k as int);
                let longer = pts@.take(k + 1);
                assert(longer[k as int] == p);
                assert forall|c: (int, int)|
                    set@.contains(c) == cells_of(longer, g).contains(c) by {
                    if cells_of(longer, g).contains(c) {
                        let t = choose|t: int|
                            0 <= t < longer.len() && (#[trigger] longer[t]).x == c.0 && longer[t].y
                                == c.1;
                        if t < k {
                            assert(shorter[t] == longer[t]);
                        }
                    }
                    if before.contains(c) {
                        let t = choose|t: int|
                            0 <= t < shorter.len() && (#[trigger] shorter[t]).x == c.0
                                && shorter[t].y == c.1;
                        assert(longer[t] == shorter[t]);
                    }
                }
                assert(set@ =~= cells_of(longer, g));
            }
            k += 1;
        }
        assert(pts@.take(k as int) =~= pts@);
        set
    }
}

impl Clone for CellSet {
    /// An independent copy with the same cells.
    fn clone(&self) -> (copy: CellSet)
        ensures
            copy.side() == self.side(),
            copy@ == self@,
    {
        let copy = CellSet { grid_size: self.grid_size, mask: self.mask.clone() };
        assert(copy.mask@ =~= self.mask@);
        copy
    }
}

} // verus!
