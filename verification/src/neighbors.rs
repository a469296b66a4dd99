//! Candidate next vertices: the square ring around the end of a path, kept
//! where the grid, the permitted cells and the spacing rule allow.

use vstd::prelude::*;
use crate::cells::CellSet;
use crate::line::PolyLine;
use crate::point::{abs_diff, in_grid, GridPoint};

verus! {

/// Minimum separation between the vertices of a path.
pub const DISTANCE: i32 = 2;

/// Whether `(i, j)` falls inside the box of half-width `d` around `p`, its
/// border left out.
pub open spec fn crowds(p: GridPoint, i: int, j: int, d: int) -> bool {
    abs_diff(p.x as int, i) < d && abs_diff(p.y as int, j) < d
}

/// Whether some vertex of `line` crowds `(i, j)`.
pub open spec fn crowded(line: Seq<GridPoint>, i: int, j: int, d: int) -> bool {
    exists|k: int| 0 <= k < line.len() && crowds(#[trigger] line[k], i, j, d)
}

/// Whether stepping to `(i, j)` closes `line`: the cell is where the line
/// began and the line already has more than five vertices.
pub open spec fn closes(line: Seq<GridPoint>, i: int, j: int) -> bool {
    line.len() > 5 && line[0].x == i && line[0].y == j
}

/// The acceptance rule for one ring cell: on the grid, and then either
/// closing the line or permitted and not crowded by any vertex of the line.
pub open spec fn admissible(
    cells: Set<(int, int)>,
    line: Seq<GridPoint>,
    d: int,
    g: int,
    i: int,
    j: int,
) -> bool {
    in_grid(g, i, j) && (closes(line, i, j) || (cells.contains((i, j)) && !crowded(line, i, j, d)))
}

/// The cells of one edge of a ring: the coordinate that varies runs from
/// `lo` to `hi`, both included, while the other stays at `fixed`.
pub open spec fn edge_cells(lo: int, hi: int, fixed: int, along_x: bool) -> Seq<(int, int)> {
    Seq::new(
        (if hi >= lo {
            hi - lo + 1
        } else {
            0
        }) as nat,
        |k: int|
            if along_x {
                (lo + k, fixed)
            } else {
                (fixed, lo + k)
            },
    )
}

/// The admissible cells among `edge`, in order, as grid points.
pub open spec fn picked(
    cells: Set<(int, int)>,
    line: Seq<GridPoint>,
    d: int,
    g: int,
    edge: Seq<(int, int)>,
) -> Seq<GridPoint>
    decreases edge.len(),
{
    if edge.len() == 0 {
        Seq::empty()
    } else {
        let rest = picked(cells, line, d, g, edge.drop_last());
        let c = edge.last();
        if admissible(cells, line, d, g, c.0, c.1) {
            rest.push(GridPoint { x: c.0 as i32, y: c.1 as i32 })
        } else {
            rest
        }
    }
}

/// The admissible neighbours of `start`: the cells at Chebyshev distance
/// exactly `d`, walked bottom edge left to right, right edge bottom to top,
/// top edge left to right, left edge bottom to top, each kept where
/// `admissible` holds.
pub open spec fn near_points_spec(
    cells: Set<(int, int)>,
    line: Seq<GridPoint>,
    start: GridPoint,
    d: int,
    g: int,
) -> Seq<GridPoint> {
    picked(cells, line, d, g, edge_cells(start.x - d, start.x + d, start.y - d, true)) + picked(
        cells,
        line,
        d,
        g,
        edge_cells(start.y - d + 1, start.y + d - 1, start.x + d, false),
    ) + picked(cells, line, d, g, edge_cells(start.x - d, start.x + d, start.y + d, true))
        + picked(cells, line, d, g, edge_cells(start.y - d + 1, start.y + d - 1, start.x - d, false))
}

/// Every picked point is an admissible cell of the edge it was picked from.
pub proof fn lemma_picked_admissible(
    cells: Set<(int, int)>,
    line: Seq<GridPoint>,
    d: int,
    g: int,
    edge: Seq<(int, int)>,
    k: int,
)
    requires
        g <= i32::MAX,
        0 <= k < picked(cells, line, d, g, edge).len(),
    ensures
        admissible(
            cells,
            line,
            d,
            g,
            picked(cells, line, d, g, edge)[k].x as int,
            picked(cells, line, d, g, edge)[k].y as int,
        ),
        edge.contains(
            (
                picked(cells, line, d, g, edge)[k].x as int,
                picked(cells, line, d, g, edge)[k].y as int,
            ),
        ),
    decreases edge.len(),
{
    let rest = picked(cells, line, d, g, edge.drop_last());
    let c = edge.last();
    if k < rest.len() {
        lemma_picked_admissible(cells, line, d, g, edge.drop_last(), k);
        let cell = (rest[k].x as int, rest[k].y as int);
        let t = choose|t: int| 0 <= t < edge.drop_last().len() && edge.drop_last()[t] == cell;
        assert(edge[t] == cell);
    } else {
        assert(edge[edge.len() - 1] == c);
    }
}

/// Every candidate is on the grid and either closes the line or is a
/// permitted cell that no vertex of the line crowds; it lies at Chebyshev
/// distance `d` from `start`.
pub proof fn lemma_near_points_admissible(
    cells: Set<(int, int)>,
    line: Seq<GridPoint>,
    start: GridPoint,
    d: int,
    g: int,
    k: int,
)
    requires
        g <= i32::MAX,
        0 <= k < near_points_spec(cells, line, start, d, g).len(),
    ensures
        admissible(
            cells,
            line,
            d,
            g,
            near_points_spec(cells, line, start, d, g)[k].x as int,
            near_points_spec(cells, line, start, d, g)[k].y as int,
        ),
        abs_diff(near_points_spec(cells, line, start, d, g)[k].x as int, start.x as int) <= d,
        abs_diff(near_points_spec(cells, line, start, d, g)[k].y as int, start.y as int) <= d,
        abs_diff(near_points_spec(cells, line, start, d, g)[k].x as int, start.x as int) == d
            || abs_diff(near_points_spec(cells, line, start, d, g)[k].y as int, start.y as int)
            == d,
{
    let bottom = edge_cells(start.x - d, start.x + d, start.y - d, true);
    let right = edge_cells(start.y - d + 1, start.y + d - 1, start.x + d, false);
    let top = edge_cells(start.x - d, start.x + d, start.y + d, true);
    let left = edge_cells(start.y - d + 1, start.y + d - 1, start.x - d, false);
    let low = picked(cells, line, d, g, bottom);
    let east = picked(cells, line, d, g, right);
    let high = picked(cells, line, d, g, top);
    let west = picked(cells, line, d, g, left);
    let c = near_points_spec(cells, line, start, d, g)[k];
    let cell = (c.x as int, c.y as int);
    if k < low.len() {
        lemma_picked_admissible(cells, line, d, g, bottom, k);
        let t = choose|t: int| 0 <= t < bottom.len() && bottom[t] == cell;
    } else if k < low.len() + east.len() {
        lemma_picked_admissible(cells, line, d, g, right, k - low.len());
        let t = choose|t: int| 0 <= t < right.len() && right[t] == cell;
    } else if k < low.len() + east.len() + high.len() {
        lemma_picked_admissible(cells, line, d, g, top, k - low.len() - east.len());
        let t = choose|t: int| 0 <= t < top.len() && top[t] == cell;
    } else {
        lemma_picked_admissible(cells, line, d, g, left, k - low.len() - east.len() - high.len());
        let t = choose|t: int| 0 <= t < left.len() && left[t] == cell;
    }
}

/// The acceptance rule, decided for one cell.
fn admits(z: &CellSet, line: &PolyLine, dist: i32, grid_size: i16, i: i64, j: i64) -> (ok: bool)
    requires
        line@.len() >= 1,
    ensures
        ok == admissible(z@, line@, dist as int, grid_size as int, i as int, j as int),
{
    let g: i64 = grid_size as i64;
    if i < 0 || i >= g || j < 0 || j >= g {
        return false;
    }
    let first = line.nodes[0];
    if first.x as i64 == i && first.y as i64 == j && line.nodes.len() > 5 {
        return true;
    }
    let cell = GridPoint { x: i as i32, y: j as i32 };
    if !z.contains(cell) {
        return false;
    }
    let d: i64 = dist as i64;
    let mut k: usize = 0;
    while k < line.nodes.len()
        invariant
            k <= line.nodes.len(),
            d == dist,
            in_grid(grid_size as int, i as int, j as int),
            !closes(line@, i as int, j as int),
            z@.contains((i as int, j as int)),
            forall|t: int| 0 <= t < k ==> !crowds(#[trigger] line@[t], i as int, j as int, dist as int),
        decreases line.nodes.len() - k,
    {
        let p = line.nodes[k];
        let dx: i64 = p.x as i64 - i;
        let dy: i64 = p.y as i64 - j;
        let ax: i64 = if dx < 0 {
            -dx
        } else {
            dx
        };
        let ay: i64 = if dy < 0 {
            -dy
        } else {
            dy
        };
        if ax < d && ay < d {
            assert(crowds(line@[k as int], i as int, j as int, dist as int));
            return false;
        }
        k += 1;
    }
    true
}

/// Appends to `v` the admissible cells of one edge, in order.
fn scan_edge(
    v: &mut Vec<GridPoint>,
    z: &CellSet,
    line: &PolyLine,
    dist: i32,
    grid_size: i16,
    lo: i64,
    hi: i64,
    fixed: i64,
    along_x: bool,
)
    requires
        line@.len() >= 1,
        hi < i64::MAX,
    ensures
        final(v)@ == old(v)@ + picked(
            z@,
            line@,
            dist as int,
            grid_size as int,
            edge_cells(lo as int, hi as int, fixed as int, along_x),
        ),
{
    let ghost before = v@;
    let ghost edge = edge_cells(lo as int, hi as int, fixed as int, along_x);
    let mut t: i64 = lo;
    assert(edge.take(0) =~= Seq::<(int, int)>::empty());
    assert(v@ =~= before + picked(z@, line@, dist as int, grid_size as int, edge.take(0)));
    while t <= hi
        invariant
            line@.len() >= 1,
            hi < i64::MAX,
            (hi < lo && t == lo) || lo <= t <= hi + 1,
            edge == edge_cells(lo as int, hi as int, fixed as int, along_x),
            v@ == before + picked(z@, line@, dist as int, grid_size as int, edge.take(t - lo)),
        decreases hi - t + 1,
    {
        let i: i64 = if along_x {
            t
        } else {
            fixed
        };
        let j: i64 = if along_x {
            fixed
        } else {
            t
        };
        let ok = admits(z, line, dist, grid_size, i, j);
        proof {
            let longer = edge.take(t - lo + 1);
            assert(longer.drop_last() =~= edge.take(t - lo));
            assert(longer.last() == (i as int, j as int));
        }
        if ok {
            v.push(GridPoint { x: i as i32, y: j as i32 });
        }
        assert(v@ =~= before + picked(
            z@,
            line@,
            dist as int,
            grid_size as int,
            edge.take(t - lo + 1),
        ));
        t += 1;
    }
    assert(edge.take(t - lo) =~= edge);
}

/// The candidates for the next vertex after the end of a line.
#[derive(Debug)]
pub struct NeiborNodes {
    pub neibs: Vec<GridPoint>,
    pub grid_size: i16,
}

impl NeiborNodes {
    /// The candidates around `start_point` at the separation `DISTANCE`.
    pub fn new(permited_points: &CellSet, line: &PolyLine, start_point: GridPoint, grid_size: i16) -> (found: NeiborNodes)
        requires
            line@.len() >= 1,
        ensures
            found.grid_size == grid_size,
            found.neibs@ == near_points_spec(
                permited_points@,
                line@,
                start_point,
                DISTANCE as int,
                grid_size as int,
            ),
    {
        NeiborNodes {
            neibs: Self::near_points(permited_points, line, start_point, DISTANCE, grid_size),
            grid_size,
        }
    }

    /// The admissible cells of the ring of radius `dist` around
    /// `start_point`, in perimeter order.
    pub fn near_points(
        z: &CellSet,
        line: &PolyLine,
        start_point: GridPoint,
        dist: i32,
        grid_size: i16,
    ) -> (v: Vec<GridPoint>)
        requires
            line@.len() >= 1,
        ensures
            v@ == near_points_spec(z@, line@, start_point, dist as int, grid_size as int),
    {
        let i0: i64 = start_point.x as i64;
        let j0: i64 = start_point.y as i64;
        let d: i64 = dist as i64;
        let min_i: i64 = i0 - d;
        let min_j: i64 = j0 - d + 1;
        let max_i: i64 = i0 + d;
        let max_j: i64 = j0 + d - 1;
        let mut v: Vec<GridPoint> = Vec::new();
        scan_edge(&mut v, z, line, dist, grid_size, min_i, max_i, min_j - 1, true);
        scan_edge(&mut v, z, line, dist, grid_size, min_j, max_j, max_i, false);
        scan_edge(&mut v, z, line, dist, grid_size, min_i, max_i, max_j + 1, true);
        scan_edge(&mut v, z, line, dist, grid_size, min_j, max_j, min_i, false);
        v
    }
}

} // verus!
