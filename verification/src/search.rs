//! Exhaustive enumeration of the closed lines that start at the origin.
//!
//! The search is a depth-first walk: from the end of the line it tries each
//! candidate in order; a candidate that is the first vertex completes a
//! line, any other is walked into. The walk keeps its own stack of frames,
//! one for each vertex of the line, and hands out the completed lines one
//! at a time.

use vstd::prelude::*;
use vstd::set_lib::{lemma_int_range, lemma_len_subset, set_int_range};
use crate::cells::CellSet;
use crate::line::PolyLine;
use crate::neighbors::{
    admissible,
    closes,
    crowded,
    crowds,
    lemma_near_points_admissible,
    near_points_spec,
    NeiborNodes,
};
use crate::point::{abs_diff, in_grid, lemma_cell_index, GridPoint};
use crate::resample::{dist2, length2, lemma_length2_monotone, total_length2};

verus! {

/// Where every line starts.
pub open spec fn origin() -> GridPoint {
    GridPoint { x: 0, y: 0 }
}

/// Number of cells of a grid of side `g`.
pub open spec fn grid_cells(g: int) -> int {
    if g > 0 {
        g * g
    } else {
        0
    }
}

/// Whether vertex `k` of `line` was a candidate after the vertices before
/// it, and one that did not close the line.
pub open spec fn extends(cells: Set<(int, int)>, g: int, d: int, line: Seq<GridPoint>, k: int) -> bool {
    near_points_spec(cells, line.take(k), line[k - 1], d, g).contains(line[k]) && line[k] != line[0]
}

/// A line the search can stand at: it has a first vertex, and each later
/// vertex extends the vertices before it.
pub open spec fn search_prefix(cells: Set<(int, int)>, g: int, d: int, line: Seq<GridPoint>) -> bool {
    line.len() >= 1 && forall|k: int| 1 <= k < line.len() ==> #[trigger] extends(cells, g, d, line, k)
}

/// A completed line: a line the search can stand at, followed by a
/// candidate that is its first vertex. It ends where it began and has at
/// least six vertices before the closing one.
pub open spec fn closed_line(cells: Set<(int, int)>, g: int, d: int, line: Seq<GridPoint>) -> bool {
    &&& line.len() >= 7
    &&& line.first() == line.last()
    &&& search_prefix(cells, g, d, line.drop_last())
    &&& near_points_spec(cells, line.drop_last(), line[line.len() - 2], d, g).contains(line.last())
}

/// The completed lines that the search finds below `line`, in the order it
/// finds them, starting with candidate number `from` of the end of `line`.
///
/// A line that the search can stand at never has more vertices than the
/// grid has cells, and one more (`lemma_prefix_bounded`); the first test
/// only makes the definition well-founded.
pub open spec fn completions_from(
    cells: Set<(int, int)>,
    g: int,
    d: int,
    line: Seq<GridPoint>,
    from: int,
) -> Seq<Seq<GridPoint>>
    decreases grid_cells(g) + 2 - line.len(), near_points_spec(cells, line, line.last(), d, g).len()
        - from,
{
    let cands = near_points_spec(cells, line, line.last(), d, g);
    if line.len() > grid_cells(g) + 1 || from < 0 || from >= cands.len() {
        Seq::empty()
    } else {
        let c = cands[from];
        let below = if c == line[0] {
            seq![line.push(c)]
        } else {
            completions_from(cells, g, d, line.push(c), 0)
        };
        below + completions_from(cells, g, d, line, from + 1)
    }
}

/// All completed lines that begin with `line`, in the order of the search.
pub open spec fn completions(cells: Set<(int, int)>, g: int, d: int, line: Seq<GridPoint>) -> Seq<
    Seq<GridPoint>,
> {
    completions_from(cells, g, d, line, 0)
}

/// Steps the walk still takes below `line`, starting with candidate `from`.
pub closed spec fn effort_from(
    cells: Set<(int, int)>,
    g: int,
    d: int,
    line: Seq<GridPoint>,
    from: int,
) -> nat
    decreases grid_cells(g) + 2 - line.len(), near_points_spec(cells, line, line.last(), d, g).len()
        - from,
{
    let cands = near_points_spec(cells, line, line.last(), d, g);
    if line.len() > grid_cells(g) + 1 || from < 0 || from >= cands.len() {
        0
    } else {
        let c = cands[from];
        let below = if c == line[0] {
            0
        } else {
            1 + effort_from(cells, g, d, line.push(c), 0)
        };
        1 + below + effort_from(cells, g, d, line, from + 1)
    }
}

/// The completed lines still to come from the lowest `k` frames of a walk
/// that stands at `line`, frame `t` being at candidate `nexts[t]`.
pub open spec fn pending(
    cells: Set<(int, int)>,
    g: int,
    d: int,
    line: Seq<GridPoint>,
    nexts: Seq<int>,
    k: int,
) -> Seq<Seq<GridPoint>>
    decreases k,
{
    if k <= 0 {
        Seq::empty()
    } else {
        completions_from(cells, g, d, line.take(k), nexts[k - 1]) + pending(
            cells,
            g,
            d,
            line,
            nexts,
            k - 1,
        )
    }
}

/// Steps the walk still takes in its lowest `k` frames.
pub closed spec fn pending_effort(
    cells: Set<(int, int)>,
    g: int,
    d: int,
    line: Seq<GridPoint>,
    nexts: Seq<int>,
    k: int,
) -> nat
    decreases k,
{
    if k <= 0 {
        0
    } else {
        1 + effort_from(cells, g, d, line.take(k), nexts[k - 1]) + pending_effort(
            cells,
            g,
            d,
            line,
            nexts,
            k - 1,
        )
    }
}

/// What is pending in the lowest `k` frames depends only on the first `k`
/// vertices and on those frames.
proof fn lemma_pending_stable(
    cells: Set<(int, int)>,
    g: int,
    d: int,
    line1: Seq<GridPoint>,
    nexts1: Seq<int>,
    line2: Seq<GridPoint>,
    nexts2: Seq<int>,
    k: int,
)
    requires
        0 <= k <= line1.len(),
        k <= line2.len(),
        k <= nexts1.len(),
        k <= nexts2.len(),
        forall|t: int| 0 <= t < k ==> line1[t] == line2[t],
        forall|t: int| 0 <= t < k ==> nexts1[t] == nexts2[t],
    ensures
        pending(cells, g, d, line1, nexts1, k) == pending(cells, g, d, line2, nexts2, k),
        pending_effort(cells, g, d, line1, nexts1, k) == pending_effort(cells, g, d, line2, nexts2, k),
    decreases k,
{
    if k > 0 {
        lemma_pending_stable(cells, g, d, line1, nexts1, line2, nexts2, k - 1);
        assert(line1.take(k) =~= line2.take(k));
    }
}

/// A vertex that extends a line is on the grid and permitted, no earlier
/// vertex crowds it, and it lies at Chebyshev distance `d` from the vertex
/// before it.
pub proof fn lemma_prefix_step(cells: Set<(int, int)>, g: int, d: int, line: Seq<GridPoint>, b: int)
    requires
        d >= 1,
        g <= 0x7fff,
        search_prefix(cells, g, d, line),
        1 <= b < line.len(),
    ensures
        in_grid(g, line[b].x as int, line[b].y as int),
        cells.contains((line[b].x as int, line[b].y as int)),
        !crowded(line.take(b), line[b].x as int, line[b].y as int, d),
        abs_diff(line[b].x as int, line[b - 1].x as int) <= d,
        abs_diff(line[b].y as int, line[b - 1].y as int) <= d,
        abs_diff(line[b].x as int, line[b - 1].x as int) == d || abs_diff(
            line[b].y as int,
            line[b - 1].y as int,
        ) == d,
{
    assert(extends(cells, g, d, line, b));
    let cands = near_points_spec(cells, line.take(b), line[b - 1], d, g);
    let idx = choose|idx: int| 0 <= idx < cands.len() && cands[idx] == line[b];
    lemma_near_points_admissible(cells, line.take(b), line[b - 1], d, g, idx);
    assert(line.take(b)[0] == line[0]);
    assert(admissible(cells, line.take(b), d, g, line[b].x as int, line[b].y as int));
    assert(!closes(line.take(b), line[b].x as int, line[b].y as int));
}

/// The separation rule along a line: no vertex lies inside the box around
/// an earlier one.
pub proof fn lemma_prefix_separated(
    cells: Set<(int, int)>,
    g: int,
    d: int,
    line: Seq<GridPoint>,
    a: int,
    b: int,
)
    requires
        d >= 1,
        g <= 0x7fff,
        search_prefix(cells, g, d, line),
        0 <= a < b < line.len(),
    ensures
        !crowds(line[a], line[b].x as int, line[b].y as int, d),
        line[a] != line[b],
{
    lemma_prefix_step(cells, g, d, line, b);
    assert(line.take(b)[a] == line[a]);
}

/// A line the search can stand at has at most one vertex more than the
/// grid has cells.
pub proof fn lemma_prefix_bounded(cells: Set<(int, int)>, g: int, d: int, line: Seq<GridPoint>)
    requires
        d >= 1,
        g <= 0x7fff,
        search_prefix(cells, g, d, line),
    ensures
        line.len() <= grid_cells(g) + 1,
{
    let tail = line.drop_first();
    let codes = Seq::new(tail.len(), |k: int| tail[k].x * g + tail[k].y);
    assert forall|a: int, b: int|
        0 <= a < codes.len() && 0 <= b < codes.len() && a != b implies codes[a] != codes[b] by {
        lemma_prefix_step(cells, g, d, line, a + 1);
        lemma_prefix_step(cells, g, d, line, b + 1);
        if a < b {
            lemma_prefix_separated(cells, g, d, line, a + 1, b + 1);
        } else {
            lemma_prefix_separated(cells, g, d, line, b + 1, a + 1);
        }
        lemma_cell_index(
            g,
            line[a + 1].x as int,
            line[a + 1].y as int,
            line[b + 1].x as int,
            line[b + 1].y as int,
        );
    }
    assert(codes.no_duplicates());
    codes.unique_seq_to_set();
    if tail.len() > 0 {
        lemma_prefix_step(cells, g, d, line, 1);
        assert(g > 0);
        assert(g * g >= 0) by (nonlinear_arith);
        lemma_int_range(0, g * g);
        assert forall|code: int| codes.to_set().contains(code) implies set_int_range(
            0,
            g * g,
        ).contains(code) by {
            let k = choose|k: int| 0 <= k < codes.len() && codes[k] == code;
            lemma_prefix_step(cells, g, d, line, k + 1);
            lemma_cell_index(
                g,
                line[k + 1].x as int,
                line[k + 1].y as int,
                line[k + 1].x as int,
                line[k + 1].y as int,
            );
        }
        lemma_len_subset(codes.to_set(), set_int_range(0, g * g));
    }
}

/// The first vertices of a line the search can stand at are such a line.
proof fn lemma_prefix_take(cells: Set<(int, int)>, g: int, d: int, line: Seq<GridPoint>, m: int)
    requires
        search_prefix(cells, g, d, line),
        1 <= m <= line.len(),
    ensures
        search_prefix(cells, g, d, line.take(m)),
{
    let short = line.take(m);
    assert forall|k: int| 1 <= k < short.len() implies #[trigger] extends(cells, g, d, short, k) by {
        assert(extends(cells, g, d, line, k));
        assert(short.take(k) =~= line.take(k));
    }
}

/// A candidate that does not close the line extends it.
proof fn lemma_prefix_push(cells: Set<(int, int)>, g: int, d: int, line: Seq<GridPoint>, c: GridPoint)
    requires
        search_prefix(cells, g, d, line),
        near_points_spec(cells, line, line.last(), d, g).contains(c),
        c != line[0],
    ensures
        search_prefix(cells, g, d, line.push(c)),
{
    let long = line.push(c);
    assert forall|k: int| 1 <= k < long.len() implies #[trigger] extends(cells, g, d, long, k) by {
        if k < line.len() {
            assert(extends(cells, g, d, line, k));
            assert(long.take(k) =~= line.take(k));
        } else {
            assert(long.take(k) =~= line);
        }
    }
}

/// Every line the search completes is closed: it ends where it began, has
/// at least six vertices before the closing one, and each of its vertices
/// but the first was a candidate after the vertices before it. It begins
/// with the line it was found below.
pub proof fn lemma_completions_closed(
    cells: Set<(int, int)>,
    g: int,
    d: int,
    line: Seq<GridPoint>,
    from: int,
    t: int,
)
    requires
        d >= 1,
        g <= 0x7fff,
        search_prefix(cells, g, d, line),
        0 <= t < completions_from(cells, g, d, line, from).len(),
    ensures
        closed_line(cells, g, d, completions_from(cells, g, d, line, from)[t]),
        completions_from(cells, g, d, line, from)[t].len() > line.len(),
        completions_from(cells, g, d, line, from)[t].take(line.len() as int) == line,
    decreases grid_cells(g) + 2 - line.len(), near_points_spec(cells, line, line.last(), d, g).len()
        - from,
{
    let cands = near_points_spec(cells, line, line.last(), d, g);
    let c = cands[from];
    let below = if c == line[0] {
        seq![line.push(c)]
    } else {
        completions_from(cells, g, d, line.push(c), 0)
    };
    if t < below.len() {
        if c == line[0] {
            let done = line.push(c);
            lemma_near_points_admissible(cells, line, line.last(), d, g, from);
            assert(crowds(line[0], c.x as int, c.y as int, d));
            assert(closes(line, c.x as int, c.y as int));
            assert(done.drop_last() =~= line);
            assert(done.take(line.len() as int) =~= line);
        } else {
            lemma_prefix_push(cells, g, d, line, c);
            lemma_completions_closed(cells, g, d, line.push(c), 0, t);
            let done = completions_from(cells, g, d, line.push(c), 0)[t];
            let n = line.len() as int;
            assert(done.take(n) =~= done.take(n + 1).take(n));
            assert(line.push(c).take(line.len() as int) =~= line);
        }
    } else {
        lemma_completions_closed(cells, g, d, line, from + 1, t - below.len());
    }
}

/// Every line still pending in the frames of a walk is closed.
proof fn lemma_pending_closed(
    cells: Set<(int, int)>,
    g: int,
    d: int,
    line: Seq<GridPoint>,
    nexts: Seq<int>,
    k: int,
    t: int,
)
    requires
        d >= 1,
        g <= 0x7fff,
        search_prefix(cells, g, d, line),
        0 <= k <= line.len(),
        0 <= t < pending(cells, g, d, line, nexts, k).len(),
    ensures
        closed_line(cells, g, d, pending(cells, g, d, line, nexts, k)[t]),
    decreases k,
{
    let top = completions_from(cells, g, d, line.take(k), nexts[k - 1]);
    if t < top.len() {
        lemma_prefix_take(cells, g, d, line, k);
        lemma_completions_closed(cells, g, d, line.take(k), nexts[k - 1], t);
    } else {
        lemma_pending_closed(cells, g, d, line, nexts, k - 1, t - top.len());
    }
}

/// The separation rule in a completed line: of its vertices before the
/// closing one, none lies inside the box of half-width `d` around another.
pub proof fn lemma_closed_line_separated(
    cells: Set<(int, int)>,
    g: int,
    d: int,
    line: Seq<GridPoint>,
    a: int,
    b: int,
)
    requires
        d >= 1,
        g <= 0x7fff,
        closed_line(cells, g, d, line),
        0 <= a < b < line.len() - 1,
    ensures
        !crowds(line[a], line[b].x as int, line[b].y as int, d),
        !crowds(line[b], line[a].x as int, line[a].y as int, d),
{
    lemma_prefix_separated(cells, g, d, line.drop_last(), a, b);
}

/// The length of a line is at most `m` times the longest step.
proof fn lemma_length2_bound(line: Seq<GridPoint>, m: int, side: int)
    requires
        0 <= m < line.len(),
        forall|k: int| 0 <= k < line.len() ==> in_grid(side, (#[trigger] line[k]).x as int, line[k].y as int),
    ensures
        length2(line, m) <= m * (2 * side * side),
    decreases m,
{
    if m > 0 {
        lemma_length2_bound(line, m - 1, side);
        let p = line[m - 1];
        let q = line[m];
        assert(dist2(p, q) <= 2 * side * side) by (nonlinear_arith)
            requires
                dist2(p, q) == (q.x - p.x) * (q.x - p.x) + (q.y - p.y) * (q.y - p.y),
                0 <= p.x < side,
                0 <= p.y < side,
                0 <= q.x < side,
                0 <= q.y < side,
        ;
        assert(m * (2 * side * side) == (m - 1) * (2 * side * side) + 2 * side * side)
            by (nonlinear_arith);
    } else {
        assert(m * (2 * side * side) == 0) by (nonlinear_arith)
            requires
                m == 0,
        ;
    }
}

/// A completed line can be resampled: it has length, and its length fits
/// in 64 bits.
pub proof fn lemma_closed_line_length(cells: Set<(int, int)>, g: int, d: int, line: Seq<GridPoint>)
    requires
        d >= 1,
        g <= 0x7fff,
        closed_line(cells, g, d, line),
    ensures
        0 < total_length2(line) <= u64::MAX,
{
    let open = line.drop_last();
    lemma_prefix_bounded(cells, g, d, open);
    lemma_prefix_step(cells, g, d, open, 1);
    let p = line[0];
    let q = line[1];
    assert(dist2(p, q) >= 1) by (nonlinear_arith)
        requires
            dist2(p, q) == (q.x - p.x) * (q.x - p.x) + (q.y - p.y) * (q.y - p.y),
            q.x - p.x >= 1 || p.x - q.x >= 1 || q.y - p.y >= 1 || p.y - q.y >= 1,
    ;
    assert(length2(line, 1) == length2(line, 0) + dist2(p, q));
    lemma_length2_monotone(line, 1, line.len() - 1);
    let last_cands = near_points_spec(cells, open, line[line.len() - 2], d, g);
    let idx = choose|idx: int| 0 <= idx < last_cands.len() && last_cands[idx] == line.last();
    lemma_near_points_admissible(cells, open, line[line.len() - 2], d, g, idx);
    assert forall|k: int| 0 <= k < line.len() implies in_grid(
        g,
        (#[trigger] line[k]).x as int,
        line[k].y as int,
    ) by {
        if 1 <= k < line.len() - 1 {
            lemma_prefix_step(cells, g, d, open, k);
        }
    }
    lemma_length2_bound(line, line.len() - 1, g);
    let m = line.len() - 1;
    assert(m * (2 * g * g) <= 0xffff_ffff_ffff_ffff) by (nonlinear_arith)
        requires
            0 <= m <= g * g + 1,
            0 < g <= 0x7fff,
    ;
}

/// One level of the walk: the candidates after a vertex, and which of
/// them comes next.
struct Frame {
    cands: Vec<GridPoint>,
    next: usize,
}

/// What one step of the walk did.
enum Step {
    Done,
    Found(PolyLine),
    Moved,
}

/// The search for closed lines over a set of permitted cells.
pub struct GenPolyLines {
    cells: CellSet,
    line_buf: PolyLine,
    dist: i32,
    frames: Vec<Frame>,
}

impl GenPolyLines {
    /// The permitted cells.
    pub closed spec fn permitted(&self) -> Set<(int, int)> {
        self.cells@
    }

    /// Side of the grid.
    pub closed spec fn side(&self) -> int {
        self.line_buf.grid_size as int
    }

    /// Minimum separation between vertices.
    pub closed spec fn spacing(&self) -> int {
        self.dist as int
    }

    /// The line the walk stands at.
    pub closed spec fn line(&self) -> Seq<GridPoint> {
        self.line_buf@
    }

    spec fn nexts(&self) -> Seq<int> {
        Seq::new(self.frames@.len(), |k: int| self.frames@[k].next as int)
    }

    spec fn frame_ok(&self, k: int) -> bool {
        self.frames@[k].cands@ == near_points_spec(
            self.cells@,
            self.line_buf@.take(k + 1),
            self.line_buf@[k],
            self.dist as int,
            self.line_buf.grid_size as int,
        )
    }

    /// The invariant of the walk: it stands at a line that the search can
    /// reach, with one frame for each vertex of it, or it has run out.
    pub closed spec fn wf(&self) -> bool {
        &&& self.dist >= 1
        &&& search_prefix(
            self.cells@,
            self.line_buf.grid_size as int,
            self.dist as int,
            self.line_buf@,
        )
        &&& (self.frames@.len() == 0 || self.frames@.len() == self.line_buf@.len())
        &&& forall|k: int| 0 <= k < self.frames@.len() ==> #[trigger] self.frame_ok(k)
    }

    /// The completed lines that are still to come, in order.
    pub closed spec fn remaining(&self) -> Seq<Seq<GridPoint>> {
        pending(
            self.cells@,
            self.line_buf.grid_size as int,
            self.dist as int,
            self.line_buf@,
            self.nexts(),
            self.frames@.len() as int,
        )
    }

    spec fn effort(&self) -> nat {
        pending_effort(
            self.cells@,
            self.line_buf.grid_size as int,
            self.dist as int,
            self.line_buf@,
            self.nexts(),
            self.frames@.len() as int,
        )
    }

    /// A search over the cells `z` of a grid of side `grid_size`, with
    /// vertices kept `dist` apart. It starts at the origin and has all
    /// closed lines from there still to come.
    pub fn new(z: CellSet, grid_size: i16, dist: i32) -> (search: GenPolyLines)
        requires
            dist >= 1,
        ensures
            search.wf(),
            search.permitted() == z@,
            search.side() == grid_size,
            search.spacing() == dist,
            search.line() == seq![origin()],
            search.remaining() == completions(z@, grid_size as int, dist as int, seq![origin()]),
    {
        let start_point = GridPoint { x: 0, y: 0 };
        let mut nodes: Vec<GridPoint> = Vec::new();
        nodes.push(start_point);
        let line_buf = PolyLine::new(nodes, grid_size);
        let cands = NeiborNodes::near_points(&z, &line_buf, start_point, dist, grid_size);
        let mut frames: Vec<Frame> = Vec::new();
        frames.push(Frame { cands, next: 0 });
        let search = GenPolyLines { cells: z, line_buf, dist, frames };
        proof {
            let line = search.line_buf@;
            assert(line =~= seq![origin()]);
            assert(line.take(1) =~= line);
            assert(search.frame_ok(0));
            let g = grid_size as int;
            let d = dist as int;
            assert(pending(z@, g, d, line, search.nexts(), 0) =~= Seq::<Seq<GridPoint>>::empty());
            assert(search.remaining() =~= completions_from(z@, g, d, line, 0));
        }
        search
    }

    /// One step of the walk.
    fn advance(&mut self) -> (out: Step)
        requires
            old(self).wf(),
        ensures
            final(self).wf(),
            final(self).permitted() == old(self).permitted(),
            final(self).side() == old(self).side(),
            final(self).spacing() == old(self).spacing(),
            match out {
                Step::Done => old(self).remaining().len() == 0 && final(self).remaining().len() == 0,
                Step::Found(found) => old(self).remaining() == seq![found@] + final(self).remaining()
                    && found.grid_size == old(self).side(),
                Step::Moved => final(self).remaining() == old(self).remaining()
                    && final(self).effort() < old(self).effort(),
            },
    {
        let depth = self.frames.len();
        if depth == 0 {
            return Step::Done;
        }
        let ghost cells = self.cells@;
        let ghost g = self.line_buf.grid_size as int;
        let ghost d = self.dist as int;
        let ghost line0 = self.line_buf@;
        let ghost nexts0 = self.nexts();
        let ghost frames0 = self.frames@;
        proof {
            lemma_prefix_bounded(cells, g, d, line0);
            assert(line0.take(depth as int) =~= line0);
            assert(self.frame_ok(depth - 1));
        }
        let mut top = self.frames.pop().unwrap();
        let ghost from = top.next as int;
        if top.next >= top.cands.len() {
            if depth >= 2 {
                self.line_buf.nodes.pop();
            }
            proof {
                let line1 = self.line_buf@;
                let m = if depth >= 2 {
                    depth - 1
                } else {
                    1
                };
                assert(line1 =~= line0.take(m));
                lemma_prefix_take(cells, g, d, line0, m);
                assert forall|k: int| 0 <= k < self.frames@.len() implies #[trigger] self.frame_ok(
                    k,
                ) by {
                    assert(old(self).frame_ok(k));
                    assert(line1.take(k + 1) =~= line0.take(k + 1));
                }
                lemma_pending_stable(cells, g, d, line0, nexts0, line1, self.nexts(), depth - 1);
                assert(completions_from(cells, g, d, line0, from) =~= Seq::<Seq<GridPoint>>::empty());
                assert(old(self).remaining() =~= self.remaining());
            }
            return Step::Moved;
        }
        let c = top.cands[top.next];
        top.next = top.next + 1;
        let first = self.line_buf.nodes[0];
        proof {
            assert(near_points_spec(cells, line0, line0.last(), d, g)[from] == c);
        }
        if c == first {
            let mut found = self.line_buf.clone();
            found.nodes.push(c);
            self.frames.push(top);
            proof {
                assert forall|k: int| 0 <= k < self.frames@.len() implies #[trigger] self.frame_ok(
                    k,
                ) by {
                    assert(old(self).frame_ok(k));
                }
                lemma_pending_stable(cells, g, d, line0, nexts0, line0, self.nexts(), depth - 1);
                assert(found@ =~= line0.push(c));
                assert(old(self).remaining() =~= seq![found@] + self.remaining());
            }
            return Step::Found(found);
        }
        self.frames.push(top);
        self.line_buf.nodes.push(c);
        let cands = NeiborNodes::near_points(
            &self.cells,
            &self.line_buf,
            c,
            self.dist,
            self.line_buf.grid_size,
        );
        self.frames.push(Frame { cands, next: 0 });
        proof {
            let line1 = self.line_buf@;
            let nexts1 = self.nexts();
            assert(line1 =~= line0.push(c));
            lemma_prefix_push(cells, g, d, line0, c);
            assert forall|k: int| 0 <= k < self.frames@.len() implies #[trigger] self.frame_ok(k) by {
                if k < depth {
                    assert(old(self).frame_ok(k));
                    assert(line1.take(k + 1) =~= line0.take(k + 1));
                } else {
                    assert(line1.take(k + 1) =~= line1);
                }
            }
            lemma_pending_stable(cells, g, d, line0, nexts0, line1, nexts1, depth - 1);
            assert(line1.take(depth as int) =~= line0);
            assert(line1.take(depth + 1) =~= line1);
            assert(pending(cells, g, d, line1, nexts1, depth as int) == completions_from(
                cells,
                g,
                d,
                line0,
                from + 1,
            ) + pending(cells, g, d, line1, nexts1, depth - 1));
            assert(old(self).remaining() =~= self.remaining());
            assert(pending_effort(cells, g, d, line1, nexts1, depth as int) == 1 + effort_from(
                cells,
                g,
                d,
                line0,
                from + 1,
            ) + pending_effort(cells, g, d, line1, nexts1, depth - 1));
            assert(effort_from(cells, g, d, line0, from) == 2 + effort_from(cells, g, d, line1, 0)
                + effort_from(cells, g, d, line0, from + 1));
        }
        Step::Moved
    }

    /// The next completed line of the search, or `None` when there is no
    /// more. The line is a copy of its own: it includes the closing vertex
    /// and does not change with the search.
    pub fn next_line(&mut self) -> (found: Option<PolyLine>)
        requires
            old(self).wf(),
        ensures
            final(self).wf(),
            final(self).permitted() == old(self).permitted(),
            final(self).side() == old(self).side(),
            final(self).spacing() == old(self).spacing(),
            match found {
                Some(line) => {
                    &&& old(self).remaining().len() > 0
                    &&& line@ == old(self).remaining()[0]
                    &&& line.grid_size == old(self).side()
                    &&& final(self).remaining() == old(self).remaining().drop_first()
                    &&& closed_line(
                        old(self).permitted(),
                        old(self).side(),
                        old(self).spacing(),
                        line@,
                    )
                },
                None => old(self).remaining().len() == 0 && final(self).remaining().len() == 0,
            },
    {
        loop
            invariant
                self.wf(),
                self.permitted() == old(self).permitted(),
                self.side() == old(self).side(),
                self.spacing() == old(self).spacing(),
                self.remaining() == old(self).remaining(),
            decreases self.effort(),
        {
            let ghost before = self.remaining();
            proof {
                if before.len() > 0 {
                    lemma_pending_closed(
                        self.cells@,
                        self.line_buf.grid_size as int,
                        self.dist as int,
                        self.line_buf@,
                        self.nexts(),
                        self.frames@.len() as int,
                        0,
                    );
                }
            }
            match self.advance() {
                Step::Done => {
                    return None;
                },
                Step::Found(line) => {
                    assert(self.remaining() =~= before.drop_first());
                    return Some(line);
                },
                Step::Moved => {},
            }
        }
    }
}

impl GenPolyLines {
    /// Runs the search to its end and appends each completed line to
    /// `out`, in the order the search finds them.
    pub fn complete_line(&mut self, out: &mut Vec<PolyLine>)
        requires
            old(self).wf(),
        ensures
            final(self).wf(),
            final(self).permitted() == old(self).permitted(),
            final(self).side() == old(self).side(),
            final(self).spacing() == old(self).spacing(),
            final(self).remaining().len() == 0,
            final(out)@.len() == old(out)@.len() + old(self).remaining().len(),
            forall|i: int| 0 <= i < old(out)@.len() ==> final(out)@[i] == old(out)@[i],
            forall|i: int|
                0 <= i < old(self).remaining().len() ==> (#[trigger] final(out)@[old(out)@.len()
                    + i])@ == old(self).remaining()[i],
    {
        let ghost all = self.remaining();
        let ghost base = out@.len();
        let ghost done: int = 0;
        loop
            invariant
                self.wf(),
                self.permitted() == old(self).permitted(),
                self.side() == old(self).side(),
                self.spacing() == old(self).spacing(),
                all == old(self).remaining(),
                base == old(out)@.len(),
                0 <= done <= all.len(),
                self.remaining() == all.skip(done),
                out@.len() == base + done,
                forall|i: int| 0 <= i < base ==> out@[i] == old(out)@[i],
                forall|i: int| 0 <= i < done ==> (#[trigger] out@[base + i])@ == all[i],
            decreases all.len() - done,
        {
            match self.next_line() {
                Some(line) => {
                    out.push(line);
                    proof {
                        assert(all.skip(done).drop_first() =~= all.skip(done + 1));
                        assert(all.skip(done)[0] == all[done]);
                        done = done + 1;
                    }
                },
                None => {
                    return ;
                },
            }
        }
    }
}

impl Clone for GenPolyLines {
    /// An independent search at the same point: it has the same lines still
    /// to come.
    fn clone(&self) -> (copy: GenPolyLines)
        ensures
            copy.permitted() == self.permitted(),
            copy.side() == self.side(),
            copy.spacing() == self.spacing(),
            copy.line() == self.line(),
            copy.remaining() == self.remaining(),
            self.wf() ==> copy.wf(),
    {
        let mut frames: Vec<Frame> = Vec::new();
        let mut k: usize = 0;
        while k < self.frames.len()
            invariant
                k <= self.frames@.len(),
                frames@.len() == k,
                forall|t: int|
                    0 <= t < k ==> (#[trigger] frames@[t]).cands@ == self.frames@[t].cands@
                        && frames@[t].next == self.frames@[t].next,
            decreases self.frames@.len() - k,
        {
            let frame = &self.frames[k];
            frames.push(Frame { cands: frame.cands.clone(), next: frame.next });
            k += 1;
        }
        let copy = GenPolyLines {
            cells: self.cells.clone(),
            line_buf: self.line_buf.clone(),
            dist: self.dist,
            frames,
        };
        proof {
            assert(copy.nexts() =~= self.nexts());
            if self.wf() {
                assert forall|t: int| 0 <= t < copy.frames@.len() implies #[trigger] copy.frame_ok(
                    t,
                ) by {
                    assert(self.frame_ok(t));
                }
            }
        }
        copy
    }
}

/// A search depends on nothing but its cells, side and spacing: two
/// searches that were made alike have the same lines to come, in the same
/// order.
pub proof fn lemma_search_repeatable(a: GenPolyLines, b: GenPolyLines)
    requires
        a.permitted() == b.permitted(),
        a.side() == b.side(),
        a.spacing() == b.spacing(),
        a.remaining() == completions(a.permitted(), a.side(), a.spacing(), seq![origin()]),
        b.remaining() == completions(b.permitted(), b.side(), b.spacing(), seq![origin()]),
    ensures
        a.remaining() == b.remaining(),
{
}

} // verus!
