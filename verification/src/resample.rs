//! Resampling of a line at equally spaced positions along its length.
//!
//! Length is measured as the running sum of squared step lengths, so that
//! every position is an exact ratio of integers: which segment a sample
//! falls on, and how far beyond the start of that segment.

use vstd::prelude::*;
use crate::line::PolyLine;
use crate::point::GridPoint;

verus! {

/// Squared Euclidean distance between two grid points.
pub open spec fn dist2(a: GridPoint, b: GridPoint) -> int {
    (b.x - a.x) * (b.x - a.x) + (b.y - a.y) * (b.y - a.y)
}

/// Length of the line up to vertex `m`: the sum of the squared lengths of
/// its first `m` steps.
pub open spec fn length2(line: Seq<GridPoint>, m: int) -> int
    decreases m,
{
    if m <= 0 {
        0
    } else {
        length2(line, m - 1) + dist2(line[m - 1], line[m])
    }
}

/// Length of the whole line.
pub open spec fn total_length2(line: Seq<GridPoint>) -> int {
    length2(line, line.len() - 1)
}

/// A position on a line: the segment from vertex `segment` to the next one,
/// and how far beyond the start of that segment the position lies. The
/// offset counts in units of one `n`-th of a unit of length, `n` being the
/// number of samples asked for.
#[derive(Clone, Copy, Debug, PartialEq, Eq, Structural)]
pub struct SamplePos {
    pub segment: usize,
    pub offset: u128,
}

/// Why a line cannot be resampled.
#[derive(Clone, Copy, Debug, PartialEq, Eq, Structural)]
pub enum ResampleError {
    /// No sample was asked for.
    NoSamples,
    /// The line has no length: it is empty, a single vertex, or never moves.
    Degenerate,
    /// The length of the line does not fit in 64 bits.
    TooLong,
}

/// Whether `pos` is sample `k` of `n`: the position at length
/// `k * total / n`, on the one segment that begins at or before that length
/// and ends beyond it.
pub open spec fn is_sample(line: Seq<GridPoint>, n: int, k: int, pos: SamplePos) -> bool {
    &&& pos.segment + 1 < line.len()
    &&& length2(line, pos.segment as int) * n <= k * total_length2(line)
    &&& k * total_length2(line) < length2(line, pos.segment + 1) * n
    &&& pos.offset == k * total_length2(line) - length2(line, pos.segment as int) * n
}

/// Length never decreases along the line.
pub proof fn lemma_length2_monotone(line: Seq<GridPoint>, a: int, b: int)
    requires
        a <= b,
    ensures
        0 <= length2(line, a) <= length2(line, b),
    decreases b - a, b,
{
    if a < b {
        lemma_length2_monotone(line, a, b - 1);
        if b > 0 {
            let p = line[b - 1];
            let q = line[b];
            assert(dist2(p, q) >= 0) by (nonlinear_arith)
                requires
                    dist2(p, q) == (q.x - p.x) * (q.x - p.x) + (q.y - p.y) * (q.y - p.y),
            ;
        }
    } else if a > 0 {
        lemma_length2_monotone(line, a - 1, a - 1);
        let p = line[a - 1];
        let q = line[a];
        assert(dist2(p, q) >= 0) by (nonlinear_arith)
            requires
                dist2(p, q) == (q.x - p.x) * (q.x - p.x) + (q.y - p.y) * (q.y - p.y),
        ;
    }
}

/// A sample index names one position: two positions that both are sample
/// `k` of `n` are the same.
pub proof fn lemma_sample_unique(line: Seq<GridPoint>, n: int, k: int, a: SamplePos, b: SamplePos)
    requires
        n >= 1,
        is_sample(line, n, k, a),
        is_sample(line, n, k, b),
    ensures
        a == b,
{
    let t = k * total_length2(line);
    if a.segment < b.segment {
        lemma_length2_monotone(line, a.segment + 1, b.segment as int);
        let x = length2(line, a.segment + 1);
        let y = length2(line, b.segment as int);
        assert(x * n <= y * n) by (nonlinear_arith)
            requires
                x <= y,
                n >= 1,
        ;
    } else if b.segment < a.segment {
        lemma_length2_monotone(line, b.segment + 1, a.segment as int);
        let x = length2(line, b.segment + 1);
        let y = length2(line, a.segment as int);
        assert(x * n <= y * n) by (nonlinear_arith)
            requires
                x <= y,
                n >= 1,
        ;
    }
}

/// Squared distance between two grid points, computed without overflow.
fn step_length2(a: GridPoint, b: GridPoint) -> (s: u128)
    ensures
        s == dist2(a, b),
        s <= 2 * 0xffff_ffff * 0xffff_ffff,
{
    let dx: i128 = b.x as i128 - a.x as i128;
    let dy: i128 = b.y as i128 - a.y as i128;
    assert(0 <= dx * dx <= 0xffff_ffff * 0xffff_ffff) by (nonlinear_arith)
        requires
            -0xffff_ffff <= dx <= 0xffff_ffff,
    ;
    assert(0 <= dy * dy <= 0xffff_ffff * 0xffff_ffff) by (nonlinear_arith)
        requires
            -0xffff_ffff <= dy <= 0xffff_ffff,
    ;
    (dx * dx + dy * dy) as u128
}

impl PolyLine {
    /// The positions of `n` samples spaced equally along the line, the
    /// first at its start: sample `k` lies at length `k * total / n`.
    ///
    /// A line without length is refused, and so is one whose length does
    /// not fit in 64 bits.
    pub fn resample(&self, n: usize) -> (r: Result<Vec<SamplePos>, ResampleError>)
        ensures
            match r {
                Ok(v) => {
                    &&& n >= 1
                    &&& 0 < total_length2(self@) <= u64::MAX
                    &&& v@.len() == n
                    &&& forall|k: int| 0 <= k < n ==> is_sample(self@, n as int, k, #[trigger] v@[k])
                },
                Err(ResampleError::NoSamples) => n == 0,
                Err(ResampleError::Degenerate) => n >= 1 && total_length2(self@) == 0,
                Err(ResampleError::TooLong) => n >= 1 && total_length2(self@) > u64::MAX,
            },
    {
        if n == 0 {
            return Err(ResampleError::NoSamples);
        }
        let len = self.nodes.len();
        let mut cum: Vec<u64> = Vec::new();
        cum.push(0);
        let mut m: usize = 1;
        while m < len
            invariant
                n >= 1,
                len == self.nodes.len(),
                1 <= m,
                m <= len || len == 0,
                cum@.len() == m,
                forall|t: int| 0 <= t < m ==> cum@[t] == length2(self@, t),
            decreases len - m,
        {
            let step = step_length2(self.nodes[m - 1], self.nodes[m]);
            let sum: u128 = cum[m - 1] as u128 + step;
            if sum > u64::MAX as u128 {
                proof {
                    assert(length2(self@, m as int) == sum);
                    lemma_length2_monotone(self@, m as int, len - 1);
                }
                return Err(ResampleError::TooLong);
            }
            cum.push(sum as u64);
            m += 1;
        }
        let total: u64 = if len == 0 {
            0
        } else {
            cum[len - 1]
        };
        assert(total == total_length2(self@));
        if total == 0 {
            return Err(ResampleError::Degenerate);
        }
        let mut out: Vec<SamplePos> = Vec::new();
        let mut end: usize = 0;
        let mut k: usize = 0;
        while k < n
            invariant
                len == self.nodes.len(),
                len >= 1,
                cum@.len() == len,
                forall|t: int| 0 <= t < len ==> cum@[t] == length2(self@, t),
                total == total_length2(self@),
                total > 0,
                k <= n,
                out@.len() == k,
                end < len,
                end == 0 || cum@[end - 1] * n <= k * total,
                forall|t: int| 0 <= t < k ==> is_sample(self@, n as int, t, #[trigger] out@[t]),
            decreases n - k,
        {
            assert(k * total < n * total && k * total <= 0xffff_ffff_ffff_ffff * 0xffff_ffff_ffff_ffff)
                by (nonlinear_arith)
                requires
                    0 <= k < n <= 0xffff_ffff_ffff_ffff,
                    0 < total <= 0xffff_ffff_ffff_ffff,
            ;
            let target: u128 = (k as u128) * (total as u128);
            assert(cum@[0] == length2(self@, 0));
            loop
                invariant
                    len == self.nodes.len(),
                    cum@.len() == len,
                    cum@[len - 1] == total,
                    cum@[0] == 0,
                    target == k * total,
                    target < n * total,
                    end < len,
                    end == 0 || cum@[end - 1] * n <= target,
                ensures
                    cum@[end as int] * n > target,
                decreases len - end,
            {
                let c = cum[end];
                assert(c * n <= 0xffff_ffff_ffff_ffff * 0xffff_ffff_ffff_ffff) by (nonlinear_arith)
                    requires
                        0 <= c <= 0xffff_ffff_ffff_ffff,
                        0 <= n <= 0xffff_ffff_ffff_ffff,
                ;
                if (c as u128) * (n as u128) > target {
                    break ;
                }
                assert(end != len - 1) by (nonlinear_arith)
                    requires
                        c * n <= target,
                        target < n * total,
                        end == len - 1 ==> c == total,
                ;
                end += 1;
            }
            assert(end >= 1) by (nonlinear_arith)
                requires
                    cum@[end as int] * n > target,
                    end == 0 ==> cum@[end as int] == 0,
            ;
            let before = cum[end - 1];
            assert(before * n <= 0xffff_ffff_ffff_ffff * 0xffff_ffff_ffff_ffff) by (nonlinear_arith)
                requires
                    0 <= before <= 0xffff_ffff_ffff_ffff,
                    0 <= n <= 0xffff_ffff_ffff_ffff,
            ;
            let pos = SamplePos { segment: end - 1, offset: target - (before as u128) * (n as u128) };
            out.push(pos);
            assert(is_sample(self@, n as int, k as int, pos));
            assert((k + 1) * total >= k * total) by (nonlinear_arith)
                requires
                    total > 0,
            ;
            k += 1;
        }
        Ok(out)
    }
}

} // verus!
