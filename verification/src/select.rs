//! The search over one contour: every closed line is scored and offered to
//! a bounded collection, and what is kept is handed out by fingerprint.
//!
//! Scoring is the caller's: a function from a line to the integer that
//! stands for its score, or to nothing for a line that has no score.

use vstd::prelude::*;
use crate::cells::CellSet;
use crate::fingerprint::{fingerprint, fingerprints};
use crate::line::PolyLine;
use crate::point::GridPoint;
use crate::retain::{retain_all, Retained, RetentionPolicy, TopKSelector};
use crate::search::{completions, origin, GenPolyLines};

verus! {

/// The candidates that come of `lines` and the scores they were given, in
/// order; a line without a score is passed over.
pub open spec fn candidates(lines: Seq<PolyLine>, keys: Seq<Option<u64>>) -> Seq<Retained<PolyLine>>
    decreases lines.len(),
{
    if lines.len() == 0 {
        Seq::empty()
    } else {
        let before = candidates(lines.drop_last(), keys.drop_last());
        match keys.last() {
            Some(score) => before.push(Retained { score, item: lines.last() }),
            None => before,
        }
    }
}

/// Whether `lines` are the lines `found`, on a grid of side `g`, and `keys`
/// what `calc_sco` gave for each of them.
pub open spec fn scored_by<F: Fn(&PolyLine) -> Option<u64>>(
    calc_sco: F,
    found: Seq<Seq<GridPoint>>,
    g: int,
    lines: Seq<PolyLine>,
    keys: Seq<Option<u64>>,
) -> bool {
    &&& lines.len() == found.len()
    &&& keys.len() == found.len()
    &&& forall|k: int|
        0 <= k < lines.len() ==> {
            &&& (#[trigger] lines[k])@ == found[k]
            &&& lines[k].grid_size == g
            &&& call_ensures(calc_sco, (&lines[k],), keys[k])
        }
}

/// Runs a search to its end. Each completed line is scored by `calc_sco`
/// and, where it has a score, offered to a collection with the given
/// policy and bound. The result is that collection.
pub fn select_top_lines<F: Fn(&PolyLine) -> Option<u64>>(
    search: &mut GenPolyLines,
    policy: RetentionPolicy,
    depth: usize,
    calc_sco: F,
) -> (top: TopKSelector<PolyLine>)
    requires
        old(search).wf(),
        forall|line: &PolyLine| call_requires(calc_sco, (line,)),
    ensures
        final(search).wf(),
        final(search).permitted() == old(search).permitted(),
        final(search).side() == old(search).side(),
        final(search).spacing() == old(search).spacing(),
        final(search).remaining().len() == 0,
        top.wf(),
        top.policy_of() == policy,
        top.bound_of() == depth,
        exists|lines: Seq<PolyLine>, keys: Seq<Option<u64>>|
            #[trigger] scored_by(calc_sco, old(search).remaining(), old(search).side(), lines, keys)
                && top@ == retain_all(policy, depth as nat, candidates(lines, keys)),
{
    let mut top: TopKSelector<PolyLine> = TopKSelector::new(policy, depth);
    let ghost all = search.remaining();
    let ghost side = search.side();
    let ghost mut lines: Seq<PolyLine> = Seq::empty();
    let ghost mut keys: Seq<Option<u64>> = Seq::empty();
    loop
        invariant
            search.wf(),
            search.permitted() == old(search).permitted(),
            search.side() == old(search).side(),
            search.spacing() == old(search).spacing(),
            all == old(search).remaining(),
            side == old(search).side(),
            top.wf(),
            top.policy_of() == policy,
            top.bound_of() == depth,
            forall|line: &PolyLine| call_requires(calc_sco, (line,)),
            lines.len() == keys.len(),
            lines.len() <= all.len(),
            search.remaining() == all.skip(lines.len() as int),
            forall|k: int|
                0 <= k < lines.len() ==> {
                    &&& (#[trigger] lines[k])@ == all[k]
                    &&& lines[k].grid_size == side
                    &&& call_ensures(calc_sco, (&lines[k],), keys[k])
                },
            top@ == retain_all(policy, depth as nat, candidates(lines, keys)),
        decreases all.len() - lines.len(),
    {
        match search.next_line() {
            None => {
                assert(scored_by(calc_sco, all, side, lines, keys));
                return top;
            },
            Some(line) => {
                let key = calc_sco(&line);
                proof {
                    let n = lines.len() as int;
                    assert(all.skip(n)[0] == all[n]);
                    assert(all.skip(n).drop_first() =~= all.skip(n + 1));
                    let before = candidates(lines, keys);
                    let longer = lines.push(line);
                    let more = keys.push(key);
                    assert(longer.drop_last() =~= lines);
                    assert(more.drop_last() =~= keys);
                    if let Some(score) = key {
                        assert(candidates(longer, more).drop_last() =~= before);
                    }
                    lines = longer;
                    keys = more;
                }
                match key {
                    Some(score) => {
                        top.offer(score, line);
                    },
                    None => {},
                }
            },
        }
    }
}

/// The whole search over one contour: the closed lines over the cells `z`,
/// scored by `calc_sco`, the best kept as the policy says, and each of
/// those replaced by its fingerprint.
pub fn select_top_in_contour<F: Fn(&PolyLine) -> Option<u64>>(
    z: CellSet,
    grid_size: i16,
    dist: i32,
    policy: RetentionPolicy,
    depth: usize,
    calc_sco: F,
) -> (out: Vec<Retained<Vec<u8>>>)
    requires
        dist >= 1,
        forall|line: &PolyLine| call_requires(calc_sco, (line,)),
    ensures
        out@.len() <= depth,
        exists|lines: Seq<PolyLine>, keys: Seq<Option<u64>>|
            {
                &&& #[trigger] scored_by(
                    calc_sco,
                    completions(z@, grid_size as int, dist as int, seq![origin()]),
                    grid_size as int,
                    lines,
                    keys,
                )
                &&& out@.len() == retain_all(policy, depth as nat, candidates(lines, keys)).len()
                &&& forall|i: int|
                    0 <= i < out@.len() ==> {
                        &&& (#[trigger] out@[i]).score == retain_all(
                            policy,
                            depth as nat,
                            candidates(lines, keys),
                        )[i].score
                        &&& out@[i].item@ == fingerprint(
                            retain_all(policy, depth as nat, candidates(lines, keys))[i].item@,
                        )
                    }
            },
{
    let mut search = GenPolyLines::new(z, grid_size, dist);
    let top = select_top_lines(&mut search, policy, depth, calc_sco);
    let out = fingerprints(&top);
    proof {
        let found = completions(z@, grid_size as int, dist as int, seq![origin()]);
        let (lines, keys) = choose|lines: Seq<PolyLine>, keys: Seq<Option<u64>>|
            #[trigger] scored_by(calc_sco, found, grid_size as int, lines, keys) && top@
                == retain_all(policy, depth as nat, candidates(lines, keys));
        assert(scored_by(calc_sco, found, grid_size as int, lines, keys));
    }
    out
}

} // verus!
