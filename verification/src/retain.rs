//! Bounded retention of the best-scoring candidates.
//!
//! A score is an unsigned integer; a lower score is better. Three policies
//! decide what happens to a candidate once the collection is full.

use vstd::prelude::*;

verus! {

/// How a full collection treats a new candidate.
#[derive(Clone, Copy, Debug, PartialEq, Eq, Structural)]
pub enum RetentionPolicy {
    /// Entries are kept worst first. A candidate enters a full collection
    /// only if it is better than the worst entry, which then leaves.
    SortedDeque,
    /// A candidate whose score is already present is dropped. Any other
    /// candidate takes the place of the worst entry of a full collection,
    /// whether or not it is better.
    UnconditionalReplace,
    /// As `UnconditionalReplace`, but the worst entry of a full collection
    /// gives way only to a strictly better candidate.
    GuardedReplace,
}

/// A retained candidate with its score.
#[derive(Debug)]
pub struct Retained<T> {
    pub score: u64,
    pub item: T,
}

/// Whether some entry has exactly this score.
pub open spec fn has_score<T>(s: Seq<Retained<T>>, score: u64) -> bool {
    exists|i: int| 0 <= i < s.len() && (#[trigger] s[i]).score == score
}

/// Entries in order of score, the worst (highest) first.
pub open spec fn worst_first<T>(s: Seq<Retained<T>>) -> bool {
    forall|i: int, j: int| 0 <= i <= j < s.len() ==> (#[trigger] s[i]).score >= (#[trigger] s[j]).score
}

/// No two entries have the same score.
pub open spec fn distinct_scores<T>(s: Seq<Retained<T>>) -> bool {
    forall|i: int, j: int| 0 <= i < j < s.len() ==> (#[trigger] s[i]).score != (#[trigger] s[j]).score
}

/// Every entry has a score of at most `c`.
pub open spec fn capped<T>(s: Seq<Retained<T>>, c: int) -> bool {
    forall|i: int| 0 <= i < s.len() ==> (#[trigger] s[i]).score <= c
}

/// Where a new score goes among entries kept worst first: behind the last
/// entry that is not better than it.
pub open spec fn insert_at<T>(s: Seq<Retained<T>>, score: u64) -> int
    decreases s.len(),
{
    if s.len() == 0 || s.last().score >= score {
        s.len() as int
    } else {
        insert_at(s.drop_last(), score)
    }
}

/// Index of the worst entry; of several equally bad ones, the last.
pub open spec fn worst_index<T>(s: Seq<Retained<T>>) -> int
    decreases s.len(),
{
    if s.len() <= 1 {
        0
    } else {
        let w = worst_index(s.drop_last());
        if s.last().score >= s[w].score {
            s.len() - 1
        } else {
            w
        }
    }
}

/// Whether the sorted policy lets a candidate with this score in.
pub open spec fn sorted_keeps<T>(bound: nat, s: Seq<Retained<T>>, score: u64) -> bool {
    s.len() < bound || (s.len() > 0 && score < s[0].score)
}

/// One step of the sorted policy.
pub open spec fn sorted_step<T>(bound: nat, s: Seq<Retained<T>>, e: Retained<T>) -> Seq<
    Retained<T>,
> {
    if s.len() < bound {
        s.insert(insert_at(s, e.score), e)
    } else if s.len() > 0 && e.score < s[0].score {
        s.drop_first().insert(insert_at(s.drop_first(), e.score), e)
    } else {
        s
    }
}

/// Whether a replacing policy lets a candidate with this score in.
pub open spec fn replace_keeps<T>(bound: nat, guarded: bool, s: Seq<Retained<T>>, score: u64) -> bool {
    !has_score(s, score) && (s.len() != bound || (s.len() > 0 && (!guarded || s[worst_index(
        s,
    )].score > score)))
}

/// One step of a replacing policy.
pub open spec fn replace_step<T>(bound: nat, guarded: bool, s: Seq<Retained<T>>, e: Retained<T>) -> Seq<
    Retained<T>,
> {
    if !replace_keeps(bound, guarded, s, e.score) {
        s
    } else if s.len() == bound {
        s.update(worst_index(s), e)
    } else {
        s.push(e)
    }
}

/// Whether a candidate with this score enters the collection.
pub open spec fn keeps<T>(policy: RetentionPolicy, bound: nat, s: Seq<Retained<T>>, score: u64) -> bool {
    match policy {
        RetentionPolicy::SortedDeque => sorted_keeps(bound, s, score),
        RetentionPolicy::UnconditionalReplace => replace_keeps(bound, false, s, score),
        RetentionPolicy::GuardedReplace => replace_keeps(bound, true, s, score),
    }
}

/// The collection after one candidate was offered.
pub open spec fn retain_step<T>(
    policy: RetentionPolicy,
    bound: nat,
    s: Seq<Retained<T>>,
    e: Retained<T>,
) -> Seq<Retained<T>> {
    match policy {
        RetentionPolicy::SortedDeque => sorted_step(bound, s, e),
        RetentionPolicy::UnconditionalReplace => replace_step(bound, false, s, e),
        RetentionPolicy::GuardedReplace => replace_step(bound, true, s, e),
    }
}

/// The collection after all of `cands` were offered, in order, to an empty
/// one.
pub open spec fn retain_all<T>(policy: RetentionPolicy, bound: nat, cands: Seq<Retained<T>>) -> Seq<
    Retained<T>,
>
    decreases cands.len(),
{
    if cands.len() == 0 {
        Seq::empty()
    } else {
        retain_step(policy, bound, retain_all(policy, bound, cands.drop_last()), cands.last())
    }
}

/// What every collection satisfies: it is within its bound; under the
/// sorted policy it is kept worst first; under the replacing policies no
/// score occurs twice.
pub open spec fn well_kept<T>(policy: RetentionPolicy, bound: nat, s: Seq<Retained<T>>) -> bool {
    &&& s.len() <= bound
    &&& policy == RetentionPolicy::SortedDeque ==> worst_first(s)
    &&& policy != RetentionPolicy::SortedDeque ==> distinct_scores(s)
}

/// In a collection kept worst first, the entries before `insert_at` are not
/// better than the new score and those from it on are.
pub proof fn lemma_insert_at<T>(s: Seq<Retained<T>>, score: u64)
    requires
        worst_first(s),
    ensures
        0 <= insert_at(s, score) <= s.len(),
        forall|t: int| 0 <= t < insert_at(s, score) ==> (#[trigger] s[t]).score >= score,
        forall|t: int| insert_at(s, score) <= t < s.len() ==> (#[trigger] s[t]).score < score,
    decreases s.len(),
{
    if s.len() == 0 || s.last().score >= score {
        assert forall|t: int| 0 <= t < s.len() implies (#[trigger] s[t]).score >= score by {
            assert(s[t].score >= s[s.len() - 1].score);
        }
    } else {
        let rest = s.drop_last();
        assert forall|i: int, j: int| 0 <= i <= j < rest.len() implies (#[trigger] rest[i]).score
            >= (#[trigger] rest[j]).score by {
            assert(s[i].score >= s[j].score);
        }
        lemma_insert_at(rest, score);
        assert forall|t: int| 0 <= t < insert_at(s, score) implies (#[trigger] s[t]).score
            >= score by {
            assert(rest[t].score >= score);
        }
        assert forall|t: int| insert_at(s, score) <= t < s.len() implies (#[trigger] s[t]).score
            < score by {
            if t < rest.len() {
                assert(rest[t].score < score);
            }
        }
    }
}

/// The worst entry is an entry, and no entry is worse.
pub proof fn lemma_worst_index<T>(s: Seq<Retained<T>>)
    requires
        s.len() > 0,
    ensures
        0 <= worst_index(s) < s.len(),
        capped(s, s[worst_index(s)].score as int),
    decreases s.len(),
{
    if s.len() > 1 {
        let rest = s.drop_last();
        lemma_worst_index(rest);
        let w = worst_index(rest);
        assert forall|i: int| 0 <= i < s.len() implies (#[trigger] s[i]).score <= s[worst_index(
            s,
        )].score by {
            if i < rest.len() {
                assert(rest[i].score <= rest[w].score);
            }
        }
    }
}

/// A step keeps the collection well kept; in particular it never grows
/// beyond its bound.
pub proof fn lemma_step_well_kept<T>(
    policy: RetentionPolicy,
    bound: nat,
    s: Seq<Retained<T>>,
    e: Retained<T>,
)
    requires
        well_kept(policy, bound, s),
    ensures
        well_kept(policy, bound, retain_step(policy, bound, s, e)),
{
    let next = retain_step(policy, bound, s, e);
    match policy {
        RetentionPolicy::SortedDeque => {
            if sorted_keeps(bound, s, e.score) {
                let base = if s.len() < bound {
                    s
                } else {
                    s.drop_first()
                };
                assert forall|i: int, j: int| 0 <= i <= j < base.len() implies (
                #[trigger] base[i]).score >= (#[trigger] base[j]).score by {
                    if s.len() < bound {
                    } else {
                        assert(s[i + 1].score >= s[j + 1].score);
                    }
                }
                lemma_insert_at(base, e.score);
                let p = insert_at(base, e.score);
                assert(next == base.insert(p, e));
                assert forall|i: int, j: int| 0 <= i <= j < next.len() implies (
                #[trigger] next[i]).score >= (#[trigger] next[j]).score by {
                    if i < p && j < p {
                        assert(base[i].score >= base[j].score);
                    } else if i < p && j == p {
                        assert(base[i].score >= e.score);
                    } else if i < p && j > p {
                        assert(base[i].score >= base[j - 1].score);
                    } else if i == p && j > p {
                        assert(base[j - 1].score < e.score);
                    } else if i > p {
                        assert(base[i - 1].score >= base[j - 1].score);
                    }
                }
            }
        },
        _ => {
            let guarded = policy == RetentionPolicy::GuardedReplace;
            if replace_keeps(bound, guarded, s, e.score) {
                if s.len() == bound {
                    lemma_worst_index(s);
                }
                assert forall|i: int, j: int| 0 <= i < j < next.len() implies (
                #[trigger] next[i]).score != (#[trigger] next[j]).score by {
                    if next[i] == e {
                        assert(s[j].score != e.score);
                    } else if next[j] == e {
                        assert(s[i].score != e.score);
                    } else {
                        assert(s[i].score != s[j].score);
                    }
                }
            }
        },
    }
}

/// Whatever was offered, the collection is well kept: it holds no more
/// entries than its bound.
pub proof fn lemma_bound_kept<T>(policy: RetentionPolicy, bound: nat, cands: Seq<Retained<T>>)
    ensures
        well_kept(policy, bound, retain_all(policy, bound, cands)),
        retain_all(policy, bound, cands).len() <= bound,
    decreases cands.len(),
{
    if cands.len() > 0 {
        lemma_bound_kept(policy, bound, cands.drop_last());
        lemma_step_well_kept(
            policy,
            bound,
            retain_all(policy, bound, cands.drop_last()),
            cands.last(),
        );
    }
}

/// Under the sorted and the guarded policy a full collection stays full and
/// gets no worse: a cap on its scores holds after the step too.
pub proof fn lemma_full_step_capped<T>(
    policy: RetentionPolicy,
    bound: nat,
    s: Seq<Retained<T>>,
    e: Retained<T>,
    c: int,
)
    requires
        policy != RetentionPolicy::UnconditionalReplace,
        well_kept(policy, bound, s),
        s.len() == bound,
        capped(s, c),
    ensures
        retain_step(policy, bound, s, e).len() == bound,
        capped(retain_step(policy, bound, s, e), c),
{
    let next = retain_step(policy, bound, s, e);
    if keeps(policy, bound, s, e.score) {
        if policy == RetentionPolicy::SortedDeque {
            let base = s.drop_first();
            assert(s[0].score <= c);
            assert forall|i: int, j: int| 0 <= i <= j < base.len() implies (#[trigger] base[i]).score
                >= (#[trigger] base[j]).score by {
                assert(s[i + 1].score >= s[j + 1].score);
            }
            lemma_insert_at(base, e.score);
            let p = insert_at(base, e.score);
            assert forall|i: int| 0 <= i < next.len() implies (#[trigger] next[i]).score <= c by {
                if i < p {
                    assert(base[i] == s[i + 1]);
                } else if i > p {
                    assert(base[i - 1] == s[i]);
                }
            }
        } else {
            lemma_worst_index(s);
            let w = worst_index(s);
            assert(s[w].score <= c);
            assert forall|i: int| 0 <= i < next.len() implies (#[trigger] next[i]).score <= c by {
                if i != w {
                    assert(next[i] == s[i]);
                }
            }
        }
    }
}

/// A candidate that a full collection turns away is no better than
/// anything in it. Under the guarded policy this is stated of candidates
/// whose score is not already present: a duplicate is dropped whatever its
/// score.
pub proof fn lemma_rejected_not_better<T>(
    policy: RetentionPolicy,
    bound: nat,
    s: Seq<Retained<T>>,
    score: u64,
)
    requires
        policy != RetentionPolicy::UnconditionalReplace,
        well_kept(policy, bound, s),
        s.len() == bound,
        !keeps(policy, bound, s, score),
        policy == RetentionPolicy::GuardedReplace ==> !has_score(s, score),
    ensures
        capped(s, score as int),
{
    if s.len() > 0 {
        if policy == RetentionPolicy::SortedDeque {
            assert forall|i: int| 0 <= i < s.len() implies (#[trigger] s[i]).score <= score by {
                assert(s[0].score >= s[i].score);
            }
        } else {
            lemma_worst_index(s);
        }
    }
}

/// Once full, always full and never worse: if the collection is full after
/// the first `i` candidates and capped by `c` then, it is full and capped by
/// `c` after the first `j`, for every `j` from `i` on.
pub proof fn lemma_floor_holds<T>(
    policy: RetentionPolicy,
    bound: nat,
    cands: Seq<Retained<T>>,
    i: int,
    j: int,
    c: int,
)
    requires
        policy != RetentionPolicy::UnconditionalReplace,
        0 <= i <= j <= cands.len(),
        retain_all(policy, bound, cands.take(i)).len() == bound,
        capped(retain_all(policy, bound, cands.take(i)), c),
    ensures
        retain_all(policy, bound, cands.take(j)).len() == bound,
        capped(retain_all(policy, bound, cands.take(j)), c),
    decreases j - i,
{
    if i < j {
        lemma_floor_holds(policy, bound, cands, i, j - 1, c);
        assert(cands.take(j).drop_last() =~= cands.take(j - 1));
        lemma_bound_kept(policy, bound, cands.take(j - 1));
        lemma_full_step_capped(
            policy,
            bound,
            retain_all(policy, bound, cands.take(j - 1)),
            cands[j - 1],
            c,
        );
    }
}

/// The quality floor of the sorted and the guarded policy: a candidate
/// that was turned away by a full collection is no better than any entry
/// retained then or later. (Under the guarded policy, of candidates whose
/// score was not already present.)
pub proof fn lemma_quality_floor<T>(
    policy: RetentionPolicy,
    bound: nat,
    cands: Seq<Retained<T>>,
    i: int,
    j: int,
    t: int,
)
    requires
        policy != RetentionPolicy::UnconditionalReplace,
        0 <= i < j <= cands.len(),
        retain_all(policy, bound, cands.take(i)).len() == bound,
        !keeps(policy, bound, retain_all(policy, bound, cands.take(i)), cands[i].score),
        policy == RetentionPolicy::GuardedReplace ==> !has_score(
            retain_all(policy, bound, cands.take(i)),
            cands[i].score,
        ),
        0 <= t < retain_all(policy, bound, cands.take(j)).len(),
    ensures
        retain_all(policy, bound, cands.take(j))[t].score <= cands[i].score,
{
    let before = retain_all(policy, bound, cands.take(i));
    lemma_bound_kept(policy, bound, cands.take(i));
    lemma_rejected_not_better(policy, bound, before, cands[i].score);
    lemma_floor_holds(policy, bound, cands, i, j, cands[i].score as int);
}

/// The quality floor for entries that were pushed out: the entry that a
/// full collection gives up for a candidate is no better than any entry
/// retained afterwards.
pub proof fn lemma_evicted_not_better<T>(
    policy: RetentionPolicy,
    bound: nat,
    cands: Seq<Retained<T>>,
    i: int,
    j: int,
    t: int,
)
    requires
        policy != RetentionPolicy::UnconditionalReplace,
        bound > 0,
        0 <= i <= j <= cands.len(),
        retain_all(policy, bound, cands.take(i)).len() == bound,
        0 <= t < retain_all(policy, bound, cands.take(j)).len(),
    ensures
        retain_all(policy, bound, cands.take(j))[t].score <= retain_all(
            policy,
            bound,
            cands.take(i),
        )[worst_index(retain_all(policy, bound, cands.take(i)))].score,
{
    let before = retain_all(policy, bound, cands.take(i));
    lemma_worst_index(before);
    lemma_floor_holds(policy, bound, cands, i, j, before[worst_index(before)].score as int);
}

/// A bounded collection of the best candidates seen so far.
pub struct TopKSelector<T> {
    policy: RetentionPolicy,
    bound: usize,
    entries: Vec<Retained<T>>,
}

impl<T> View for TopKSelector<T> {
    type V = Seq<Retained<T>>;

    closed spec fn view(&self) -> Seq<Retained<T>> {
        self.entries@
    }
}

impl<T> TopKSelector<T> {
    /// The policy the collection was made with.
    pub closed spec fn policy_of(&self) -> RetentionPolicy {
        self.policy
    }

    /// The most entries the collection may hold.
    pub closed spec fn bound_of(&self) -> nat {
        self.bound as nat
    }

    /// The invariant of the collection.
    pub open spec fn wf(&self) -> bool {
        well_kept(self.policy_of(), self.bound_of(), self@)
    }

    /// An empty collection.
    pub fn new(policy: RetentionPolicy, bound: usize) -> (sel: TopKSelector<T>)
        ensures
            sel.wf(),
            sel.policy_of() == policy,
            sel.bound_of() == bound,
            sel@ == Seq::<Retained<T>>::empty(),
    {
        TopKSelector { policy, bound, entries: Vec::new() }
    }

    /// The policy the collection was made with.
    pub fn policy(&self) -> (p: RetentionPolicy)
        ensures
            p == self.policy_of(),
    {
        self.policy
    }

    /// The most entries the collection may hold.
    pub fn bound(&self) -> (b: usize)
        ensures
            b == self.bound_of(),
    {
        self.bound
    }

    /// Number of entries held.
    pub fn len(&self) -> (n: usize)
        ensures
            n == self@.len(),
    {
        self.entries.len()
    }

    /// The entries, in the order the policy keeps them: worst first under
    /// the sorted policy, in order of arrival under the replacing ones.
    pub fn entries(&self) -> (all: &Vec<Retained<T>>)
        ensures
            all@ == self@,
    {
        &self.entries
    }

    /// Gives up the collection for its entries.
    pub fn into_entries(self) -> (all: Vec<Retained<T>>)
        ensures
            all@ == self@,
    {
        self.entries
    }

    /// Where a new score goes among the entries.
    fn position(&self, score: u64) -> (p: usize)
        ensures
            p == insert_at(self@, score),
            p <= self@.len(),
    {
        let mut p: usize = self.entries.len();
        assert(self@.take(p as int) =~= self@);
        while p > 0 && self.entries[p - 1].score < score
            invariant
                p <= self@.len(),
                insert_at(self@, score) == insert_at(self@.take(p as int), score),
            decreases p,
        {
            assert(self@.take(p as int).drop_last() =~= self@.take(p - 1));
            p -= 1;
        }
        p
    }

    /// Whether some entry has exactly this score.
    fn holds_score(&self, score: u64) -> (found: bool)
        ensures
            found == has_score(self@, score),
    {
        let mut i: usize = 0;
        while i < self.entries.len()
            invariant
                i <= self@.len(),
                forall|t: int| 0 <= t < i ==> (#[trigger] self@[t]).score != score,
            decreases self@.len() - i,
        {
            if self.entries[i].score == score {
                return true;
            }
            i += 1;
        }
        false
    }

    /// Index of the worst entry.
    fn worst(&self) -> (w: usize)
        requires
            self@.len() > 0,
        ensures
            w == worst_index(self@),
            w < self@.len(),
    {
        let mut w: usize = 0;
        let mut i: usize = 1;
        assert(worst_index(self@.take(1)) == 0);
        while i < self.entries.len()
            invariant
                1 <= i <= self@.len(),
                w < i,
                w == worst_index(self@.take(i as int)),
            decreases self@.len() - i,
        {
            assert(self@.take(i + 1).drop_last() =~= self@.take(i as int));
            if self.entries[i].score >= self.entries[w].score {
                w = i;
            }
            i += 1;
        }
        assert(self@.take(i as int) =~= self@);
        w
    }

    /// Whether a candidate with this score would enter the collection.
    pub fn would_keep(&self, score: u64) -> (kept: bool)
        requires
            self.wf(),
        ensures
            kept == keeps(self.policy_of(), self.bound_of(), self@, score),
    {
        let len = self.entries.len();
        match self.policy {
            RetentionPolicy::SortedDeque => {
                len < self.bound || (len > 0 && score < self.entries[0].score)
            },
            RetentionPolicy::UnconditionalReplace => {
                !self.holds_score(score) && (len != self.bound || len > 0)
            },
            RetentionPolicy::GuardedReplace => {
                if self.holds_score(score) {
                    false
                } else if len != self.bound {
                    true
                } else if len == 0 {
                    false
                } else {
                    let w = self.worst();
                    self.entries[w].score > score
                }
            },
        }
    }

    /// Offers a candidate. The collection takes it or drops it as its
    /// policy says; the result tells which.
    pub fn offer(&mut self, score: u64, item: T) -> (kept: bool)
        requires
            old(self).wf(),
        ensures
            final(self).wf(),
            final(self).policy_of() == old(self).policy_of(),
            final(self).bound_of() == old(self).bound_of(),
            kept == keeps(old(self).policy_of(), old(self).bound_of(), old(self)@, score),
            final(self)@ == retain_step(
                old(self).policy_of(),
                old(self).bound_of(),
                old(self)@,
                (Retained { score, item }),
            ),
    {
        let entry = Retained { score, item };
        proof {
            lemma_step_well_kept(self.policy, self.bound as nat, self@, entry);
        }
        if !self.would_keep(score) {
            return false;
        }
        let len = self.entries.len();
        match self.policy {
            RetentionPolicy::SortedDeque => {
                if len >= self.bound {
                    self.entries.remove(0);
                    assert(self@ =~= old(self)@.drop_first());
                }
                let p = self.position(score);
                self.entries.insert(p, entry);
            },
            _ => {
                if len == self.bound {
                    let w = self.worst();
                    self.entries.set(w, entry);
                } else {
                    self.entries.push(entry);
                }
            },
        }
        true
    }
}

} // verus!
