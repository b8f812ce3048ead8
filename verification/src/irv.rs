//! Instant-runoff voting: the candidates with the fewest votes leave round by round, and
//! their votes go to the next candidate that each of them names.

use crate::candidate::{copy_candidate, distinct, find_candidate, firsts, lawful, position};
use crate::result::{RankedCandidate, RankedWinners};
use crate::votetree::{find_entry, weight_of, Transfer, VoteTree};
use vstd::prelude::*;

verus! {

/// The scores of a round: the first `upto` candidates that are not eliminated, each with
/// the weight of the votes assigned to it.
pub open spec fn round_scores<T>(
    candidates: Seq<T>,
    upto: nat,
    eliminated: Seq<T>,
    assigned: Seq<(T, u64)>,
) -> Seq<(T, u64)>
    decreases upto,
{
    if upto == 0 || upto > candidates.len() {
        Seq::empty()
    } else {
        let before = round_scores(candidates, (upto - 1) as nat, eliminated, assigned);
        let candidate = candidates[upto - 1];
        if eliminated.contains(candidate) {
            before
        } else {
            before.push((candidate, weight_of(assigned, candidate)))
        }
    }
}

/// Whether all scores are equal.
pub open spec fn all_tied<T>(scores: Seq<(T, u64)>) -> bool {
    forall|i: int| 0 <= i < scores.len() ==> (#[trigger] scores[i]).1 == scores[0].1
}

/// The lowest of the scores.
pub open spec fn lowest<T>(scores: Seq<(T, u64)>) -> u64
    decreases scores.len(),
{
    if scores.len() == 0 {
        0
    } else if scores.len() == 1 {
        scores[0].1
    } else {
        let before = lowest(scores.drop_last());
        if scores.last().1 < before {
            scores.last().1
        } else {
            before
        }
    }
}

/// The candidates that have the given score, in the order of the scores.
pub open spec fn with_score<T>(scores: Seq<(T, u64)>, score: u64) -> Seq<T>
    decreases scores.len(),
{
    if scores.len() == 0 {
        Seq::empty()
    } else if scores.last().1 == score {
        with_score(scores.drop_last(), score).push(scores.last().0)
    } else {
        with_score(scores.drop_last(), score)
    }
}

/// The rounds of the count from the round in which `eliminated` have left: for each round
/// the candidates that leave in it. These are the candidates with the lowest score, or,
/// where all that are left are tied, all of them, which ends the count. `fuel` bounds the
/// number of rounds; one more than the number of candidates is enough.
pub open spec fn rounds<T: Eq + Clone>(
    tree: VoteTree<T>,
    candidates: Seq<T>,
    eliminated: Seq<T>,
    fuel: nat,
) -> Seq<Seq<T>>
    decreases fuel,
{
    let scores = round_scores(
        candidates,
        candidates.len(),
        eliminated,
        tree.distributed(Seq::empty(), eliminated).0,
    );
    if fuel == 0 || scores.len() == 0 {
        Seq::empty()
    } else if all_tied(scores) {
        seq![firsts(scores)]
    } else {
        let out = with_score(scores, lowest(scores));
        seq![out] + rounds(tree, candidates, eliminated + out, (fuel - 1) as nat)
    }
}

/// The candidates of the rounds in the order in which they left, each with the number of
/// its round.
pub open spec fn leavers<T>(groups: Seq<Seq<T>>) -> Seq<(T, nat)>
    decreases groups.len(),
{
    if groups.len() == 0 {
        Seq::empty()
    } else {
        leavers(groups.drop_last()) + Seq::new(
            groups.last().len(),
            |k: int| (groups.last()[k], (groups.len() - 1) as nat),
        )
    }
}

/// The ranking that the rounds give: the candidates in the opposite order of their
/// leaving, those of the last round with rank 0, those of the round before with rank 1,
/// and so on.
pub open spec fn ranking_of<T: Eq + Clone>(groups: Seq<Seq<T>>) -> Seq<RankedCandidate<T>> {
    let left = leavers(groups);
    Seq::new(
        left.len(),
        |k: int|
            RankedCandidate {
                candidate: left[left.len() - 1 - k].0,
                rank: (groups.len() - 1 - left[left.len() - 1 - k].1) as usize,
            },
    )
}

/// The scores of a round are those of different candidates, which are candidates of the
/// count and not eliminated.
pub proof fn lemma_round_scores<T>(
    candidates: Seq<T>,
    upto: nat,
    eliminated: Seq<T>,
    assigned: Seq<(T, u64)>,
)
    requires
        distinct(candidates),
        upto <= candidates.len(),
    ensures
        round_scores(candidates, upto, eliminated, assigned).len() <= upto,
        distinct(firsts(round_scores(candidates, upto, eliminated, assigned))),
        forall|i: int|
            0 <= i < round_scores(candidates, upto, eliminated, assigned).len() ==> {
                let name = (#[trigger] round_scores(candidates, upto, eliminated, assigned)[i]).0;
                &&& !eliminated.contains(name)
                &&& exists|k: int| 0 <= k < upto && candidates[k] == name
            },
    decreases upto,
{
    if upto > 0 {
        let before = round_scores(candidates, (upto - 1) as nat, eliminated, assigned);
        let after = round_scores(candidates, upto, eliminated, assigned);
        lemma_round_scores(candidates, (upto - 1) as nat, eliminated, assigned);
        let candidate = candidates[upto - 1];
        if !eliminated.contains(candidate) {
            assert forall|i: int, j: int| 0 <= i < j < firsts(after).len() implies firsts(after)[i]
                != firsts(after)[j] by {
                assert(firsts(after)[i] == firsts(before)[i]);
                if j == before.len() {
                    let name = before[i].0;
                    let k = choose|k: int| 0 <= k < upto - 1 && candidates[k] == name;
                    assert(candidates[k] != candidates[upto - 1]);
                } else {
                    assert(firsts(after)[j] == firsts(before)[j]);
                }
            }
            assert forall|i: int| 0 <= i < after.len() implies {
                let name = (#[trigger] after[i]).0;
                &&& !eliminated.contains(name)
                &&& exists|k: int| 0 <= k < upto && candidates[k] == name
            } by {
                if i < before.len() {
                    assert(after[i] == before[i]);
                    let name = before[i].0;
                    let k = choose|k: int| 0 <= k < upto - 1 && candidates[k] == name;
                    assert(candidates[k] == name);
                } else {
                    assert(candidates[upto - 1] == after[i].0);
                }
            }
        } else {
            assert forall|i: int| 0 <= i < after.len() implies {
                let name = (#[trigger] after[i]).0;
                &&& !eliminated.contains(name)
                &&& exists|k: int| 0 <= k < upto && candidates[k] == name
            } by {
                let name = before[i].0;
                let k = choose|k: int| 0 <= k < upto - 1 && candidates[k] == name;
                assert(candidates[k] == name);
            }
        }
    }
}

/// The lowest score is a score, and no score is below it.
pub proof fn lemma_lowest<T>(scores: Seq<(T, u64)>)
    requires
        scores.len() > 0,
    ensures
        exists|i: int| 0 <= i < scores.len() && (#[trigger] scores[i]).1 == lowest(scores),
        forall|i: int| 0 <= i < scores.len() ==> lowest(scores) <= (#[trigger] scores[i]).1,
    decreases scores.len(),
{
    if scores.len() > 1 {
        let init = scores.drop_last();
        lemma_lowest(init);
        let i = choose|i: int| 0 <= i < init.len() && (#[trigger] init[i]).1 == lowest(init);
        assert(scores[i] == init[i]);
        assert(scores[scores.len() - 1].1 == scores.last().1);
        assert forall|k: int| 0 <= k < scores.len() implies lowest(scores) <= (
        #[trigger] scores[k]).1 by {
            if k < init.len() {
                assert(scores[k] == init[k]);
            }
        }
    } else {
        assert(scores[0].1 == lowest(scores));
    }
}

/// The candidates with a score are candidates of the scores, each once where the scores
/// name each candidate once; and there is one where a candidate has the score.
pub proof fn lemma_with_score<T>(scores: Seq<(T, u64)>, score: u64)
    requires
        distinct(firsts(scores)),
    ensures
        distinct(with_score(scores, score)),
        forall|k: int|
            0 <= k < with_score(scores, score).len() ==> firsts(scores).contains(
                #[trigger] with_score(scores, score)[k],
            ),
        (exists|i: int| 0 <= i < scores.len() && (#[trigger] scores[i]).1 == score)
            ==> with_score(scores, score).len() > 0,
        with_score(scores, score).len() <= scores.len(),
    decreases scores.len(),
{
    if scores.len() > 0 {
        let init = scores.drop_last();
        assert(distinct(firsts(init))) by {
            assert forall|i: int, j: int| 0 <= i < j < firsts(init).len() implies firsts(init)[i]
                != firsts(init)[j] by {
                assert(firsts(init)[i] == firsts(scores)[i]);
                assert(firsts(init)[j] == firsts(scores)[j]);
            }
        }
        lemma_with_score(init, score);
        let before = with_score(init, score);
        let after = with_score(scores, score);
        let names = firsts(scores);
        assert forall|k: int| 0 <= k < after.len() implies names.contains(#[trigger] after[k]) by {
            if k < before.len() {
                assert(after[k] == before[k]);
                assert(firsts(init).contains(before[k]));
                let at = choose|at: int| 0 <= at < firsts(init).len() && firsts(init)[at] == before[k];
                assert(names[at] == before[k]);
            } else {
                assert(names[scores.len() - 1] == after[k]);
            }
        }
        if scores.last().1 == score {
            assert forall|i: int, j: int| 0 <= i < j < after.len() implies after[i]
                != after[j] by {
                assert(after[i] == before[i]);
                if j == before.len() {
                    assert(firsts(init).contains(before[i]));
                    let at = choose|at: int|
                        0 <= at < firsts(init).len() && firsts(init)[at] == before[i];
                    assert(names[at] == before[i]);
                    assert(names[scores.len() - 1] == after[j]);
                } else {
                    assert(after[j] == before[j]);
                }
            }
        }
        if exists|i: int| 0 <= i < scores.len() && (#[trigger] scores[i]).1 == score {
            let i = choose|i: int| 0 <= i < scores.len() && (#[trigger] scores[i]).1 == score;
            if i < init.len() {
                assert(init[i] == scores[i]);
            }
        }
    }
}

/// Every candidate that left has the number of a round, and in each round that is not
/// empty a candidate left.
pub proof fn lemma_leavers<T>(groups: Seq<Seq<T>>)
    ensures
        forall|k: int|
            0 <= k < leavers(groups).len() ==> (#[trigger] leavers(groups)[k]).1 < groups.len(),
        forall|round: int|
            0 <= round < groups.len() && groups[round].len() > 0 ==> exists|k: int|
                0 <= k < leavers(groups).len() && (#[trigger] leavers(groups)[k]).1 == round,
    decreases groups.len(),
{
    if groups.len() > 0 {
        let init = groups.drop_last();
        lemma_leavers(init);
        let front = leavers(init);
        let all = leavers(groups);
        let last = (groups.len() - 1) as nat;
        assert forall|k: int| 0 <= k < all.len() implies (#[trigger] all[k]).1 < groups.len() by {
            if k < front.len() {
                assert(all[k] == front[k]);
            } else {
                assert(all[k].1 == last);
            }
        }
        assert forall|round: int|
            0 <= round < groups.len() && groups[round].len() > 0 implies exists|k: int|
            0 <= k < all.len() && (#[trigger] all[k]).1 == round by {
            if round < init.len() {
                assert(init[round] == groups[round]);
                let k = choose|k: int| 0 <= k < front.len() && (#[trigger] front[k]).1 == round;
                assert(all[k] == front[k]);
            } else {
                assert(all[front.len() as int].1 == last);
            }
        }
    }
}

/// Where a candidate left in every round, the ranks of the ranking are exactly those
/// below the number of rounds.
pub proof fn lemma_ranking_has_no_gaps<T: Eq + Clone>(groups: Seq<Seq<T>>)
    requires
        groups.len() <= usize::MAX,
        forall|round: int| 0 <= round < groups.len() ==> (#[trigger] groups[round]).len() > 0,
    ensures
        crate::result::ranks_fill(crate::result::ranks_in(ranking_of(groups)), groups.len()),
        crate::result::ranks_ascend(ranking_of(groups)),
{
    lemma_leavers(groups);
    lemma_leavers_in_order(groups);
    let left = leavers(groups);
    let ranking = ranking_of(groups);
    let ranks = crate::result::ranks_in(ranking);
    assert forall|rank: usize| #[trigger] ranks.contains(rank) <==> rank < groups.len() by {
        if ranks.contains(rank) {
            let k = choose|k: int| 0 <= k < ranks.len() && ranks[k] == rank;
            assert(left[left.len() - 1 - k].1 < groups.len());
        }
        if rank < groups.len() {
            let round = groups.len() - 1 - rank;
            assert(groups[round].len() > 0);
            let at = choose|at: int| 0 <= at < left.len() && (#[trigger] left[at]).1 == round;
            let k = left.len() - 1 - at;
            assert(ranks[k] == rank);
        }
    }
    assert forall|i: int, j: int| 0 <= i <= j < ranking.len() implies ranking[i].rank
        <= ranking[j].rank by {
        assert(left[left.len() - 1 - j].1 <= left[left.len() - 1 - i].1);
        assert(left[left.len() - 1 - i].1 < groups.len());
    }
}

/// The candidates that left are in the order of their rounds.
pub proof fn lemma_leavers_in_order<T>(groups: Seq<Seq<T>>)
    ensures
        forall|i: int, j: int|
            0 <= i <= j < leavers(groups).len() ==> leavers(groups)[i].1 <= leavers(groups)[j].1,
    decreases groups.len(),
{
    if groups.len() > 0 {
        let init = groups.drop_last();
        lemma_leavers_in_order(init);
        lemma_leavers(init);
        let front = leavers(init);
        let all = leavers(groups);
        assert forall|i: int, j: int| 0 <= i <= j < all.len() implies all[i].1 <= all[j].1 by {
            if j < front.len() {
                assert(all[i] == front[i]);
                assert(all[j] == front[j]);
            } else if i < front.len() {
                assert(all[i] == front[i]);
                assert(front[i].1 < init.len());
            }
        }
    }
}

/// The lists of candidates of a list of vectors.
pub open spec fn views<T>(groups: Seq<Vec<T>>) -> Seq<Seq<T>> {
    Seq::new(groups.len(), |i: int| groups[i]@)
}

/// The scores of a round: the candidates that are not eliminated, each with the weight of
/// the votes assigned to it.
pub fn scores_of_round<T: Eq + Clone>(
    candidates: &Vec<T>,
    eliminated: &[T],
    assigned: &[(T, u64)],
) -> (scores: Vec<(T, u64)>)
    requires
        lawful::<T>(),
    ensures
        scores@ == round_scores(candidates@, candidates@.len(), eliminated@, assigned@),
{
    let mut scores: Vec<(T, u64)> = Vec::new();
    let mut i: usize = 0;
    while i < candidates.len()
        invariant
            lawful::<T>(),
            0 <= i <= candidates@.len(),
            scores@ == round_scores(candidates@, i as nat, eliminated@, assigned@),
        decreases candidates@.len() - i,
    {
        if find_candidate(eliminated, &candidates[i]).is_none() {
            let score = match find_entry(assigned, &candidates[i]) {
                Some(at) => assigned[at].1,
                None => 0,
            };
            scores.push((copy_candidate(&candidates[i]), score));
        }
        i += 1;
    }
    scores
}

/// Whether all scores are equal.
pub fn is_tied<T>(scores: &Vec<(T, u64)>) -> (tied: bool)
    ensures
        tied == all_tied(scores@),
{
    let mut i: usize = 0;
    while i < scores.len()
        invariant
            0 <= i <= scores@.len(),
            forall|k: int| 0 <= k < i ==> (#[trigger] scores@[k]).1 == scores@[0].1,
        decreases scores@.len() - i,
    {
        if scores[i].1 != scores[0].1 {
            return false;
        }
        i += 1;
    }
    true
}

/// The lowest of the scores.
pub fn lowest_score<T>(scores: &Vec<(T, u64)>) -> (low: u64)
    requires
        scores@.len() > 0,
    ensures
        low == lowest(scores@),
{
    let mut low = scores[0].1;
    let mut i: usize = 1;
    proof {
        assert(scores@.take(1).len() == 1);
        assert(scores@.take(1)[0] == scores@[0]);
    }
    while i < scores.len()
        invariant
            1 <= i <= scores@.len(),
            low == lowest(scores@.take(i as int)),
        decreases scores@.len() - i,
    {
        proof {
            let next = scores@.take(i + 1);
            assert(next.drop_last() =~= scores@.take(i as int));
            assert(next.last() == scores@[i as int]);
        }
        if scores[i].1 < low {
            low = scores[i].1;
        }
        i += 1;
    }
    proof {
        assert(scores@.take(i as int) =~= scores@);
    }
    low
}

/// The candidates that have the given score, in the order of the scores.
pub fn candidates_with_score<T: Eq + Clone>(scores: &Vec<(T, u64)>, score: u64) -> (names: Vec<T>)
    requires
        lawful::<T>(),
    ensures
        names@ == with_score(scores@, score),
{
    let mut names: Vec<T> = Vec::new();
    let mut i: usize = 0;
    while i < scores.len()
        invariant
            lawful::<T>(),
            0 <= i <= scores@.len(),
            names@ == with_score(scores@.take(i as int), score),
        decreases scores@.len() - i,
    {
        proof {
            let next = scores@.take(i + 1);
            assert(next.drop_last() =~= scores@.take(i as int));
            assert(next.last() == scores@[i as int]);
        }
        if scores[i].1 == score {
            names.push(copy_candidate(&scores[i].0));
        }
        i += 1;
    }
    proof {
        assert(scores@.take(i as int) =~= scores@);
    }
    names
}

/// The candidates of the scores, in their order.
pub fn names_of<T: Eq + Clone>(scores: &Vec<(T, u64)>) -> (names: Vec<T>)
    requires
        lawful::<T>(),
    ensures
        names@ == firsts(scores@),
{
    let mut names: Vec<T> = Vec::new();
    let mut i: usize = 0;
    while i < scores.len()
        invariant
            lawful::<T>(),
            0 <= i <= scores@.len(),
            names@ == firsts(scores@).take(i as int),
        decreases scores@.len() - i,
    {
        names.push(copy_candidate(&scores[i].0));
        proof {
            assert(names@ =~= firsts(scores@).take(i + 1));
        }
        i += 1;
    }
    proof {
        assert(firsts(scores@).take(i as int) =~= firsts(scores@));
    }
    names
}

/// The ranking that the rounds give; see `ranking_of`.
pub fn rank_rounds<T: Eq + Clone>(groups: &Vec<Vec<T>>) -> (ranking: Vec<RankedCandidate<T>>)
    requires
        lawful::<T>(),
    ensures
        ranking@ == ranking_of(views(groups@)),
{
    let ghost all = views(groups@);
    let total = groups.len();
    let mut back: Vec<RankedCandidate<T>> = Vec::new();
    let mut round: usize = 0;
    while round < total
        invariant
            lawful::<T>(),
            all == views(groups@),
            total == groups@.len(),
            0 <= round <= total,
            back@.len() == leavers(all.take(round as int)).len(),
            forall|k: int|
                0 <= k < back@.len() ==> (#[trigger] back@[k]).candidate == leavers(
                    all.take(round as int),
                )[k].0 && back@[k].rank == total - 1 - leavers(all.take(round as int))[k].1,
        decreases total - round,
    {
        let group = &groups[round];
        let ghost before = back@;
        let ghost left = leavers(all.take(round as int));
        let ghost next = all.take(round + 1);
        proof {
            assert(next.drop_last() =~= all.take(round as int));
            assert(next.last() == group@);
        }
        let mut k: usize = 0;
        while k < group.len()
            invariant
                lawful::<T>(),
                0 <= round < total,
                0 <= k <= group@.len(),
                back@.len() == before.len() + k,
                forall|m: int| 0 <= m < before.len() ==> back@[m] == before[m],
                forall|m: int|
                    0 <= m < k ==> (#[trigger] back@[before.len() + m]).candidate == group@[m]
                        && back@[before.len() + m].rank == total - 1 - round,
            decreases group@.len() - k,
        {
            back.push(RankedCandidate { candidate: copy_candidate(&group[k]), rank: total - 1 - round });
            k += 1;
        }
        proof {
            let after = leavers(next);
            assert forall|m: int| 0 <= m < back@.len() implies (#[trigger] back@[m]).candidate
                == after[m].0 && back@[m].rank == total - 1 - after[m].1 by {
                if m < before.len() {
                    assert(after[m] == left[m]);
                    assert(back@[m] == before[m]);
                } else {
                    let j = m - before.len();
                    assert(back@[before.len() + j].candidate == group@[j]);
                    assert(after[m] == (group@[j], round as nat));
                }
            }
        }
        round += 1;
    }
    proof {
        assert(all.take(round as int) =~= all);
    }
    let ranking = crate::result::reversed(back);
    proof {
        assert(ranking@ =~= ranking_of(all));
    }
    ranking
}

/// An instant-runoff tally that counts votes in `u64`.
pub type DefaultTally<T> = Tally<T>;

/// An instant-runoff tally over candidates of type `T`.
pub struct Tally<T: Eq + Clone> {
    pub(crate) running_total: VoteTree<T>,
    pub(crate) transfer: Transfer,
}

impl<T: Eq + Clone> Tally<T> {
    /// The tree of the votes counted so far.
    pub open(crate) spec fn votes(&self) -> VoteTree<T> {
        self.running_total
    }

    /// The way of transfer that the tally was made with.
    pub open(crate) spec fn way(&self) -> Transfer {
        self.transfer
    }

    /// Whether the tally is consistent.
    pub open(crate) spec fn wf(&self) -> bool {
        &&& lawful::<T>()
        &&& self.running_total.wf()
    }

    /// The rounds of the count: for each round the candidates that leave in it.
    pub open spec fn rounds(&self) -> Seq<Seq<T>> {
        let candidates = self.votes().gathered(Seq::empty());
        rounds(self.votes(), candidates, Seq::empty(), candidates.len() + 1)
    }

    /// A tally without votes.
    pub fn new(transfer: Transfer) -> (tally: Self)
        requires
            lawful::<T>(),
        ensures
            tally.wf(),
            tally.way() == transfer,
            tally.votes().count == 0,
            tally.votes().branches().len() == 0,
    {
        Tally { running_total: VoteTree::new(), transfer }
    }

    /// A tally without votes for the given candidates.
    pub fn with_candidates(transfer: Transfer, candidates: Vec<T>) -> (tally: Self)
        requires
            lawful::<T>(),
        ensures
            tally.wf(),
            tally.way() == transfer,
            tally.votes().count == 0,
            firsts(tally.votes().branches()) == crate::condorcet::registered(
                Seq::empty(),
                candidates@,
            ),
    {
        Tally { running_total: VoteTree::with_candidates(candidates), transfer }
    }

    /// The weight of all votes counted so far. A vote can be added as long as this weight
    /// and the vote's do not exceed `u64::MAX` together.
    pub fn total_weight(&self) -> (weight: u64)
        ensures
            weight == self.votes().count,
    {
        self.running_total.count
    }

    /// Counts a vote of the given weight that lists candidates in the order of preference.
    pub fn add_weighted(&mut self, selection: Vec<T>, weight: u64)
        requires
            old(self).wf(),
            old(self).votes().count + weight <= u64::MAX,
        ensures
            final(self).wf(),
            final(self).way() == old(self).way(),
            old(self).votes().is_added(final(self).votes(), selection@, weight),
    {
        self.running_total.add(selection.as_slice(), weight);
    }

    /// Counts a vote of weight 1.
    pub fn add(&mut self, selection: Vec<T>)
        requires
            old(self).wf(),
            old(self).votes().count + 1 <= u64::MAX,
        ensures
            final(self).wf(),
            final(self).way() == old(self).way(),
            old(self).votes().is_added(final(self).votes(), selection@, 1),
    {
        self.running_total.add(selection.as_slice(), 1);
    }

    /// Counts a vote of weight 1, given by reference.
    pub fn add_ref(&mut self, selection: &[T])
        requires
            old(self).wf(),
            old(self).votes().count + 1 <= u64::MAX,
        ensures
            final(self).wf(),
            final(self).way() == old(self).way(),
            old(self).votes().is_added(final(self).votes(), selection@, 1),
    {
        self.running_total.add(selection, 1);
    }

    /// Counts the votes round by round and ranks all candidates. In each round every vote
    /// counts for its first candidate that has not left; the candidates with the lowest
    /// score leave, and where all that are left are tied they leave together, which ends
    /// the count. The candidates of the last round have rank 0, those of the round before
    /// rank 1, and so on.
    pub fn tally_ranked(&self) -> (ranking: Vec<RankedCandidate<T>>)
        requires
            self.wf(),
        ensures
            ranking@ == ranking_of(self.rounds()),
            crate::result::contiguous_ranks(
                crate::result::ranks_in(ranking@),
                self.votes().gathered(Seq::empty()).len(),
            ),
            crate::result::ranks_ascend(ranking@),
    {
        let candidates = self.running_total.candidates();
        let n = candidates.len();
        let ghost tree = self.running_total;
        let ghost all = self.rounds();
        let mut eliminated: Vec<T> = Vec::new();
        let mut groups: Vec<Vec<T>> = Vec::new();
        let mut done = false;
        proof {
            assert(views(groups@) =~= Seq::<Seq<T>>::empty());
            assert(Seq::<Seq<T>>::empty() + all =~= all);
            assert(eliminated@ =~= Seq::<T>::empty());
        }
        while !done
            invariant
                self.wf(),
                tree == self.running_total,
                candidates@ == tree.gathered(Seq::empty()),
                distinct(candidates@),
                n == candidates@.len(),
                all == rounds(tree, candidates@, Seq::empty(), (n + 1) as nat),
                distinct(eliminated@),
                forall|k: int| 0 <= k < eliminated@.len() ==> candidates@.contains(
                    #[trigger] eliminated@[k],
                ),
                eliminated@.len() <= n,
                groups@.len() <= eliminated@.len() || done,
                groups@.len() <= n,
                forall|round: int|
                    0 <= round < groups@.len() ==> (#[trigger] views(groups@)[round]).len() > 0,
                !done ==> all == views(groups@) + rounds(
                    tree,
                    candidates@,
                    eliminated@,
                    (n + 1 - groups@.len()) as nat,
                ),
                done ==> all == views(groups@),
            decreases n - eliminated@.len() + if done { 0int } else { 1int },
        {
            let ghost fuel = (n + 1 - groups@.len()) as nat;
            let ghost before = views(groups@);
            let (_excess, assigned) = self.running_total.assign_votes(eliminated.as_slice());
            let scores = scores_of_round(&candidates, eliminated.as_slice(), assigned.as_slice());
            proof {
                lemma_round_scores(candidates@, n as nat, eliminated@, assigned@);
            }
            if scores.len() == 0 {
                proof {
                    assert(before + Seq::<Seq<T>>::empty() =~= before);
                }
                done = true;
            } else if is_tied(&scores) {
                let names = names_of(&scores);
                proof {
                    let joined = eliminated@ + names@;
                    assert forall|i: int| 0 <= i < names@.len() implies !eliminated@.contains(
                        #[trigger] names@[i],
                    ) && candidates@.contains(names@[i]) by {
                        assert(scores@[i].0 == names@[i]);
                    }
                    assert(distinct(joined)) by {
                        assert forall|i: int, j: int| 0 <= i < j < joined.len() implies joined[i]
                            != joined[j] by {
                            if j < eliminated@.len() {
                            } else if i < eliminated@.len() {
                                assert(eliminated@.contains(joined[i]));
                                assert(joined[j] == names@[j - eliminated@.len()]);
                            } else {
                                assert(joined[i] == names@[i - eliminated@.len()]);
                                assert(joined[j] == names@[j - eliminated@.len()]);
                            }
                        }
                    }
                    assert forall|i: int| 0 <= i < joined.len() implies candidates@.contains(
                        #[trigger] joined[i],
                    ) by {
                        if i >= eliminated@.len() {
                            assert(joined[i] == names@[i - eliminated@.len()]);
                        }
                    }
                    crate::borda::lemma_ballot_is_short(joined, candidates@);
                }
                groups.push(names);
                proof {
                    assert(views(groups@) =~= before + seq![firsts(scores@)]);
                }
                done = true;
            } else {
                let low = lowest_score(&scores);
                let out = candidates_with_score(&scores, low);
                proof {
                    lemma_lowest(scores@);
                    lemma_with_score(scores@, low);
                }
                let ghost old_eliminated = eliminated@;
                let mut k: usize = 0;
                while k < out.len()
                    invariant
                        lawful::<T>(),
                        0 <= k <= out@.len(),
                        eliminated@ == old_eliminated + out@.take(k as int),
                    decreases out@.len() - k,
                {
                    eliminated.push(copy_candidate(&out[k]));
                    proof {
                        assert(eliminated@ =~= old_eliminated + out@.take(k + 1));
                    }
                    k += 1;
                }
                proof {
                    assert(out@.take(k as int) =~= out@);
                    let joined = old_eliminated + out@;
                    assert forall|i: int| 0 <= i < out@.len() implies !old_eliminated.contains(
                        #[trigger] out@[i],
                    ) && candidates@.contains(out@[i]) by {
                        assert(firsts(scores@).contains(out@[i]));
                        let at = choose|at: int|
                            0 <= at < firsts(scores@).len() && firsts(scores@)[at] == out@[i];
                        assert(scores@[at].0 == out@[i]);
                    }
                    assert(distinct(joined)) by {
                        assert forall|i: int, j: int| 0 <= i < j < joined.len() implies joined[i]
                            != joined[j] by {
                            if j < old_eliminated.len() {
                            } else if i < old_eliminated.len() {
                                assert(old_eliminated.contains(joined[i]));
                                assert(joined[j] == out@[j - old_eliminated.len()]);
                            } else {
                                assert(joined[i] == out@[i - old_eliminated.len()]);
                                assert(joined[j] == out@[j - old_eliminated.len()]);
                            }
                        }
                    }
                    assert forall|i: int| 0 <= i < joined.len() implies candidates@.contains(
                        #[trigger] joined[i],
                    ) by {
                        if i >= old_eliminated.len() {
                            assert(joined[i] == out@[i - old_eliminated.len()]);
                        }
                    }
                    crate::borda::lemma_ballot_is_short(joined, candidates@);
                }
                groups.push(out);
                proof {
                    let rest = rounds(tree, candidates@, eliminated@, (fuel - 1) as nat);
                    assert(views(groups@) =~= before + seq![out@]);
                    assert(before + (seq![out@] + rest) =~= (before + seq![out@]) + rest);
                }
            }
        }
        proof {
            lemma_ranking_has_no_gaps(views(groups@));
        }
        rank_rounds(&groups)
    }

    /// The winner of the count: the candidates of the last round, which are tied where
    /// they are more than one.
    pub fn tally_winners(&self) -> (winners: RankedWinners<T>)
        requires
            self.wf(),
        ensures
            winners.num_winners == 1,
            winners.winners@ == crate::sorting::stable_sort(ranking_of(self.rounds())).take(
                crate::result::winners_cut(
                    crate::sorting::stable_sort(ranking_of(self.rounds())),
                    1,
                ),
            ),
    {
        let ranking = self.tally_ranked();
        let pairs = crate::result::into_pairs(ranking);
        proof {
            assert(crate::result::as_ranked(pairs@) =~= ranking_of(self.rounds()));
        }
        RankedWinners::from_ranked(pairs, 1)
    }
}

} // verus!
