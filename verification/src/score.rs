//! Score voting: each vote gives scores to candidates, and the candidates with the largest
//! sums of scores win.

use crate::candidate::{firsts, lawful};
use crate::plurality::{counted_once, PluralityTally};
use crate::result::{RankedCandidate, RankedWinners};
use vstd::prelude::*;

verus! {

/// A score tally that counts scores in `u64`.
pub type DefaultScoreTally<T> = ScoreTally<T>;

/// A score tally over candidates of type `T`.
pub struct ScoreTally<T: Eq + Clone> {
    pub(crate) plurality: PluralityTally<T>,
}

/// The sums after a vote of the given weight that gives the scores of `selection`: each
/// candidate of the vote is counted with the weight times its score, in the order of the
/// vote.
pub open spec fn scored<T>(tallied: Seq<(T, u64)>, selection: Seq<(T, u64)>, weight: u64) -> Seq<
    (T, u64),
>
    decreases selection.len(),
{
    if selection.len() == 0 {
        tallied
    } else {
        counted_once(
            scored(tallied, selection.drop_last(), weight),
            selection.last().0,
            (weight * selection.last().1) as u64,
        )
    }
}

/// The sum of the scores of a vote, each taken times the weight.
pub open spec fn score_sum<T>(selection: Seq<(T, u64)>, weight: u64) -> nat
    decreases selection.len(),
{
    if selection.len() == 0 {
        0
    } else {
        score_sum(selection.drop_last(), weight) + (weight * selection.last().1) as nat
    }
}

/// The scores of the first candidates of a vote sum to no more than all scores.
pub proof fn lemma_score_sum_grows<T>(selection: Seq<(T, u64)>, weight: u64, upto: int)
    requires
        0 <= upto <= selection.len(),
    ensures
        score_sum(selection.take(upto), weight) <= score_sum(selection, weight),
    decreases selection.len(),
{
    if upto == selection.len() {
        assert(selection.take(upto) =~= selection);
    } else {
        lemma_score_sum_grows(selection.drop_last(), weight, upto);
        assert(selection.drop_last().take(upto) =~= selection.take(upto));
    }
}

impl<T: Eq + Clone> ScoreTally<T> {
    /// The plurality tally that holds the sums.
    pub open(crate) spec fn counts(&self) -> PluralityTally<T> {
        self.plurality
    }

    /// Whether the tally is consistent.
    pub open(crate) spec fn wf(&self) -> bool {
        self.plurality.wf()
    }

    /// A tally for `num_winners` winners. A tie for the last seats may give more winners;
    /// 0 asks for the whole ranking.
    pub fn new(num_winners: usize) -> (tally: Self)
        requires
            lawful::<T>(),
        ensures
            tally.wf(),
            tally.counts().tallied() == Seq::<(T, u64)>::empty(),
            tally.counts().seats() == num_winners,
            tally.counts().weight_counted() == 0,
    {
        ScoreTally { plurality: PluralityTally::new(num_winners) }
    }

    /// A tally for `num_winners` winners that expects the given number of candidates.
    pub fn with_capacity(num_winners: usize, expected_candidates: usize) -> (tally: Self)
        requires
            lawful::<T>(),
        ensures
            tally.wf(),
            tally.counts().tallied() == Seq::<(T, u64)>::empty(),
            tally.counts().seats() == num_winners,
            tally.counts().weight_counted() == 0,
    {
        ScoreTally { plurality: PluralityTally::with_capacity(num_winners, expected_candidates) }
    }

    /// The sum of all scores counted so far, each taken times the weight of its vote. A
    /// vote can be added as long as this sum and the vote's do not exceed `u64::MAX`
    /// together.
    pub fn total_weight(&self) -> (weight: u64)
        ensures
            weight == self.counts().weight_counted(),
    {
        self.plurality.total_weight()
    }

    /// Counts a vote of weight 1.
    pub fn add(&mut self, selection: Vec<(T, u64)>)
        requires
            old(self).wf(),
            old(self).counts().weight_counted() + score_sum(selection@, 1) <= u64::MAX,
        ensures
            final(self).wf(),
            final(self).counts().tallied() == scored(old(self).counts().tallied(), selection@, 1),
            final(self).counts().weight_counted() == old(self).counts().weight_counted()
                + score_sum(selection@, 1),
            final(self).counts().seats() == old(self).counts().seats(),
    {
        self.add_weighted_ref(selection.as_slice(), 1);
    }

    /// Counts a vote of weight 1, given by reference.
    pub fn add_ref(&mut self, selection: &[(T, u64)])
        requires
            old(self).wf(),
            old(self).counts().weight_counted() + score_sum(selection@, 1) <= u64::MAX,
        ensures
            final(self).wf(),
            final(self).counts().tallied() == scored(old(self).counts().tallied(), selection@, 1),
            final(self).counts().weight_counted() == old(self).counts().weight_counted()
                + score_sum(selection@, 1),
            final(self).counts().seats() == old(self).counts().seats(),
    {
        self.add_weighted_ref(selection, 1);
    }

    /// Counts a vote of the given weight: each score counts times the weight.
    pub fn add_weighted(&mut self, selection: Vec<(T, u64)>, weight: u64)
        requires
            old(self).wf(),
            old(self).counts().weight_counted() + score_sum(selection@, weight) <= u64::MAX,
        ensures
            final(self).wf(),
            final(self).counts().tallied() == scored(
                old(self).counts().tallied(),
                selection@,
                weight,
            ),
            final(self).counts().weight_counted() == old(self).counts().weight_counted()
                + score_sum(selection@, weight),
            final(self).counts().seats() == old(self).counts().seats(),
    {
        self.add_weighted_ref(selection.as_slice(), weight);
    }

    /// Counts a vote of the given weight, given by reference.
    pub fn add_weighted_ref(&mut self, selection: &[(T, u64)], weight: u64)
        requires
            old(self).wf(),
            old(self).counts().weight_counted() + score_sum(selection@, weight) <= u64::MAX,
        ensures
            final(self).wf(),
            final(self).counts().tallied() == scored(
                old(self).counts().tallied(),
                selection@,
                weight,
            ),
            final(self).counts().weight_counted() == old(self).counts().weight_counted()
                + score_sum(selection@, weight),
            final(self).counts().seats() == old(self).counts().seats(),
    {
        let ghost before = self.plurality.tallied();
        let ghost counted = self.plurality.weight_counted();
        let mut i: usize = 0;
        proof {
            assert(selection@.take(0) =~= Seq::<(T, u64)>::empty());
        }
        while i < selection.len()
            invariant
                0 <= i <= selection@.len(),
                self.wf(),
                counted + score_sum(selection@, weight) <= u64::MAX,
                self.plurality.tallied() == scored(before, selection@.take(i as int), weight),
                self.plurality.weight_counted() == counted + score_sum(
                    selection@.take(i as int),
                    weight,
                ),
                self.plurality.seats() == old(self).counts().seats(),
            decreases selection@.len() - i,
        {
            proof {
                let next = selection@.take(i + 1);
                assert(next.drop_last() =~= selection@.take(i as int));
                assert(next.last() == selection@[i as int]);
                lemma_score_sum_grows(selection@, weight, i + 1);
                assert(weight * selection@[i as int].1 >= 0) by (nonlinear_arith)
                    requires
                        weight >= 0,
                        selection@[i as int].1 >= 0,
                ;
            }
            let score = selection[i].1;
            self.plurality.add_weighted_ref(&selection[i].0, weight * score);
            i += 1;
        }
        proof {
            assert(selection@.take(i as int) =~= selection@);
        }
    }

    /// All candidates that got a score, in the order of their first scores.
    pub fn candidates(&self) -> (list: Vec<T>)
        requires
            self.wf(),
        ensures
            list@ == firsts(self.counts().tallied()),
    {
        self.plurality.candidates()
    }

    /// The winners: the candidates with the largest sums that fill the seats asked for,
    /// with every candidate tied with the last of them.
    pub fn winners(&self) -> (winners: RankedWinners<T>)
        requires
            self.wf(),
        ensures
            winners.num_winners == self.counts().seats(),
            winners.winners@ == crate::result::ranked_by_count(
                crate::sorting::stable_sort(self.counts().tallied()),
            ).take(
                crate::result::winners_cut(
                    crate::result::ranked_by_count(
                        crate::sorting::stable_sort(self.counts().tallied()),
                    ),
                    self.counts().seats(),
                ),
            ),
    {
        self.plurality.winners()
    }

    /// The candidates with the sums of their scores, the largest first.
    pub fn totals(&self) -> (totals: Vec<(T, u64)>)
        requires
            self.wf(),
        ensures
            totals@ == crate::sorting::stable_sort(self.counts().tallied()),
    {
        self.plurality.totals()
    }

    /// The ranking of all candidates: those with the largest sum have rank 0, and
    /// candidates with equal sums are tied.
    pub fn ranked(&self) -> (ranking: Vec<RankedCandidate<T>>)
        requires
            self.wf(),
        ensures
            ranking@ == crate::result::ranked_by_count(
                crate::sorting::stable_sort(self.counts().tallied()),
            ),
    {
        let winners = self.plurality.get_counted().into_ranked(0);
        proof {
            let all = crate::result::ranked_by_count(
                crate::sorting::stable_sort(self.counts().tallied()),
            );
            crate::sorting::lemma_stable_sort(self.counts().tallied());
            assert(all.take(all.len() as int) =~= all);
        }
        winners.into_vec()
    }
}

} // verus!
