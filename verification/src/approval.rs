//! Approval voting: each vote names the candidates it approves of, and the candidates
//! with the most approvals win.

use crate::candidate::{copy_candidate, firsts, lawful};
use crate::plurality::{counted_once, PluralityTally};
use crate::result::RankedWinners;
use vstd::prelude::*;

verus! {

/// An approval tally that counts votes in `u64`.
pub type DefaultApprovalTally<T> = ApprovalTally<T>;

/// An approval tally over candidates of type `T`.
pub struct ApprovalTally<T: Eq + Clone> {
    pub(crate) plurality: PluralityTally<T>,
}

/// The counts after a vote of the given weight that approves of the candidates of
/// `selection`: each of them is counted once with the weight, in the order of the vote. A
/// candidate that the vote names twice is counted twice.
pub open spec fn approved<T>(tallied: Seq<(T, u64)>, selection: Seq<T>, weight: u64) -> Seq<
    (T, u64),
>
    decreases selection.len(),
{
    if selection.len() == 0 {
        tallied
    } else {
        counted_once(approved(tallied, selection.drop_last(), weight), selection.last(), weight)
    }
}

impl<T: Eq + Clone> ApprovalTally<T> {
    /// The plurality tally that holds the counts.
    pub open(crate) spec fn counts(&self) -> PluralityTally<T> {
        self.plurality
    }

    /// Whether the tally is consistent.
    pub open(crate) spec fn wf(&self) -> bool {
        self.plurality.wf()
    }

    /// A tally for `num_winners` winners. A tie for the last seats may give more winners;
    /// 0 asks for the whole ranking.
    pub fn new(num_winners: usize) -> (tally: Self)
        requires
            lawful::<T>(),
        ensures
            tally.wf(),
            tally.counts().tallied() == Seq::<(T, u64)>::empty(),
            tally.counts().seats() == num_winners,
            tally.counts().weight_counted() == 0,
    {
        ApprovalTally { plurality: PluralityTally::new(num_winners) }
    }

    /// A tally for `num_winners` winners that expects the given number of candidates.
    pub fn with_capacity(num_winners: usize, expected_candidates: usize) -> (tally: Self)
        requires
            lawful::<T>(),
        ensures
            tally.wf(),
            tally.counts().tallied() == Seq::<(T, u64)>::empty(),
            tally.counts().seats() == num_winners,
            tally.counts().weight_counted() == 0,
    {
        ApprovalTally { plurality: PluralityTally::with_capacity(num_winners, expected_candidates) }
    }

    /// The weight of all approvals counted so far. A vote can be added as long as this
    /// weight and the vote's, taken once for each candidate of the vote, do not exceed
    /// `u64::MAX` together.
    pub fn total_weight(&self) -> (weight: u64)
        ensures
            weight == self.counts().weight_counted(),
    {
        self.plurality.total_weight()
    }

    /// Counts a vote of weight 1.
    pub fn add(&mut self, selection: Vec<T>)
        requires
            old(self).wf(),
            old(self).counts().weight_counted() + selection@.len() <= u64::MAX,
        ensures
            final(self).wf(),
            final(self).counts().tallied() == approved(old(self).counts().tallied(), selection@, 1),
            final(self).counts().weight_counted() == old(self).counts().weight_counted()
                + selection@.len(),
            final(self).counts().seats() == old(self).counts().seats(),
    {
        self.add_weighted_ref(selection.as_slice(), 1);
    }

    /// Counts a vote of weight 1, given by reference.
    pub fn add_ref(&mut self, selection: &[T])
        requires
            old(self).wf(),
            old(self).counts().weight_counted() + selection@.len() <= u64::MAX,
        ensures
            final(self).wf(),
            final(self).counts().tallied() == approved(old(self).counts().tallied(), selection@, 1),
            final(self).counts().weight_counted() == old(self).counts().weight_counted()
                + selection@.len(),
            final(self).counts().seats() == old(self).counts().seats(),
    {
        self.add_weighted_ref(selection, 1);
    }

    /// Counts a vote of the given weight.
    pub fn add_weighted(&mut self, selection: Vec<T>, weight: u64)
        requires
            old(self).wf(),
            old(self).counts().weight_counted() + selection@.len() * weight <= u64::MAX,
        ensures
            final(self).wf(),
            final(self).counts().tallied() == approved(
                old(self).counts().tallied(),
                selection@,
                weight,
            ),
            final(self).counts().weight_counted() == old(self).counts().weight_counted()
                + selection@.len() * weight,
            final(self).counts().seats() == old(self).counts().seats(),
    {
        self.add_weighted_ref(selection.as_slice(), weight);
    }

    /// Counts a vote of the given weight, given by reference.
    pub fn add_weighted_ref(&mut self, selection: &[T], weight: u64)
        requires
            old(self).wf(),
            old(self).counts().weight_counted() + selection@.len() * weight <= u64::MAX,
        ensures
            final(self).wf(),
            final(self).counts().tallied() == approved(
                old(self).counts().tallied(),
                selection@,
                weight,
            ),
            final(self).counts().weight_counted() == old(self).counts().weight_counted()
                + selection@.len() * weight,
            final(self).counts().seats() == old(self).counts().seats(),
    {
        let ghost before = self.plurality.tallied();
        let ghost counted = self.plurality.weight_counted();
        let mut i: usize = 0;
        proof {
            assert(selection@.take(0) =~= Seq::<T>::empty());
            assert(0 * weight == 0) by (nonlinear_arith);
        }
        while i < selection.len()
            invariant
                0 <= i <= selection@.len(),
                self.wf(),
                counted + selection@.len() * weight <= u64::MAX,
                self.plurality.tallied() == approved(before, selection@.take(i as int), weight),
                self.plurality.weight_counted() == counted + i * weight,
                self.plurality.seats() == old(self).counts().seats(),
            decreases selection@.len() - i,
        {
            proof {
                let len = selection@.len();
                assert((i + 1) * weight == i * weight + weight) by (nonlinear_arith);
                assert((i + 1) * weight <= len * weight) by (nonlinear_arith)
                    requires
                        i + 1 <= len,
                        weight >= 0,
                ;
                let next = selection@.take(i + 1);
                assert(next.drop_last() =~= selection@.take(i as int));
                assert(next.last() == selection@[i as int]);
            }
            self.plurality.add_weighted_ref(&selection[i], weight);
            i += 1;
        }
        proof {
            assert(selection@.take(i as int) =~= selection@);
        }
    }

    /// All candidates that got an approval, in the order of their first approvals.
    pub fn candidates(&self) -> (list: Vec<T>)
        requires
            self.wf(),
        ensures
            list@ == firsts(self.counts().tallied()),
    {
        self.plurality.candidates()
    }

    /// The winners: the candidates with the most approvals that fill the seats asked for,
    /// with every candidate tied with the last of them.
    pub fn winners(&self) -> (winners: RankedWinners<T>)
        requires
            self.wf(),
        ensures
            winners.num_winners == self.counts().seats(),
            winners.winners@ == crate::result::ranked_by_count(
                crate::sorting::stable_sort(self.counts().tallied()),
            ).take(
                crate::result::winners_cut(
                    crate::result::ranked_by_count(
                        crate::sorting::stable_sort(self.counts().tallied()),
                    ),
                    self.counts().seats(),
                ),
            ),
    {
        self.plurality.winners()
    }

    /// The candidates with the weight of their approvals, the largest first.
    pub fn totals(&self) -> (totals: Vec<(T, u64)>)
        requires
            self.wf(),
        ensures
            totals@ == crate::sorting::stable_sort(self.counts().tallied()),
    {
        self.plurality.totals()
    }

    /// The ranking of all candidates: those with the most approvals have rank 0, and
    /// candidates with equal counts are tied.
    pub fn ranked(&self) -> (ranking: Vec<(T, usize)>)
        requires
            self.wf(),
        ensures
            ranking@ == crate::result::pairs_of(
                crate::result::ranked_by_count(
                    crate::sorting::stable_sort(self.counts().tallied()),
                ),
            ),
            crate::result::contiguous_ranks(
                crate::result::ranks_of(ranking@),
                self.counts().tallied().len(),
            ),
    {
        self.plurality.ranked()
    }
}

} // verus!
