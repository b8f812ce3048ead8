//! Plurality voting: each vote names one candidate, and the candidates with the most votes
//! win.

use crate::candidate::{copy_candidate, distinct, firsts, lawful, position, same_candidate};
use crate::result::{CountedCandidates, RankedWinners};
use vstd::prelude::*;

verus! {

/// A plurality tally that counts votes in `u64`.
pub type DefaultPluralityTally<T> = PluralityTally<T>;

/// A plurality tally over candidates of type `T`. The candidates are those that got a
/// vote, in the order of their first votes.
pub struct PluralityTally<T: Eq + Clone> {
    pub(crate) running_total: Vec<(T, u64)>,
    pub(crate) num_winners: usize,
    pub(crate) total_weight: u64,
}

/// The counts after a vote of the given weight for `vote`: its count has grown by the
/// weight, or it has been added behind the others with the weight as its count.
pub open spec fn counted_once<T>(tallied: Seq<(T, u64)>, vote: T, weight: u64) -> Seq<(T, u64)> {
    let at = position(firsts(tallied), vote);
    if at < tallied.len() {
        tallied.update(at, (vote, (tallied[at].1 + weight) as u64))
    } else {
        tallied.push((vote, weight))
    }
}

/// Whether no candidate has two entries, and no count exceeds `limit`.
pub open spec fn counts_within<T>(tallied: Seq<(T, u64)>, limit: int) -> bool {
    &&& distinct(firsts(tallied))
    &&& forall|i: int| 0 <= i < tallied.len() ==> (#[trigger] tallied[i]).1 <= limit
}

/// Counting a vote keeps the entries apart, and no count grows beyond the old limit and
/// the weight.
pub proof fn lemma_counted_once<T>(tallied: Seq<(T, u64)>, vote: T, weight: u64, limit: int)
    requires
        counts_within(tallied, limit),
        0 <= limit,
        limit + weight <= u64::MAX,
    ensures
        counts_within(counted_once(tallied, vote, weight), limit + weight),
{
    let names = firsts(tallied);
    let after = counted_once(tallied, vote, weight);
    let at = position(names, vote);
    crate::candidate::lemma_position(names, vote);
    assert forall|i: int, j: int| 0 <= i < j < firsts(after).len() implies firsts(after)[i]
        != firsts(after)[j] by {
        if at < tallied.len() {
            assert(firsts(after)[i] == names[i]);
            assert(firsts(after)[j] == names[j]);
        } else {
            if j < tallied.len() {
                assert(firsts(after)[i] == names[i]);
                assert(firsts(after)[j] == names[j]);
            } else {
                assert(firsts(after)[i] == names[i]);
                assert(names.contains(names[i]));
            }
        }
    }
    assert forall|i: int| 0 <= i < after.len() implies (#[trigger] after[i]).1 <= limit
        + weight by {
        if i < tallied.len() {
            assert(tallied[i].1 <= limit);
        }
        if at < tallied.len() {
            assert(tallied[at].1 <= limit);
        }
    }
}

/// The counts of a list, summed.
pub open spec fn count_sum<T>(tallied: Seq<(T, u64)>) -> nat
    decreases tallied.len(),
{
    if tallied.len() == 0 {
        0
    } else {
        count_sum(tallied.drop_last()) + tallied.last().1 as nat
    }
}

/// No count exceeds the sum of all counts.
pub proof fn lemma_count_within_sum<T>(tallied: Seq<(T, u64)>, at: int)
    requires
        0 <= at < tallied.len(),
    ensures
        tallied[at].1 <= count_sum(tallied),
    decreases tallied.len(),
{
    if at < tallied.len() - 1 {
        lemma_count_within_sum(tallied.drop_last(), at);
    }
}

/// Replacing a count changes the sum by the difference.
pub proof fn lemma_count_sum_update<T>(tallied: Seq<(T, u64)>, at: int, item: (T, u64))
    requires
        0 <= at < tallied.len(),
    ensures
        count_sum(tallied.update(at, item)) == count_sum(tallied) - tallied[at].1 + item.1,
    decreases tallied.len(),
{
    let after = tallied.update(at, item);
    if at == tallied.len() - 1 {
        assert(after.drop_last() =~= tallied.drop_last());
    } else {
        lemma_count_sum_update(tallied.drop_last(), at, item);
        assert(after.drop_last() =~= tallied.drop_last().update(at, item));
    }
}

/// Counting a vote keeps the entries apart and adds the weight to the sum of the counts.
pub proof fn lemma_counted_once_sum<T>(tallied: Seq<(T, u64)>, vote: T, weight: u64)
    requires
        distinct(firsts(tallied)),
        count_sum(tallied) + weight <= u64::MAX,
    ensures
        distinct(firsts(counted_once(tallied, vote, weight))),
        count_sum(counted_once(tallied, vote, weight)) == count_sum(tallied) + weight,
{
    let names = firsts(tallied);
    let after = counted_once(tallied, vote, weight);
    let at = position(names, vote);
    crate::candidate::lemma_position(names, vote);
    assert forall|i: int, j: int| 0 <= i < j < firsts(after).len() implies firsts(after)[i]
        != firsts(after)[j] by {
        if j < tallied.len() {
            assert(firsts(after)[i] == names[i]);
            assert(firsts(after)[j] == names[j]);
        } else {
            assert(firsts(after)[i] == names[i]);
            assert(names.contains(names[i]));
        }
    }
    if at < tallied.len() {
        lemma_count_within_sum(tallied, at);
        lemma_count_sum_update(tallied, at, (vote, (tallied[at].1 + weight) as u64));
    } else {
        assert(after.drop_last() =~= tallied);
    }
}

/// Counts a vote of the given weight in a list of candidates with their counts: adds the
/// weight to the count of the candidate, or adds the candidate behind the others.
pub fn count_once<T: Eq + Clone>(tallied: &mut Vec<(T, u64)>, vote: T, weight: u64)
    requires
        lawful::<T>(),
        distinct(firsts(old(tallied)@)),
        count_sum(old(tallied)@) + weight <= u64::MAX,
    ensures
        final(tallied)@ == counted_once(old(tallied)@, vote, weight),
        distinct(firsts(final(tallied)@)),
        count_sum(final(tallied)@) == count_sum(old(tallied)@) + weight,
{
    let ghost names = firsts(tallied@);
    proof {
        lemma_counted_once_sum(tallied@, vote, weight);
        crate::candidate::lemma_position(names, vote);
    }
    let mut at: usize = 0;
    while at < tallied.len() && !same_candidate(&tallied[at].0, &vote)
        invariant
            lawful::<T>(),
            tallied@ == old(tallied)@,
            names == firsts(tallied@),
            0 <= at <= tallied@.len(),
            forall|k: int| 0 <= k < at ==> names[k] != vote,
        decreases tallied@.len() - at,
    {
        assert(names[at as int] == tallied@[at as int].0);
        at += 1;
    }
    proof {
        if at < tallied@.len() {
            assert(names[at as int] == tallied@[at as int].0);
            lemma_count_within_sum(tallied@, at as int);
        }
        assert(at == position(names, vote));
    }
    if at < tallied.len() {
        let count = tallied[at].1;
        tallied.set(at, (vote, count + weight));
    } else {
        tallied.push((vote, weight));
    }
}

impl<T: Eq + Clone> PluralityTally<T> {
    /// The candidates with their counts, in the order of their first votes.
    pub open(crate) spec fn tallied(&self) -> Seq<(T, u64)> {
        self.running_total@
    }

    /// The number of winners asked for.
    pub open(crate) spec fn seats(&self) -> usize {
        self.num_winners
    }

    /// The weight of all votes counted so far.
    pub open(crate) spec fn weight_counted(&self) -> nat {
        self.total_weight as nat
    }

    /// Whether the tally is consistent: no candidate has two entries, and no count exceeds
    /// the weight of all votes.
    pub open(crate) spec fn wf(&self) -> bool {
        &&& lawful::<T>()
        &&& counts_within(self.running_total@, self.total_weight as int)
    }

    /// A tally for `num_winners` winners. A tie for the last seats may give more winners;
    /// 0 asks for the whole ranking.
    pub fn new(num_winners: usize) -> (tally: Self)
        requires
            lawful::<T>(),
        ensures
            tally.wf(),
            tally.tallied() == Seq::<(T, u64)>::empty(),
            tally.seats() == num_winners,
            tally.weight_counted() == 0,
    {
        PluralityTally { running_total: Vec::new(), num_winners, total_weight: 0 }
    }

    /// A tally for `num_winners` winners that expects the given number of candidates.
    pub fn with_capacity(num_winners: usize, expected_candidates: usize) -> (tally: Self)
        requires
            lawful::<T>(),
        ensures
            tally.wf(),
            tally.tallied() == Seq::<(T, u64)>::empty(),
            tally.seats() == num_winners,
            tally.weight_counted() == 0,
    {
        PluralityTally {
            running_total: Vec::with_capacity(expected_candidates),
            num_winners,
            total_weight: 0,
        }
    }

    /// The weight of all votes counted so far. A vote can be added as long as this weight
    /// and the vote's do not exceed `u64::MAX` together.
    pub fn total_weight(&self) -> (weight: u64)
        ensures
            weight == self.weight_counted(),
    {
        self.total_weight
    }

    /// Counts a vote of weight 1.
    pub fn add(&mut self, vote: T)
        requires
            old(self).wf(),
            old(self).weight_counted() + 1 <= u64::MAX,
        ensures
            final(self).wf(),
            final(self).tallied() == counted_once(old(self).tallied(), vote, 1),
            final(self).weight_counted() == old(self).weight_counted() + 1,
            final(self).seats() == old(self).seats(),
    {
        self.add_weighted(vote, 1);
    }

    /// Counts a vote of weight 1, given by reference.
    pub fn add_ref(&mut self, vote: &T)
        requires
            old(self).wf(),
            old(self).weight_counted() + 1 <= u64::MAX,
        ensures
            final(self).wf(),
            final(self).tallied() == counted_once(old(self).tallied(), *vote, 1),
            final(self).weight_counted() == old(self).weight_counted() + 1,
            final(self).seats() == old(self).seats(),
    {
        self.add_weighted_ref(vote, 1);
    }

    /// Counts a vote of the given weight.
    pub fn add_weighted(&mut self, vote: T, weight: u64)
        requires
            old(self).wf(),
            old(self).weight_counted() + weight <= u64::MAX,
        ensures
            final(self).wf(),
            final(self).tallied() == counted_once(old(self).tallied(), vote, weight),
            final(self).weight_counted() == old(self).weight_counted() + weight,
            final(self).seats() == old(self).seats(),
    {
        proof {
            lemma_counted_once(self.running_total@, vote, weight, self.total_weight as int);
        }
        match self.find(&vote) {
            Some(at) => {
                let count = self.running_total[at].1;
                self.running_total.set(at, (vote, count + weight));
            },
            None => {
                self.running_total.push((vote, weight));
            },
        }
        self.total_weight = self.total_weight + weight;
    }

    /// Counts a vote of the given weight, given by reference.
    pub fn add_weighted_ref(&mut self, vote: &T, weight: u64)
        requires
            old(self).wf(),
            old(self).weight_counted() + weight <= u64::MAX,
        ensures
            final(self).wf(),
            final(self).tallied() == counted_once(old(self).tallied(), *vote, weight),
            final(self).weight_counted() == old(self).weight_counted() + weight,
            final(self).seats() == old(self).seats(),
    {
        self.add_weighted(copy_candidate(vote), weight);
    }

    /// The place of a candidate among the entries, where it has one.
    fn find(&self, vote: &T) -> (found: Option<usize>)
        requires
            self.wf(),
        ensures
            found.is_some() ==> found.unwrap() == position(firsts(self.tallied()), *vote)
                && found.unwrap() < self.tallied().len(),
            found.is_none() ==> position(firsts(self.tallied()), *vote) == self.tallied().len(),
    {
        let ghost names = firsts(self.running_total@);
        let mut i: usize = 0;
        while i < self.running_total.len()
            invariant
                self.wf(),
                names == firsts(self.running_total@),
                0 <= i <= self.running_total@.len(),
                forall|k: int| 0 <= k < i ==> names[k] != *vote,
            decreases self.running_total@.len() - i,
        {
            if same_candidate(&self.running_total[i].0, vote) {
                proof {
                    assert(names[i as int] == *vote);
                    crate::candidate::lemma_position(names, *vote);
                }
                return Some(i);
            }
            i += 1;
        }
        proof {
            crate::candidate::lemma_position(names, *vote);
        }
        None
    }

    /// All candidates that got a vote, in the order of their first votes.
    pub fn candidates(&self) -> (list: Vec<T>)
        requires
            self.wf(),
        ensures
            list@ == firsts(self.tallied()),
    {
        let mut list: Vec<T> = Vec::with_capacity(self.running_total.len());
        let mut i: usize = 0;
        while i < self.running_total.len()
            invariant
                self.wf(),
                0 <= i <= self.running_total@.len(),
                list@ == firsts(self.running_total@).take(i as int),
            decreases self.running_total@.len() - i,
        {
            list.push(copy_candidate(&self.running_total[i].0));
            proof {
                assert(list@ =~= firsts(self.running_total@).take(i + 1));
            }
            i += 1;
        }
        proof {
            assert(firsts(self.running_total@).take(i as int) =~= firsts(self.running_total@));
        }
        list
    }

    /// The winners: the candidates with the most votes that fill the seats asked for, with
    /// every candidate tied with the last of them. With 0 seats asked for, all candidates.
    pub fn winners(&self) -> (winners: RankedWinners<T>)
        requires
            self.wf(),
        ensures
            winners.num_winners == self.seats(),
            winners.winners@ == crate::result::ranked_by_count(
                crate::sorting::stable_sort(self.tallied()),
            ).take(
                crate::result::winners_cut(
                    crate::result::ranked_by_count(crate::sorting::stable_sort(self.tallied())),
                    self.seats(),
                ),
            ),
    {
        self.get_counted().into_ranked(self.num_winners)
    }

    /// The candidates with their counts, the largest count first; candidates with equal
    /// counts come in the order of their first votes.
    pub fn totals(&self) -> (totals: Vec<(T, u64)>)
        requires
            self.wf(),
        ensures
            totals@ == crate::sorting::stable_sort(self.tallied()),
    {
        self.get_counted().into_vec()
    }

    /// The ranking of all candidates: those with the most votes have rank 0, and
    /// candidates with equal counts are tied.
    pub fn ranked(&self) -> (ranking: Vec<(T, usize)>)
        requires
            self.wf(),
        ensures
            ranking@ == crate::result::pairs_of(
                crate::result::ranked_by_count(crate::sorting::stable_sort(self.tallied())),
            ),
            crate::result::contiguous_ranks(
                crate::result::ranks_of(ranking@),
                self.tallied().len(),
            ),
    {
        let winners = self.get_counted().into_ranked(0);
        proof {
            let sorted = crate::sorting::stable_sort(self.tallied());
            let all = crate::result::ranked_by_count(sorted);
            crate::sorting::lemma_stable_sort(self.tallied());
            assert(all.take(all.len() as int) =~= all);
            crate::result::lemma_dense_ranks_fill(sorted);
            assert(crate::result::ranks_fill(
                crate::result::ranks_of(crate::result::pairs_of(all)),
                if sorted.len() == 0 {
                    0
                } else {
                    crate::result::dense_rank(sorted, sorted.len() - 1) + 1
                },
            ));
        }
        crate::result::into_pairs(winners.into_vec())
    }

    /// The candidates with their counts, in the order of their first votes.
    pub fn get_counted(&self) -> (counted: CountedCandidates<T>)
        requires
            self.wf(),
        ensures
            counted.0@ == self.tallied(),
    {
        let mut counted = CountedCandidates::<T>::new();
        let mut i: usize = 0;
        while i < self.running_total.len()
            invariant
                self.wf(),
                0 <= i <= self.running_total@.len(),
                counted.0@ == self.running_total@.take(i as int),
            decreases self.running_total@.len() - i,
        {
            counted.push(copy_candidate(&self.running_total[i].0), self.running_total[i].1);
            proof {
                assert(counted.0@ =~= self.running_total@.take(i + 1));
            }
            i += 1;
        }
        proof {
            assert(self.running_total@.take(i as int) =~= self.running_total@);
        }
        counted
    }
}

} // verus!
