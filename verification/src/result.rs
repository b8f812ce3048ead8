//! Ranked candidates, and the winners taken from a ranking.

use crate::candidate::{copy_candidate, lawful, position, same_candidate};
use crate::sorting::{sort_stable, stable_sort, Keyed};
use vstd::prelude::*;
use vstd::std_specs::cmp::PartialEqSpec;
use vstd::std_specs::cmp::PartialEqSpecImpl;
use vstd::std_specs::convert::FromSpecImpl;

verus! {

/// A candidate with its rank. Rank 0 is the best; candidates of equal rank are tied.
#[derive(Debug)]
pub struct RankedCandidate<T: Clone + Eq> {
    /// The candidate.
    pub candidate: T,
    /// Its rank, counted from zero.
    pub rank: usize,
}

impl<T: Clone + Eq> PartialEq for RankedCandidate<T> {
    fn eq(&self, other: &RankedCandidate<T>) -> (r: bool) {
        self.candidate == other.candidate && self.rank == other.rank
    }
}

impl<T: Clone + Eq> PartialEqSpecImpl for RankedCandidate<T> {
    open spec fn obeys_eq_spec() -> bool {
        T::obeys_eq_spec()
    }

    open spec fn eq_spec(&self, other: &RankedCandidate<T>) -> bool {
        self.candidate.eq_spec(&other.candidate) && self.rank == other.rank
    }
}

impl<T: Clone + Eq> Eq for RankedCandidate<T> {

}

impl<T: Clone + Eq> PartialEq<(T, usize)> for RankedCandidate<T> {
    fn eq(&self, other: &(T, usize)) -> (r: bool) {
        self.candidate == other.0 && self.rank == other.1
    }
}

impl<T: Clone + Eq> PartialEqSpecImpl<(T, usize)> for RankedCandidate<T> {
    open spec fn obeys_eq_spec() -> bool {
        T::obeys_eq_spec()
    }

    open spec fn eq_spec(&self, other: &(T, usize)) -> bool {
        self.candidate.eq_spec(&other.0) && self.rank == other.1
    }
}

impl<T: Clone + Eq> From<(T, usize)> for RankedCandidate<T> {
    fn from(pair: (T, usize)) -> (r: RankedCandidate<T>) {
        RankedCandidate { candidate: pair.0, rank: pair.1 }
    }
}

impl<T: Clone + Eq> FromSpecImpl<(T, usize)> for RankedCandidate<T> {
    open spec fn obeys_from_spec() -> bool {
        true
    }

    open spec fn from_spec(pair: (T, usize)) -> RankedCandidate<T> {
        RankedCandidate { candidate: pair.0, rank: pair.1 }
    }
}

impl<T: Clone + Eq> Keyed for RankedCandidate<T> {
    open spec fn sort_key(&self) -> int {
        self.rank as int
    }

    fn key_at_most(&self, other: &Self) -> (at_most: bool) {
        self.rank <= other.rank
    }
}

/// The ranks of a list of pairs of something and its rank, in the list's order.
pub open spec fn ranks_of<A>(ranked: Seq<(A, usize)>) -> Seq<usize> {
    Seq::new(ranked.len(), |i: int| ranked[i].1)
}

/// Whether the ranks of a list of pairs of something and its rank never decrease.
pub open spec fn ranks_rise<A>(ranked: Seq<(A, usize)>) -> bool {
    forall|i: int, j: int| 0 <= i <= j < ranked.len() ==> ranked[i].1 <= ranked[j].1
}

/// Whether the ranks that occur are exactly those below `count`.
pub open spec fn ranks_fill(ranks: Seq<usize>, count: nat) -> bool {
    forall|rank: usize| #[trigger] ranks.contains(rank) <==> rank < count
}

/// Whether the ranks that occur are exactly those below some number that does not exceed
/// `limit`: with any rank all smaller ranks occur.
pub open spec fn contiguous_ranks(ranks: Seq<usize>, limit: nat) -> bool {
    exists|count: nat| count <= limit && #[trigger] ranks_fill(ranks, count)
}

/// The ranks of ranked candidates, in their order.
pub open spec fn ranks_in<T: Clone + Eq>(ranking: Seq<RankedCandidate<T>>) -> Seq<usize> {
    Seq::new(ranking.len(), |i: int| ranking[i].rank)
}

/// Whether the ranks of a ranking never decrease.
pub open spec fn ranks_ascend<T: Clone + Eq>(ranking: Seq<RankedCandidate<T>>) -> bool {
    forall|i: int, j: int| 0 <= i <= j < ranking.len() ==> ranking[i].rank <= ranking[j].rank
}

/// The first entries of a ranking whose ranks never decrease and have no gaps have ranks
/// without gaps.
pub proof fn lemma_start_has_no_gaps<T: Clone + Eq>(
    ranking: Seq<RankedCandidate<T>>,
    upto: int,
    limit: nat,
)
    requires
        0 <= upto <= ranking.len(),
        ranks_ascend(ranking),
        contiguous_ranks(ranks_in(ranking), limit),
    ensures
        contiguous_ranks(ranks_in(ranking.take(upto)), limit),
{
    let ranks = ranks_in(ranking);
    let start = ranks_in(ranking.take(upto));
    let count = choose|count: nat| count <= limit && #[trigger] ranks_fill(ranks, count);
    if upto == 0 {
        assert forall|rank: usize| #[trigger] start.contains(rank) <==> rank < 0 by {}
        assert(ranks_fill(start, 0));
    } else {
        let top = ranking[upto - 1].rank;
        assert(ranks[upto - 1] == top);
        assert(ranks.contains(top));
        assert forall|rank: usize| #[trigger] start.contains(rank) <==> rank < top + 1 by {
            if start.contains(rank) {
                let k = choose|k: int| 0 <= k < start.len() && start[k] == rank;
                assert(ranking.take(upto)[k] == ranking[k]);
            }
            if rank < top + 1 {
                assert(ranks.contains(rank));
                let k = choose|k: int| 0 <= k < ranks.len() && ranks[k] == rank;
                if k < upto {
                    assert(start[k] == rank);
                } else {
                    assert(ranking[upto - 1].rank <= ranking[k].rank);
                    assert(start[upto - 1] == rank);
                }
            }
        }
        assert(ranks_fill(start, (top + 1) as nat));
    }
}

/// The candidates of a ranking, in its order.
pub open spec fn candidates_of<T: Clone + Eq>(ranking: Seq<RankedCandidate<T>>) -> Seq<T> {
    Seq::new(ranking.len(), |i: int| ranking[i].candidate)
}

/// The candidates of a ranking that have the given rank, in the ranking's order.
pub open spec fn candidates_with_rank<T: Clone + Eq>(
    ranking: Seq<RankedCandidate<T>>,
    rank: usize,
) -> Seq<T>
    decreases ranking.len(),
{
    if ranking.len() == 0 {
        Seq::empty()
    } else if ranking.last().rank == rank {
        candidates_with_rank(ranking.drop_last(), rank).push(ranking.last().candidate)
    } else {
        candidates_with_rank(ranking.drop_last(), rank)
    }
}

/// A list of (candidate, rank) pairs as ranked candidates.
pub open spec fn as_ranked<T: Clone + Eq>(pairs: Seq<(T, usize)>) -> Seq<RankedCandidate<T>> {
    Seq::new(pairs.len(), |i: int| RankedCandidate { candidate: pairs[i].0, rank: pairs[i].1 })
}

/// The end of the group of equal ranks that position `k` of a sorted ranking lies in or
/// closes: the first position from `k` on at which the rank changes, or the length.
pub open spec fn group_end<T: Clone + Eq>(sorted: Seq<RankedCandidate<T>>, k: int) -> int
    decreases sorted.len() - k,
{
    if k <= 0 || k >= sorted.len() {
        if k <= 0 { 0 } else { sorted.len() as int }
    } else if sorted[k].rank != sorted[k - 1].rank {
        k
    } else {
        group_end(sorted, k + 1)
    }
}

/// How many leading entries of a sorted ranking win `num_winners` seats: all of them
/// where `num_winners` is 0 or no smaller than their number; else `num_winners` of them and
/// those that follow with the rank of the last of these.
pub open spec fn winners_cut<T: Clone + Eq>(
    sorted: Seq<RankedCandidate<T>>,
    num_winners: usize,
) -> int {
    if num_winners == 0 || sorted.len() <= num_winners {
        sorted.len() as int
    } else {
        group_end(sorted, num_winners as int)
    }
}

/// The end of a group lies at or behind its start, within the ranking; all entries between
/// the two have the rank of the entry before the start, and the entry at the end has not.
pub proof fn lemma_group_end<T: Clone + Eq>(sorted: Seq<RankedCandidate<T>>, k: int)
    requires
        0 < k <= sorted.len(),
    ensures
        k <= group_end(sorted, k) <= sorted.len(),
        forall|i: int|
            k <= i < group_end(sorted, k) ==> (#[trigger] sorted[i]).rank == sorted[k - 1].rank,
        group_end(sorted, k) < sorted.len() ==> sorted[group_end(sorted, k)].rank != sorted[k
            - 1].rank,
    decreases sorted.len() - k,
{
    if k < sorted.len() && sorted[k].rank == sorted[k - 1].rank {
        lemma_group_end(sorted, k + 1);
    }
}

/// Whether a sorted ranking has a tie for the last of `num_winners` seats: it goes on
/// behind that seat with the rank of the candidate in it.
pub open spec fn tie_for_last_seat<T: Clone + Eq>(
    sorted: Seq<RankedCandidate<T>>,
    num_winners: usize,
) -> bool {
    num_winners > 0 && sorted.len() > num_winners && sorted[num_winners as int].rank
        == sorted[num_winners - 1].rank
}

/// With at least one seat to fill, more candidates win than there are seats exactly when
/// the ranking goes on behind the last seat with the rank of the candidate in it. Without
/// such a tie the winners fill the seats, or are all the candidates where these are fewer.
pub proof fn lemma_overflow_iff_tie_at_last_seat<T: Clone + Eq>(
    sorted: Seq<RankedCandidate<T>>,
    num_winners: usize,
)
    requires
        num_winners > 0,
    ensures
        tie_for_last_seat(sorted, num_winners) ==> num_winners < winners_cut(sorted, num_winners)
            <= sorted.len(),
        !tie_for_last_seat(sorted, num_winners) ==> winners_cut(sorted, num_winners)
            == if sorted.len() < num_winners {
            sorted.len() as int
        } else {
            num_winners as int
        },
{
    if sorted.len() > num_winners {
        lemma_group_end(sorted, num_winners as int);
        if sorted[num_winners as int].rank == sorted[num_winners - 1].rank {
            lemma_group_end(sorted, num_winners + 1);
        }
    }
}

/// A ranked list of winning candidates, sorted by rank. Winners of equal rank are tied.
#[derive(Debug)]
pub struct RankedWinners<T: Clone + Eq> {
    /// The winners with their ranks.
    pub winners: Vec<RankedCandidate<T>>,
    /// The number of winners asked for. More candidates win where the last seats are tied;
    /// 0 asks for the whole ranking.
    pub num_winners: usize,
}

impl<T: Clone + Eq> RankedWinners<T> {
    /// The number of winners.
    pub fn len(&self) -> (n: usize)
        ensures
            n == self.winners@.len(),
    {
        self.winners.len()
    }

    /// Whether there is no winner.
    pub fn is_empty(&self) -> (empty: bool)
        ensures
            empty == (self.winners@.len() == 0),
    {
        self.winners.len() == 0
    }

    /// Takes the winners from position `start` up to `end` out of the list and returns them.
    pub fn drain(&mut self, start: usize, end: usize) -> (drained: Vec<RankedCandidate<T>>)
        requires
            start <= end <= old(self).winners@.len(),
        ensures
            drained@ == old(self).winners@.subrange(start as int, end as int),
            final(self).winners@ == old(self).winners@.subrange(0, start as int) + old(
                self,
            ).winners@.subrange(end as int, old(self).winners@.len() as int),
            final(self).num_winners == old(self).num_winners,
    {
        let mut tail = self.winners.split_off(end);
        let drained = self.winners.split_off(start);
        self.winners.append(&mut tail);
        drained
    }

    /// The winners with their ranks, as a vector.
    pub fn into_vec(self) -> (winners: Vec<RankedCandidate<T>>)
        ensures
            winners == self.winners,
    {
        self.winners
    }

    /// All winners, without their ranks.
    pub fn all(&self) -> (winners: Vec<T>)
        requires
            lawful::<T>(),
        ensures
            winners@ == candidates_of(self.winners@),
    {
        let mut winners: Vec<T> = Vec::with_capacity(self.winners.len());
        let mut i: usize = 0;
        while i < self.winners.len()
            invariant
                lawful::<T>(),
                0 <= i <= self.winners@.len(),
                winners@ == candidates_of(self.winners@.take(i as int)),
            decreases self.winners@.len() - i,
        {
            winners.push(copy_candidate(&self.winners[i].candidate));
            proof {
                assert(self.winners@.take(i + 1)[i as int] == self.winners@[i as int]);
                assert(winners@ =~= candidates_of(self.winners@.take(i + 1)));
            }
            i += 1;
        }
        proof {
            assert(self.winners@.take(i as int) =~= self.winners@);
        }
        winners
    }

    /// Walks over the winners with their ranks, from the first.
    pub fn iter(&self) -> (walk: IterWinners<'_, T>)
        ensures
            walk.inner == self,
            walk.pos == 0,
    {
        IterWinners { inner: self, pos: 0 }
    }

    /// Whether `candidate` is among the winners.
    pub fn contains(&self, candidate: &T) -> (found: bool)
        requires
            lawful::<T>(),
        ensures
            found == candidates_of(self.winners@).contains(*candidate),
    {
        self.rank(candidate).is_some()
    }

    /// The rank of `candidate`, where it is among the winners: that of its first entry.
    pub fn rank(&self, candidate: &T) -> (rank: Option<usize>)
        requires
            lawful::<T>(),
        ensures
            rank.is_some() == candidates_of(self.winners@).contains(*candidate),
            rank.is_some() ==> rank.unwrap() == self.winners@[position(
                candidates_of(self.winners@),
                *candidate,
            )].rank,
    {
        let ghost names = candidates_of(self.winners@);
        let mut i: usize = 0;
        while i < self.winners.len()
            invariant
                lawful::<T>(),
                names == candidates_of(self.winners@),
                0 <= i <= self.winners@.len(),
                forall|k: int| 0 <= k < i ==> names[k] != *candidate,
            decreases self.winners@.len() - i,
        {
            if same_candidate(candidate, &self.winners[i].candidate) {
                proof {
                    crate::candidate::lemma_position(names, *candidate);
                    assert(names[i as int] == *candidate);
                }
                return Some(self.winners[i].rank);
            }
            i += 1;
        }
        proof {
            crate::candidate::lemma_position(names, *candidate);
        }
        None
    }

    /// All winners without their ranks, taken out of the list.
    pub fn into_unranked(self) -> (winners: Vec<T>)
        ensures
            winners@ == candidates_of(self.winners@),
    {
        let ghost all = self.winners@;
        let mut back = reversed(self.winners);
        let mut winners: Vec<T> = Vec::new();
        while back.len() > 0
            invariant
                back@.len() <= all.len(),
                winners@.len() == all.len() - back@.len(),
                forall|k: int| 0 <= k < back@.len() ==> back@[k] == all[all.len() - 1 - k],
                forall|k: int| 0 <= k < winners@.len() ==> winners@[k] == all[k].candidate,
            decreases back@.len(),
        {
            let next = back.pop().unwrap();
            winners.push(next.candidate);
        }
        proof {
            assert(winners@ =~= candidates_of(all));
        }
        winners
    }

    /// Whether more candidates won than were asked for, which a tie for the last seats
    /// brings about.
    pub fn check_overflow(&self) -> (overflows: bool)
        ensures
            overflows == (self.winners@.len() > self.num_winners),
    {
        self.winners.len() > self.num_winners
    }

    /// The winners that share the rank of the last one, where more candidates won than were
    /// asked for; `None` where they did not.
    pub fn overflow(&self) -> (tied: Option<Vec<T>>)
        requires
            lawful::<T>(),
        ensures
            tied.is_some() == (self.winners@.len() > self.num_winners),
            tied.is_some() ==> tied.unwrap()@ == candidates_with_rank(
                self.winners@,
                self.winners@.last().rank,
            ),
    {
        if self.check_overflow() {
            let mut tied: Vec<T> = Vec::new();
            let overflow_rank = self.winners[self.winners.len() - 1].rank;
            let mut i: usize = 0;
            while i < self.winners.len()
                invariant
                    lawful::<T>(),
                    0 <= i <= self.winners@.len(),
                    tied@ == candidates_with_rank(self.winners@.take(i as int), overflow_rank),
                decreases self.winners@.len() - i,
            {
                proof {
                    let next = self.winners@.take(i + 1);
                    assert(next.drop_last() =~= self.winners@.take(i as int));
                    assert(next.last() == self.winners@[i as int]);
                }
                if self.winners[i].rank == overflow_rank {
                    tied.push(copy_candidate(&self.winners[i].candidate));
                }
                i += 1;
            }
            proof {
                assert(self.winners@.take(i as int) =~= self.winners@);
            }
            Some(tied)
        } else {
            None
        }
    }

    /// An empty list of winners.
    pub fn new(num_winners: usize) -> (winners: Self)
        ensures
            winners.winners@.len() == 0,
            winners.num_winners == num_winners,
    {
        RankedWinners { winners: Vec::new(), num_winners }
    }

    /// Adds a winner at the end of the list. The list stays sorted only where no earlier
    /// winner has a larger rank: `sort` puts it in order.
    pub fn push(&mut self, candidate: T, rank: usize)
        ensures
            final(self).winners@ == old(self).winners@.push(RankedCandidate { candidate, rank }),
            final(self).num_winners == old(self).num_winners,
    {
        self.winners.push(RankedCandidate { candidate, rank });
    }

    /// Sorts the winners by rank; tied winners keep their order.
    pub fn sort(&mut self)
        ensures
            final(self).winners@ == stable_sort(old(self).winners@),
            final(self).num_winners == old(self).num_winners,
    {
        sort_stable(&mut self.winners);
    }

    /// The winners of `num_winners` seats from a list of candidates with their ranks.
    ///
    /// The list is put in the order of its ranks, tied candidates keeping their order. Then
    /// the first `num_winners` candidates win, and with them those that follow with the
    /// rank of the last of these: a tie is never split, so more candidates may win than
    /// were asked for. With `num_winners` 0 every candidate is returned.
    pub fn from_ranked(ranked: Vec<(T, usize)>, num_winners: usize) -> (winners: Self)
        ensures
            winners.num_winners == num_winners,
            winners.winners@ == stable_sort(as_ranked(ranked@)).take(
                winners_cut(stable_sort(as_ranked(ranked@)), num_winners),
            ),
            num_winners > 0 ==> (winners.winners@.len() > num_winners <==> tie_for_last_seat(
                stable_sort(as_ranked(ranked@)),
                num_winners,
            )),
            num_winners > 0 && !tie_for_last_seat(stable_sort(as_ranked(ranked@)), num_winners)
                ==> winners.winners@.len() == if ranked@.len() < num_winners {
                ranked@.len()
            } else {
                num_winners as nat
            },
            num_winners == 0 ==> winners.winners@.len() == ranked@.len(),
    {
        let ghost pairs = ranked@;
        let mut all = Self::new(num_winners);
        let mut back = reversed(ranked);
        while back.len() > 0
            invariant
                back@.len() <= pairs.len(),
                all.num_winners == num_winners,
                all.winners@.len() == pairs.len() - back@.len(),
                forall|k: int| 0 <= k < back@.len() ==> back@[k] == pairs[pairs.len() - 1 - k],
                forall|k: int|
                    0 <= k < all.winners@.len() ==> all.winners@[k] == as_ranked(pairs)[k],
            decreases back@.len(),
        {
            let (candidate, rank) = back.pop().unwrap();
            all.push(candidate, rank);
        }
        proof {
            assert(all.winners@ =~= as_ranked(pairs));
        }
        all.sort();
        let ghost sorted = all.winners@;
        proof {
            crate::sorting::lemma_stable_sort(as_ranked(pairs));
            if num_winners > 0 {
                lemma_overflow_iff_tie_at_last_seat(sorted, num_winners);
            }
        }
        let total = all.winners.len();
        if num_winners != 0 && total > num_winners {
            let mut cut: usize = num_winners;
            while cut < total && all.winners[cut].rank == all.winners[cut - 1].rank
                invariant
                    all.winners@ == sorted,
                    total == sorted.len(),
                    0 < num_winners <= cut <= total,
                    group_end(sorted, num_winners as int) == group_end(sorted, cut as int),
                decreases total - cut,
            {
                cut += 1;
            }
            all.winners.truncate(cut);
            proof {
                assert(all.winners@ =~= sorted.take(cut as int));
            }
        } else {
            proof {
                assert(sorted.take(total as int) =~= sorted);
            }
        }
        all
    }
}

impl<T: Clone + Eq> Default for RankedWinners<T> {
    fn default() -> (winners: Self)
        ensures
            winners.winners@.len() == 0,
            winners.num_winners == 0,
    {
        RankedWinners { winners: Vec::new(), num_winners: 0 }
    }
}

impl<T: Clone + Eq> Keyed for (T, u64) {
    /// A larger count comes first.
    open spec fn sort_key(&self) -> int {
        -(self.1 as int)
    }

    fn key_at_most(&self, other: &Self) -> (at_most: bool) {
        self.1 >= other.1
    }
}

/// The values of a vector in the opposite order.
pub fn reversed<A>(list: Vec<A>) -> (back: Vec<A>)
    ensures
        back@ == list@.reverse(),
{
    let ghost all = list@;
    let mut rest = list;
    let mut back: Vec<A> = Vec::new();
    while rest.len() > 0
        invariant
            rest@.len() <= all.len(),
            rest@ == all.take(rest@.len() as int),
            back@.len() == all.len() - rest@.len(),
            forall|k: int| 0 <= k < back@.len() ==> back@[k] == all[all.len() - 1 - k],
        decreases rest@.len(),
    {
        let last = rest.pop().unwrap();
        back.push(last);
        proof {
            assert(rest@ =~= all.take(rest@.len() as int));
        }
    }
    proof {
        assert(back@ =~= all.reverse());
    }
    back
}

/// The rank of the entry at position `k` of a list sorted by count: the number of places
/// up to `k` at which the count differs from the count before.
pub open spec fn dense_rank<T>(sorted: Seq<(T, u64)>, k: int) -> nat
    decreases k,
{
    if k <= 0 {
        0
    } else {
        dense_rank(sorted, k - 1) + if sorted[k].1 != sorted[k - 1].1 {
            1nat
        } else {
            0nat
        }
    }
}

/// The candidates of a list sorted by count, each with its rank: the candidates with the
/// largest count have rank 0, those with the next count rank 1, and so on.
pub open spec fn ranked_by_count<T: Clone + Eq>(sorted: Seq<(T, u64)>) -> Seq<RankedCandidate<T>> {
    Seq::new(
        sorted.len(),
        |k: int| RankedCandidate { candidate: sorted[k].0, rank: dense_rank(sorted, k) as usize },
    )
}

/// The rank of an entry is at most its position, and no smaller than the ranks before it.
pub proof fn lemma_dense_rank<T>(sorted: Seq<(T, u64)>, k: int)
    requires
        0 <= k < sorted.len(),
    ensures
        dense_rank(sorted, k) <= k,
        forall|i: int| 0 <= i <= k ==> dense_rank(sorted, i) <= dense_rank(sorted, k),
    decreases k,
{
    if k > 0 {
        lemma_dense_rank(sorted, k - 1);
    }
}

/// The ranks of a list sorted by count are exactly those up to the rank of its last entry.
pub proof fn lemma_dense_ranks_fill<T: Clone + Eq>(sorted: Seq<(T, u64)>)
    ensures
        ranks_fill(
            ranks_of(pairs_of(ranked_by_count(sorted))),
            if sorted.len() == 0 {
                0
            } else {
                dense_rank(sorted, sorted.len() - 1) + 1
            },
        ),
        sorted.len() > 0 ==> dense_rank(sorted, sorted.len() - 1) + 1 <= sorted.len(),
{
    let ranks = ranks_of(pairs_of(ranked_by_count(sorted)));
    if sorted.len() > 0 {
        let top = dense_rank(sorted, sorted.len() - 1);
        lemma_dense_rank(sorted, sorted.len() - 1);
        assert forall|rank: usize| #[trigger] ranks.contains(rank) <==> rank < top + 1 by {
            if ranks.contains(rank) {
                let k = choose|k: int| 0 <= k < ranks.len() && ranks[k] == rank;
                lemma_dense_rank(sorted, k);
            }
            if rank < top + 1 {
                lemma_dense_rank_occurs(sorted, sorted.len() - 1, rank as nat);
                let k = choose|k: int|
                    0 <= k <= sorted.len() - 1 && dense_rank(sorted, k) == rank as nat;
                lemma_dense_rank(sorted, k);
                assert(ranks[k] == rank);
            }
        }
    } else {
        assert forall|rank: usize| #[trigger] ranks.contains(rank) <==> rank < 0 by {}
    }
}

/// Every rank up to the rank of an entry is the rank of that entry or of one before it.
pub proof fn lemma_dense_rank_occurs<T>(sorted: Seq<(T, u64)>, k: int, rank: nat)
    requires
        0 <= k < sorted.len(),
        rank <= dense_rank(sorted, k),
    ensures
        exists|i: int| 0 <= i <= k && dense_rank(sorted, i) == rank,
    decreases k,
{
    if rank == dense_rank(sorted, k) {
    } else {
        lemma_dense_rank_occurs(sorted, k - 1, rank);
    }
}

/// The entries of rank 0 of a list sorted by count have the count of the first entry.
pub proof fn lemma_dense_rank_zero<T>(sorted: Seq<(T, u64)>, k: int)
    requires
        0 <= k < sorted.len(),
        dense_rank(sorted, k) == 0,
    ensures
        sorted[k].1 == sorted[0].1,
    decreases k,
{
    if k > 0 {
        lemma_dense_rank_zero(sorted, k - 1);
    }
}

/// Of two entries of a list sorted by count, the one with another count than an earlier
/// entry has a larger rank than that entry.
pub proof fn lemma_dense_rank_grows<T>(sorted: Seq<(T, u64)>, early: int, late: int)
    requires
        0 <= early < late < sorted.len(),
        sorted[early].1 != sorted[late].1,
    ensures
        dense_rank(sorted, early) < dense_rank(sorted, late),
    decreases late,
{
    lemma_dense_rank(sorted, late - 1);
    if sorted[late - 1].1 != sorted[early].1 {
        lemma_dense_rank_grows(sorted, early, late - 1);
    }
}

/// Whether a ranking has the first candidate with a smaller rank than the second.
pub open spec fn ranked_ahead<T>(ranking: Seq<(T, usize)>, first: T, second: T) -> bool {
    exists|at: int, behind: int|
        0 <= at < ranking.len() && 0 <= behind < ranking.len() && (#[trigger] ranking[at]).0
            == first && (#[trigger] ranking[behind]).0 == second && ranking[at].1
            < ranking[behind].1
}

/// Whether a ranking has the first candidate with a rank that is no larger than that of the
/// second.
pub open spec fn ranked_not_behind<T>(ranking: Seq<(T, usize)>, first: T, second: T) -> bool {
    exists|at: int, other: int|
        0 <= at < ranking.len() && 0 <= other < ranking.len() && (#[trigger] ranking[at]).0
            == first && (#[trigger] ranking[other]).0 == second && ranking[at].1
            <= ranking[other].1
}

/// A candidate with a larger count is ranked ahead of one with a smaller count.
pub proof fn lemma_larger_count_ranks_ahead<T: Clone + Eq>(
    counted: Seq<(T, u64)>,
    more: (T, u64),
    fewer: (T, u64),
)
    requires
        counted.len() <= usize::MAX,
        counted.contains(more),
        counted.contains(fewer),
        more.1 > fewer.1,
    ensures
        ranked_ahead(pairs_of(ranked_by_count(stable_sort(counted))), more.0, fewer.0),
{
    let sorted = stable_sort(counted);
    let ranking = pairs_of(ranked_by_count(sorted));
    crate::sorting::lemma_stable_sort(counted);
    crate::sorting::lemma_stable_sort_contains(counted, more);
    crate::sorting::lemma_stable_sort_contains(counted, fewer);
    let at = choose|at: int| 0 <= at < sorted.len() && sorted[at] == more;
    let behind = choose|behind: int| 0 <= behind < sorted.len() && sorted[behind] == fewer;
    if behind <= at {
        assert(sorted[behind].sort_key() <= sorted[at].sort_key());
    }
    lemma_dense_rank_grows(sorted, at, behind);
    lemma_dense_rank(sorted, at);
    lemma_dense_rank(sorted, behind);
    assert(ranking[at] == (more.0, dense_rank(sorted, at) as usize));
    assert(ranking[behind] == (fewer.0, dense_rank(sorted, behind) as usize));
}

/// Whether the first `cut` entries of a ranking are closed under rank: an entry whose rank
/// is no larger than that of one of them is one of them, and they are not empty unless the
/// ranking is.
pub open spec fn closed_start<T>(ranking: Seq<(T, usize)>, cut: int) -> bool {
    &&& 0 <= cut <= ranking.len()
    &&& ranking.len() > 0 ==> cut > 0
    &&& forall|i: int, j: int|
        0 <= i < ranking.len() && 0 <= j < cut && ranking[i].1 <= ranking[j].1 ==> i < cut
}

/// The winners of a ranking whose ranks never decrease are a start of it that is closed
/// under rank.
pub proof fn lemma_winners_are_closed_start<T: Clone + Eq>(
    sorted: Seq<RankedCandidate<T>>,
    num_winners: usize,
)
    requires
        ranks_ascend(sorted),
    ensures
        closed_start(pairs_of(sorted), winners_cut(sorted, num_winners)),
        pairs_of(sorted.take(winners_cut(sorted, num_winners))) == pairs_of(sorted).take(
            winners_cut(sorted, num_winners),
        ),
        ranks_ascend(sorted.take(winners_cut(sorted, num_winners))),
{
    let cut = winners_cut(sorted, num_winners);
    let pairs = pairs_of(sorted);
    if !(num_winners == 0 || sorted.len() <= num_winners) {
        lemma_group_end(sorted, num_winners as int);
        assert forall|i: int, j: int|
            0 <= i < pairs.len() && 0 <= j < cut && pairs[i].1 <= pairs[j].1 implies i < cut by {
            if i >= cut {
                assert(sorted[j].rank <= sorted[cut - 1].rank);
                assert(sorted[cut - 1].rank == sorted[num_winners - 1].rank);
                assert(sorted[cut].rank <= sorted[i].rank);
                assert(sorted[cut - 1].rank <= sorted[cut].rank);
            }
        }
    }
    assert(pairs_of(sorted.take(cut)) =~= pairs.take(cut));
    assert forall|i: int, j: int| 0 <= i <= j < sorted.take(cut).len() implies sorted.take(
        cut,
    )[i].rank <= sorted.take(cut)[j].rank by {
        assert(sorted.take(cut)[i] == sorted[i]);
        assert(sorted.take(cut)[j] == sorted[j]);
    }
}

/// A start of a ranking names no candidate twice where the ranking names none twice.
pub proof fn lemma_start_names_once<T>(ranking: Seq<(T, usize)>, cut: int)
    requires
        0 <= cut <= ranking.len(),
        crate::candidate::firsts(ranking).no_duplicates(),
    ensures
        crate::candidate::firsts(ranking.take(cut)).no_duplicates(),
{
    let names = crate::candidate::firsts(ranking);
    let start = crate::candidate::firsts(ranking.take(cut));
    assert forall|i: int, j: int| 0 <= i < start.len() && 0 <= j < start.len() && i
        != j implies start[i] != start[j] by {
        assert(start[i] == names[i]);
        assert(start[j] == names[j]);
    }
}

/// A candidate that is alone at rank 0 in a ranking is so in a start of it that is closed
/// under rank.
pub proof fn lemma_start_keeps_first<T>(ranking: Seq<(T, usize)>, cut: int, candidate: T)
    requires
        closed_start(ranking, cut),
        ranking.contains((candidate, 0usize)),
    ensures
        ranking.take(cut).contains((candidate, 0usize)),
{
    let at = choose|at: int| 0 <= at < ranking.len() && ranking[at] == (candidate, 0usize);
    assert(ranking[at].1 <= ranking[0].1);
    assert(ranking.take(cut)[at] == ranking[at]);
}

/// Where a ranking has a candidate no later than another that is in a start of it closed
/// under rank, the start has it so too; and likewise for strictly ahead.
pub proof fn lemma_start_keeps_order<T>(ranking: Seq<(T, usize)>, cut: int, first: T, second: T)
    requires
        closed_start(ranking, cut),
        crate::candidate::firsts(ranking).no_duplicates(),
        crate::candidate::firsts(ranking.take(cut)).contains(second),
    ensures
        ranked_not_behind(ranking, first, second) ==> ranked_not_behind(
            ranking.take(cut),
            first,
            second,
        ),
        ranked_ahead(ranking, first, second) ==> ranked_ahead(ranking.take(cut), first, second),
{
    let names = crate::candidate::firsts(ranking);
    let start = ranking.take(cut);
    let k = choose|k: int|
        0 <= k < crate::candidate::firsts(start).len() && crate::candidate::firsts(start)[k]
            == second;
    assert(start[k] == ranking[k]);
    assert(names[k] == second);
    if ranked_not_behind(ranking, first, second) {
        let (at, other) = choose|at: int, other: int|
            0 <= at < ranking.len() && 0 <= other < ranking.len() && (#[trigger] ranking[at]).0
                == first && (#[trigger] ranking[other]).0 == second && ranking[at].1
                <= ranking[other].1;
        assert(names[other] == second);
        assert(other == k);
        assert(start[at] == ranking[at]);
        assert(start[other] == ranking[other]);
    }
    if ranked_ahead(ranking, first, second) {
        let (at, behind) = choose|at: int, behind: int|
            0 <= at < ranking.len() && 0 <= behind < ranking.len() && (#[trigger] ranking[at]).0
                == first && (#[trigger] ranking[behind]).0 == second && ranking[at].1
                < ranking[behind].1;
        assert(names[behind] == second);
        assert(behind == k);
        assert(start[at] == ranking[at]);
        assert(start[behind] == ranking[behind]);
    }
}

/// Where a list with counts names each candidate once, so does its ranking.
pub proof fn lemma_ranking_names_once<T: Clone + Eq>(counted: Seq<(T, u64)>)
    requires
        crate::candidate::distinct(crate::candidate::firsts(counted)),
    ensures
        crate::candidate::firsts(pairs_of(ranked_by_count(stable_sort(counted)))).no_duplicates(),
{
    let sorted = stable_sort(counted);
    let names = crate::candidate::firsts(pairs_of(ranked_by_count(sorted)));
    crate::sorting::lemma_stable_sort(counted);
    assert(counted.no_duplicates()) by {
        assert forall|i: int, j: int| 0 <= i < counted.len() && 0 <= j < counted.len() && i
            != j implies counted[i] != counted[j] by {
            assert(crate::candidate::firsts(counted)[i] == counted[i].0);
            assert(crate::candidate::firsts(counted)[j] == counted[j].0);
        }
    }
    counted.lemma_multiset_has_no_duplicates();
    sorted.lemma_multiset_has_no_duplicates_conv();
    assert forall|a: int, b: int| 0 <= a < names.len() && 0 <= b < names.len() && a
        != b implies names[a] != names[b] by {
        if names[a] == names[b] {
            assert(sorted.contains(sorted[a]));
            assert(sorted.contains(sorted[b]));
            crate::sorting::lemma_stable_sort_contains(counted, sorted[a]);
            crate::sorting::lemma_stable_sort_contains(counted, sorted[b]);
            let i = choose|i: int| 0 <= i < counted.len() && counted[i] == sorted[a];
            let j = choose|j: int| 0 <= j < counted.len() && counted[j] == sorted[b];
            assert(crate::candidate::firsts(counted)[i] == counted[i].0);
            assert(crate::candidate::firsts(counted)[j] == counted[j].0);
            assert(i == j);
            assert(sorted[a] == sorted[b]);
        }
    }
}

/// Ranked candidates as pairs of a candidate and its rank.
pub open spec fn pairs_of<T: Clone + Eq>(ranking: Seq<RankedCandidate<T>>) -> Seq<(T, usize)> {
    Seq::new(ranking.len(), |i: int| (ranking[i].candidate, ranking[i].rank))
}

/// Turns ranked candidates into pairs of a candidate and its rank.
pub fn into_pairs<T: Clone + Eq>(ranking: Vec<RankedCandidate<T>>) -> (pairs: Vec<(T, usize)>)
    ensures
        pairs@ == pairs_of(ranking@),
{
    let ghost all = ranking@;
    let mut back = reversed(ranking);
    let mut pairs: Vec<(T, usize)> = Vec::new();
    while back.len() > 0
        invariant
            back@.len() <= all.len(),
            pairs@.len() == all.len() - back@.len(),
            forall|k: int| 0 <= k < back@.len() ==> back@[k] == all[all.len() - 1 - k],
            forall|k: int| 0 <= k < pairs@.len() ==> pairs@[k] == pairs_of(all)[k],
        decreases back@.len(),
    {
        let next = back.pop().unwrap();
        pairs.push((next.candidate, next.rank));
    }
    proof {
        assert(pairs@ =~= pairs_of(all));
    }
    pairs
}

/// Candidates with their counts, in the order in which they were added or, once sorted,
/// with the largest count first.
#[derive(Debug)]
pub struct CountedCandidates<T: Clone + Eq>(pub Vec<(T, u64)>);

impl<T: Clone + Eq> CountedCandidates<T> {
    /// An empty list.
    pub fn new() -> (counted: Self)
        ensures
            counted.0@.len() == 0,
    {
        CountedCandidates(Vec::new())
    }

    /// The number of candidates.
    pub fn len(&self) -> (n: usize)
        ensures
            n == self.0@.len(),
    {
        self.0.len()
    }

    /// Ranks the candidates by their counts and returns the winners of `num_winners` seats.
    ///
    /// The candidates are sorted by count, the largest first; candidates with equal counts
    /// keep their order and share a rank. The first `num_winners` candidates win, and with
    /// them those that follow with the rank of the last of these. With `num_winners` 0
    /// every candidate is returned.
    pub fn into_ranked(self, num_winners: usize) -> (winners: RankedWinners<T>)
        ensures
            winners.num_winners == num_winners,
            winners.winners@ == ranked_by_count(stable_sort(self.0@)).take(
                winners_cut(ranked_by_count(stable_sort(self.0@)), num_winners),
            ),
    {
        let mut ranked = RankedWinners::<T>::new(num_winners);
        let mut counted = self;
        counted.sort();
        let ghost sorted = counted.0@;
        let ghost all = ranked_by_count(sorted);
        let total = counted.0.len();
        let mut back = reversed(counted.0);
        let mut rank: usize = 0;
        let mut prev: u64 = 0;
        let mut k: usize = 0;
        while k < total
            invariant
                total == sorted.len(),
                sorted == stable_sort(self.0@),
                all == ranked_by_count(sorted),
                0 <= k <= total,
                back@.len() == total - k,
                forall|m: int| 0 <= m < back@.len() ==> back@[m] == sorted[total - 1 - m],
                ranked.num_winners == num_winners,
                ranked.winners@ == all.take(k as int),
                k > 0 ==> rank == dense_rank(sorted, k - 1) && prev == sorted[k - 1].1,
                k == 0 ==> rank == 0,
                num_winners != 0 && k > num_winners ==> group_end(all, num_winners as int)
                    == group_end(all, k as int),
            decreases total - k,
        {
            let (candidate, score) = back.pop().unwrap();
            assert(score == sorted[k as int].1);
            proof {
                lemma_dense_rank(sorted, k as int);
            }
            if k > 0 && score != prev {
                if num_winners != 0 && ranked.winners.len() >= num_winners {
                    proof {
                        lemma_dense_rank(sorted, k - 1);
                        assert(all[k as int].rank != all[k - 1].rank);
                        assert(group_end(all, k as int) == k);
                    }
                    return ranked;
                }
                rank += 1;
            }
            ranked.push(candidate, rank);
            prev = score;
            proof {
                assert(ranked.winners@ =~= all.take(k + 1));
                if num_winners != 0 && k >= num_winners && k > 0 {
                    lemma_dense_rank(sorted, k - 1);
                    assert(all[k as int].rank == all[k - 1].rank);
                    assert(group_end(all, k as int) == group_end(all, k + 1));
                }
            }
            k += 1;
        }
        proof {
            assert(all.take(total as int) =~= all);
        }
        ranked
    }

    /// The candidates with their counts, the largest count first; candidates with equal
    /// counts keep their order.
    pub fn into_vec(self) -> (sorted: Vec<(T, u64)>)
        ensures
            sorted@ == stable_sort(self.0@),
    {
        let mut counted = self;
        counted.sort();
        counted.0
    }

    /// Adds a candidate with its count at the end of the list.
    pub fn push(&mut self, candidate: T, count: u64)
        ensures
            final(self).0@ == old(self).0@.push((candidate, count)),
    {
        self.0.push((candidate, count));
    }

    /// Sorts the candidates by count, the largest first; candidates with equal counts keep
    /// their order.
    pub fn sort(&mut self)
        ensures
            final(self).0@ == stable_sort(old(self).0@),
    {
        sort_stable(&mut self.0);
    }
}

/// A walk over the winners of a `RankedWinners`, from the first to the last.
pub struct IterWinners<'a, T: Clone + Eq> {
    /// The winners walked over.
    pub inner: &'a RankedWinners<T>,
    /// The number of winners handed out so far.
    pub pos: usize,
}

impl<'a, T: Clone + Eq> IterWinners<'a, T> {
    /// Hands out the next winner, or `None` behind the last one.
    pub fn next(&mut self) -> (item: Option<&'a RankedCandidate<T>>)
        ensures
            final(self).inner == old(self).inner,
            old(self).pos < old(self).inner.winners@.len() ==> final(self).pos == old(self).pos
                + 1 && item == Some(&old(self).inner.winners@[old(self).pos as int]),
            old(self).pos >= old(self).inner.winners@.len() ==> final(self).pos == old(self).pos
                && item.is_none(),
    {
        if self.pos >= self.inner.winners.len() {
            None
        } else {
            self.pos += 1;
            Some(&self.inner.winners[self.pos - 1])
        }
    }
}

} // verus!
