//! The Borda count: each vote ranks candidates, a candidate gets points by its place on
//! the vote, and the candidates with the most points win.

use crate::candidate::{
    copy_candidate, distinct, find_candidate, firsts, lawful, lawful_eq, position, same_candidate,
};
use crate::condorcet::registered;
use crate::errors::TallyError;
use crate::result::{CountedCandidates, RankedWinners};
use vstd::prelude::*;

verus! {

/// The way in which a place on a vote gives points.
#[derive(Debug, Clone, Copy, PartialEq, Eq, Structural)]
pub enum Variant {
    /// A candidate gets as many points as there are candidates, less its place and one: the
    /// last of all candidates gets 0 points.
    Borda,
    /// A candidate gets as many points as there are candidates, less its place: the last of
    /// all candidates gets 1 point.
    ClassicBorda,
    /// The first candidate gets 1 point, the second half a point, the third a third of a
    /// point, and so on. These are fractions, so no tally that counts in whole numbers is
    /// made with this variant.
    Dowdall,
    /// A candidate gets as many points as the vote has candidates, less its place.
    ModifiedClassicBorda,
}

/// The points of the candidate at `place`, counted from 0, on a vote that marks
/// `num_marked` of `num_candidates` candidates. The Dowdall variant has no points in whole
/// numbers.
pub open spec fn points_for(variant: Variant, place: int, num_candidates: int, num_marked: int) -> int {
    match variant {
        Variant::Borda => num_candidates - place - 1,
        Variant::ClassicBorda => num_candidates - place,
        Variant::Dowdall => 0,
        Variant::ModifiedClassicBorda => num_marked - place,
    }
}

impl Variant {
    /// Whether the variant gives the place points in whole numbers that are not negative.
    pub open spec fn defined(self, place: usize, num_candidates: usize, num_marked: usize) -> bool {
        &&& !(self is Dowdall)
        &&& points_for(self, place as int, num_candidates as int, num_marked as int) >= 0
    }

    /// Whether `points` can be called with the given place and numbers.
    pub fn is_defined(&self, place: usize, num_candidates: usize, num_marked: usize) -> (defined:
        bool)
        ensures
            defined == self.defined(place, num_candidates, num_marked),
    {
        match self {
            Variant::Borda => place < num_candidates,
            Variant::ClassicBorda => place <= num_candidates,
            Variant::Dowdall => false,
            Variant::ModifiedClassicBorda => place <= num_marked,
        }
    }

    /// The points of the candidate at `candidate_position`, counted from 0, on a vote that
    /// marks `num_marked` of `num_candidates` candidates.
    pub fn points(&self, candidate_position: usize, num_candidates: usize, num_marked: usize) -> (points:
        u64)
        requires
            self.defined(candidate_position, num_candidates, num_marked),
        ensures
            points == points_for(
                *self,
                candidate_position as int,
                num_candidates as int,
                num_marked as int,
            ),
    {
        match self {
            Variant::Borda => (num_candidates - candidate_position - 1) as u64,
            Variant::ClassicBorda => (num_candidates - candidate_position) as u64,
            Variant::Dowdall => vstd::pervasive::unreached(),
            Variant::ModifiedClassicBorda => (num_marked - candidate_position) as u64,
        }
    }
}

/// The points that a vote gives a candidate: those of its place, or none where the vote
/// does not list it.
pub open spec fn ballot_points<T>(variant: Variant, num_candidates: int, ballot: Seq<T>, candidate: T) -> int {
    let place = position(ballot, candidate);
    if place < ballot.len() {
        points_for(variant, place, num_candidates, ballot.len() as int)
    } else {
        0
    }
}

/// The points that votes with their weights give a candidate: for each vote the points of
/// the candidate on it, times the weight.
pub open spec fn candidate_points<T>(
    variant: Variant,
    num_candidates: int,
    ballots: Seq<(Seq<T>, u64)>,
    candidate: T,
) -> int
    decreases ballots.len(),
{
    if ballots.len() == 0 {
        0
    } else {
        candidate_points(variant, num_candidates, ballots.drop_last(), candidate)
            + ballots.last().1 * ballot_points(
            variant,
            num_candidates,
            ballots.last().0,
            candidate,
        )
    }
}

/// The weight of all votes.
pub open spec fn weight_sum<T>(ballots: Seq<(Seq<T>, u64)>) -> int
    decreases ballots.len(),
{
    if ballots.len() == 0 {
        0
    } else {
        weight_sum(ballots.drop_last()) + ballots.last().1
    }
}

/// Votes with their weights, each vote as the sequence of its candidates.
pub open spec fn ballots_of<T>(votes: Seq<(Vec<T>, u64)>) -> Seq<(Seq<T>, u64)> {
    Seq::new(votes.len(), |i: int| (votes[i].0@, votes[i].1))
}

/// The votes after one more vote of the given weight: the weight is added to the weight of
/// the same vote where it was cast before, else the vote is added behind the others.
pub open spec fn voted_once<T>(ballots: Seq<(Seq<T>, u64)>, vote: Seq<T>, weight: u64) -> Seq<
    (Seq<T>, u64),
> {
    let at = position(firsts(ballots), vote);
    if at < ballots.len() {
        ballots.update(at, (vote, (ballots[at].1 + weight) as u64))
    } else {
        ballots.push((vote, weight))
    }
}

/// Whether every vote lists registered candidates only, and none twice.
pub open spec fn ballots_within<T>(ballots: Seq<(Seq<T>, u64)>, candidates: Seq<T>) -> bool {
    forall|b: int|
        0 <= b < ballots.len() ==> distinct((#[trigger] ballots[b]).0) && forall|k: int|
            0 <= k < ballots[b].0.len() ==> candidates.contains(#[trigger] ballots[b].0[k])
}

/// A list of different candidates that are all among `candidates`, which are different
/// too, is no longer than `candidates`.
pub proof fn lemma_ballot_is_short<T>(ballot: Seq<T>, candidates: Seq<T>)
    requires
        distinct(ballot),
        distinct(candidates),
        forall|k: int| 0 <= k < ballot.len() ==> candidates.contains(#[trigger] ballot[k]),
    ensures
        ballot.len() <= candidates.len(),
{
    let ids = Seq::new(ballot.len(), |k: int| position(candidates, ballot[k]));
    assert forall|k: int| 0 <= k < ids.len() implies 0 <= #[trigger] ids[k] < candidates.len() by {
        crate::candidate::lemma_position(candidates, ballot[k]);
    }
    assert forall|i: int, j: int| 0 <= i < ids.len() && 0 <= j < ids.len() && i
        != j implies ids[i] != ids[j] by {
        crate::candidate::lemma_position(candidates, ballot[i]);
        crate::candidate::lemma_position(candidates, ballot[j]);
    }
    crate::graph::lemma_distinct_below(ids, candidates.len());
}

/// One more vote keeps the votes apart and adds its weight to the weight of all votes.
pub proof fn lemma_voted_once<T>(ballots: Seq<(Seq<T>, u64)>, vote: Seq<T>, weight: u64)
    requires
        distinct(firsts(ballots)),
        weight_sum(ballots) + weight <= u64::MAX,
    ensures
        weight_sum(voted_once(ballots, vote, weight)) == weight_sum(ballots) + weight,
        distinct(firsts(voted_once(ballots, vote, weight))),
{
    let names = firsts(ballots);
    let at = position(names, vote);
    let after = voted_once(ballots, vote, weight);
    crate::candidate::lemma_position(names, vote);
    assert forall|i: int, j: int| 0 <= i < j < firsts(after).len() implies firsts(after)[i]
        != firsts(after)[j] by {
        if j < ballots.len() {
            assert(firsts(after)[i] == names[i]);
            assert(firsts(after)[j] == names[j]);
        } else {
            assert(firsts(after)[i] == names[i]);
            assert(names.contains(names[i]));
        }
    }
    if at < ballots.len() {
        lemma_weight_within_sum(ballots, at);
        lemma_weight_sum_update(ballots, at, weight);
    } else {
        assert(after.drop_last() =~= ballots);
    }
}

/// Adding weight to one vote adds it to the weight of all votes.
pub proof fn lemma_weight_sum_update<T>(ballots: Seq<(Seq<T>, u64)>, at: int, weight: u64)
    requires
        0 <= at < ballots.len(),
        ballots[at].1 + weight <= u64::MAX,
    ensures
        weight_sum(ballots.update(at, (ballots[at].0, (ballots[at].1 + weight) as u64)))
            == weight_sum(ballots) + weight,
    decreases ballots.len(),
{
    let after = ballots.update(at, (ballots[at].0, (ballots[at].1 + weight) as u64));
    if at == ballots.len() - 1 {
        assert(after.drop_last() =~= ballots.drop_last());
    } else {
        lemma_weight_sum_update(ballots.drop_last(), at, weight);
        assert(after.drop_last() =~= ballots.drop_last().update(
            at,
            (ballots[at].0, (ballots[at].1 + weight) as u64),
        ));
    }
}

/// Whether two votes list the same candidates in the same order.
pub fn same_ballot<T: PartialEq>(one: &[T], other: &[T]) -> (same: bool)
    requires
        lawful_eq::<T>(),
    ensures
        same == (one@ == other@),
{
    if one.len() != other.len() {
        return false;
    }
    let mut k: usize = 0;
    while k < one.len()
        invariant
            lawful_eq::<T>(),
            one@.len() == other@.len(),
            0 <= k <= one@.len(),
            forall|i: int| 0 <= i < k ==> one@[i] == other@[i],
        decreases one@.len() - k,
    {
        if !same_candidate(&one[k], &other[k]) {
            return false;
        }
        k += 1;
    }
    proof {
        assert(one@ =~= other@);
    }
    true
}

/// The weight of all votes is not negative.
pub proof fn lemma_weight_sum<T>(ballots: Seq<(Seq<T>, u64)>)
    ensures
        0 <= weight_sum(ballots),
    decreases ballots.len(),
{
    if ballots.len() > 0 {
        lemma_weight_sum(ballots.drop_last());
    }
}

/// No vote weighs more than all votes together.
pub proof fn lemma_weight_within_sum<T>(ballots: Seq<(Seq<T>, u64)>, at: int)
    requires
        0 <= at < ballots.len(),
    ensures
        ballots[at].1 <= weight_sum(ballots),
    decreases ballots.len(),
{
    lemma_weight_sum(ballots.drop_last());
    if at < ballots.len() - 1 {
        lemma_weight_within_sum(ballots.drop_last(), at);
    }
}

/// A vote gives a candidate between 0 points and as many as there are candidates.
pub proof fn lemma_ballot_points<T>(variant: Variant, candidates: Seq<T>, ballot: Seq<T>, candidate: T)
    requires
        !(variant is Dowdall),
        distinct(ballot),
        distinct(candidates),
        forall|k: int| 0 <= k < ballot.len() ==> candidates.contains(#[trigger] ballot[k]),
    ensures
        0 <= ballot_points(variant, candidates.len() as int, ballot, candidate) <= candidates.len(),
{
    lemma_ballot_is_short(ballot, candidates);
    crate::candidate::lemma_position(ballot, candidate);
}

/// The points of a candidate are between 0 and the weight of all votes times the number of
/// candidates.
pub proof fn lemma_candidate_points<T>(
    variant: Variant,
    candidates: Seq<T>,
    ballots: Seq<(Seq<T>, u64)>,
    candidate: T,
)
    requires
        !(variant is Dowdall),
        distinct(candidates),
        ballots_within(ballots, candidates),
    ensures
        0 <= candidate_points(variant, candidates.len() as int, ballots, candidate) <= weight_sum(
            ballots,
        ) * candidates.len(),
        0 <= weight_sum(ballots),
    decreases ballots.len(),
{
    let n = candidates.len() as int;
    if ballots.len() > 0 {
        let init = ballots.drop_last();
        assert(ballots_within(init, candidates)) by {
            assert forall|b: int| 0 <= b < init.len() implies distinct((#[trigger] init[b]).0)
                && forall|k: int|
                0 <= k < init[b].0.len() ==> candidates.contains(#[trigger] init[b].0[k]) by {
                assert(init[b] == ballots[b]);
            }
        }
        lemma_candidate_points(variant, candidates, init, candidate);
        let last = ballots.last();
        assert(distinct(last.0) && forall|k: int|
            0 <= k < last.0.len() ==> candidates.contains(#[trigger] last.0[k])) by {
            assert(last == ballots[ballots.len() - 1]);
        }
        lemma_ballot_points(variant, candidates, last.0, candidate);
        let points = ballot_points(variant, n, last.0, candidate);
        let weight = last.1 as int;
        assert(0 <= weight * points <= weight * n) by (nonlinear_arith)
            requires
                0 <= weight,
                0 <= points <= n,
        ;
        assert((weight_sum(init) + weight) * n == weight_sum(init) * n + weight * n)
            by (nonlinear_arith);
    } else {
        assert(0 * n == 0) by (nonlinear_arith);
    }
}

/// The first votes weigh no more than all votes.
pub proof fn lemma_weight_sum_take<T>(ballots: Seq<(Seq<T>, u64)>, upto: int)
    requires
        0 <= upto <= ballots.len(),
    ensures
        0 <= weight_sum(ballots.take(upto)) <= weight_sum(ballots),
    decreases ballots.len(),
{
    lemma_weight_sum(ballots.take(upto));
    if upto == ballots.len() {
        assert(ballots.take(upto) =~= ballots);
    } else {
        lemma_weight_sum_take(ballots.drop_last(), upto);
        assert(ballots.drop_last().take(upto) =~= ballots.take(upto));
    }
}

/// A Borda tally that counts votes in `u64`.
pub type DefaultBordaTally<T> = BordaTally<T>;

/// A Borda tally over candidates of type `T`. It keeps the votes with their weights, each
/// different vote once, and the candidates in the order in which votes first listed them.
pub struct BordaTally<T: Eq + Clone> {
    pub(crate) running_total: Vec<(Vec<T>, u64)>,
    pub(crate) candidates: Vec<T>,
    pub(crate) num_winners: usize,
    pub(crate) variant: Variant,
    pub(crate) total_weight: u64,
}

impl<T: Eq + Clone> BordaTally<T> {
    /// The votes with their weights, in the order in which they were first cast.
    pub open(crate) spec fn ballots(&self) -> Seq<(Seq<T>, u64)> {
        ballots_of(self.running_total@)
    }

    /// The candidates, in the order in which votes first listed them.
    pub open(crate) spec fn candidate_seq(&self) -> Seq<T> {
        self.candidates@
    }

    /// The number of winners asked for.
    pub open(crate) spec fn seats(&self) -> usize {
        self.num_winners
    }

    /// The way in which this tally gives points.
    pub open(crate) spec fn measure(&self) -> Variant {
        self.variant
    }

    /// The weight of all votes counted so far.
    pub open(crate) spec fn weight_counted(&self) -> nat {
        self.total_weight as nat
    }

    /// Whether the tally is consistent: no candidate and no vote is kept twice, the votes
    /// list candidates of the tally, none twice, and the tally does not give Dowdall points.
    pub open(crate) spec fn wf(&self) -> bool {
        &&& lawful::<T>()
        &&& !(self.variant is Dowdall)
        &&& distinct(self.candidates@)
        &&& distinct(firsts(self.ballots()))
        &&& ballots_within(self.ballots(), self.candidates@)
        &&& weight_sum(self.ballots()) == self.total_weight
    }

    /// The candidates in their order, each with its points.
    pub open spec fn points(&self) -> Seq<(T, u64)> {
        Seq::new(
            self.candidate_seq().len(),
            |i: int|
                (
                    self.candidate_seq()[i],
                    candidate_points(
                        self.measure(),
                        self.candidate_seq().len() as int,
                        self.ballots(),
                        self.candidate_seq()[i],
                    ) as u64,
                ),
        )
    }

    /// A tally for `num_winners` winners. The variant is not `Dowdall`: this tally counts
    /// in whole numbers.
    pub fn new(num_winners: usize, variant: Variant) -> (tally: Self)
        requires
            lawful::<T>(),
            !(variant is Dowdall),
        ensures
            tally.wf(),
            tally.ballots() == Seq::<(Seq<T>, u64)>::empty(),
            tally.candidate_seq() == Seq::<T>::empty(),
            tally.seats() == num_winners,
            tally.measure() == variant,
            tally.weight_counted() == 0,
    {
        let tally = BordaTally {
            running_total: Vec::new(),
            candidates: Vec::new(),
            num_winners,
            variant,
            total_weight: 0,
        };
        proof {
            assert(tally.ballots() =~= Seq::<(Seq<T>, u64)>::empty());
        }
        tally
    }

    /// A tally for `num_winners` winners that expects the given number of candidates. The
    /// variant is not `Dowdall`.
    pub fn with_capacity(num_winners: usize, variant: Variant, expected_candidates: usize) -> (tally:
        Self)
        requires
            lawful::<T>(),
            !(variant is Dowdall),
        ensures
            tally.wf(),
            tally.ballots() == Seq::<(Seq<T>, u64)>::empty(),
            tally.candidate_seq() == Seq::<T>::empty(),
            tally.seats() == num_winners,
            tally.measure() == variant,
            tally.weight_counted() == 0,
    {
        let tally = BordaTally {
            running_total: Vec::with_capacity(expected_candidates),
            candidates: Vec::with_capacity(expected_candidates),
            num_winners,
            variant,
            total_weight: 0,
        };
        proof {
            assert(tally.ballots() =~= Seq::<(Seq<T>, u64)>::empty());
        }
        tally
    }

    /// The weight of all votes counted so far. A vote can be added as long as this weight
    /// and the vote's do not exceed `u64::MAX` together.
    pub fn total_weight(&self) -> (weight: u64)
        ensures
            weight == self.weight_counted(),
    {
        self.total_weight
    }

    /// Counts a vote of weight 1 that lists candidates in the order of preference. A vote
    /// that lists a candidate twice is not counted.
    pub fn add(&mut self, vote: Vec<T>) -> (added: Result<(), TallyError>)
        requires
            old(self).wf(),
            distinct(vote@) ==> old(self).weight_counted() + 1 <= u64::MAX,
        ensures
            final(self).wf(),
            added is Ok == distinct(vote@),
            added matches Err(error) ==> error == TallyError::VoteHasDuplicateCandidates
                && *final(self) == *old(self),
            added is Ok ==> final(self).ballots() == voted_once(old(self).ballots(), vote@, 1)
                && final(self).candidate_seq() == registered(old(self).candidate_seq(), vote@)
                && final(self).weight_counted() == old(self).weight_counted() + 1,
            final(self).seats() == old(self).seats(),
            final(self).measure() == old(self).measure(),
    {
        self.add_weighted(vote, 1)
    }

    /// Counts a vote of weight 1, given by reference.
    pub fn add_ref(&mut self, vote: &[T]) -> (added: Result<(), TallyError>)
        requires
            old(self).wf(),
            distinct(vote@) ==> old(self).weight_counted() + 1 <= u64::MAX,
        ensures
            final(self).wf(),
            added is Ok == distinct(vote@),
            added matches Err(error) ==> error == TallyError::VoteHasDuplicateCandidates
                && *final(self) == *old(self),
            added is Ok ==> final(self).ballots() == voted_once(old(self).ballots(), vote@, 1)
                && final(self).candidate_seq() == registered(old(self).candidate_seq(), vote@)
                && final(self).weight_counted() == old(self).weight_counted() + 1,
            final(self).seats() == old(self).seats(),
            final(self).measure() == old(self).measure(),
    {
        self.add_weighted_ref(vote, 1)
    }

    /// Counts a vote of the given weight, given by reference.
    pub fn add_weighted_ref(&mut self, vote: &[T], weight: u64) -> (added: Result<(), TallyError>)
        requires
            old(self).wf(),
            distinct(vote@) ==> old(self).weight_counted() + weight <= u64::MAX,
        ensures
            final(self).wf(),
            added is Ok == distinct(vote@),
            added matches Err(error) ==> error == TallyError::VoteHasDuplicateCandidates
                && *final(self) == *old(self),
            added is Ok ==> final(self).ballots() == voted_once(old(self).ballots(), vote@, weight)
                && final(self).candidate_seq() == registered(old(self).candidate_seq(), vote@)
                && final(self).weight_counted() == old(self).weight_counted() + weight,
            final(self).seats() == old(self).seats(),
            final(self).measure() == old(self).measure(),
    {
        let mut owned: Vec<T> = Vec::with_capacity(vote.len());
        let mut k: usize = 0;
        while k < vote.len()
            invariant
                lawful::<T>(),
                0 <= k <= vote@.len(),
                owned@ == vote@.take(k as int),
            decreases vote@.len() - k,
        {
            owned.push(copy_candidate(&vote[k]));
            proof {
                assert(owned@ =~= vote@.take(k + 1));
            }
            k += 1;
        }
        proof {
            assert(vote@.take(k as int) =~= vote@);
        }
        self.add_weighted(owned, weight)
    }

    /// Counts a vote of the given weight that lists candidates in the order of preference.
    /// A vote that lists a candidate twice is not counted. The candidates of the vote that
    /// no vote listed before become candidates of the tally.
    pub fn add_weighted(&mut self, vote: Vec<T>, weight: u64) -> (added: Result<(), TallyError>)
        requires
            old(self).wf(),
            distinct(vote@) ==> old(self).weight_counted() + weight <= u64::MAX,
        ensures
            final(self).wf(),
            added is Ok == distinct(vote@),
            added matches Err(error) ==> error == TallyError::VoteHasDuplicateCandidates
                && *final(self) == *old(self),
            added is Ok ==> final(self).ballots() == voted_once(old(self).ballots(), vote@, weight)
                && final(self).candidate_seq() == registered(old(self).candidate_seq(), vote@)
                && final(self).weight_counted() == old(self).weight_counted() + weight,
            final(self).seats() == old(self).seats(),
            final(self).measure() == old(self).measure(),
    {
        match crate::check_duplicate(vote.as_slice()) {
            Err(error) => {
                return Err(error);
            },
            Ok(_) => {},
        }
        let ghost known = self.candidates@;
        let ghost before = self.ballots();
        let mut k: usize = 0;
        while k < vote.len()
            invariant
                lawful::<T>(),
                0 <= k <= vote@.len(),
                distinct(self.candidates@),
                self.candidates@ == registered(known, vote@.take(k as int)),
                forall|i: int| 0 <= i < known.len() ==> self.candidates@.contains(#[trigger] known[i]),
                forall|i: int| 0 <= i < k ==> self.candidates@.contains(#[trigger] vote@[i]),
                self.running_total == old(self).running_total,
                self.num_winners == old(self).num_winners,
                self.variant == old(self).variant,
                self.total_weight == old(self).total_weight,
            decreases vote@.len() - k,
        {
            let ghost now = self.candidates@;
            proof {
                let next = vote@.take(k + 1);
                assert(next.drop_last() =~= vote@.take(k as int));
                assert(next.last() == vote@[k as int]);
            }
            if find_candidate(self.candidates.as_slice(), &vote[k]).is_none() {
                self.candidates.push(copy_candidate(&vote[k]));
                proof {
                    assert forall|i: int, j: int|
                        0 <= i < j < self.candidates@.len() implies self.candidates@[i]
                        != self.candidates@[j] by {
                        if j == now.len() {
                            assert(now[i] == self.candidates@[i]);
                            assert(now.contains(now[i]));
                        }
                    }
                    assert forall|i: int| 0 <= i < known.len() implies self.candidates@.contains(
                        #[trigger] known[i],
                    ) by {
                        assert(now.contains(known[i]));
                        let at = choose|at: int| 0 <= at < now.len() && now[at] == known[i];
                        assert(self.candidates@[at] == known[i]);
                    }
                    assert forall|i: int| 0 <= i < k + 1 implies self.candidates@.contains(
                        #[trigger] vote@[i],
                    ) by {
                        if i < k {
                            assert(now.contains(vote@[i]));
                            let at = choose|at: int| 0 <= at < now.len() && now[at] == vote@[i];
                            assert(self.candidates@[at] == vote@[i]);
                        } else {
                            assert(self.candidates@[now.len() as int] == vote@[i]);
                        }
                    }
                }
            }
            k += 1;
        }
        proof {
            assert(vote@.take(k as int) =~= vote@);
            lemma_voted_once(before, vote@, weight);
        }
        let ghost names = firsts(before);
        let mut at: usize = 0;
        while at < self.running_total.len() && !same_ballot(
            self.running_total[at].0.as_slice(),
            vote.as_slice(),
        )
            invariant
                lawful::<T>(),
                names == firsts(ballots_of(self.running_total@)),
                0 <= at <= self.running_total@.len(),
                forall|i: int| 0 <= i < at ==> names[i] != vote@,
            decreases self.running_total@.len() - at,
        {
            assert(names[at as int] == self.running_total@[at as int].0@);
            at += 1;
        }
        proof {
            crate::candidate::lemma_position(names, vote@);
            if at < self.running_total@.len() {
                assert(names[at as int] == self.running_total@[at as int].0@);
            }
            assert(at == position(names, vote@));
        }
        if at < self.running_total.len() {
            proof {
                lemma_weight_within_sum(before, at as int);
            }
            let count = self.running_total[at].1;
            self.running_total.set(at, (vote, count + weight));
        } else {
            self.running_total.push((vote, weight));
        }
        self.total_weight = self.total_weight + weight;
        proof {
            let after = voted_once(before, vote@, weight);
            assert(self.ballots() =~= after);
            assert(ballots_within(after, self.candidates@)) by {
                assert forall|b: int| 0 <= b < after.len() implies distinct((#[trigger] after[b]).0)
                    && forall|i: int|
                    0 <= i < after[b].0.len() ==> self.candidates@.contains(
                        #[trigger] after[b].0[i],
                    ) by {
                    if b < before.len() && b != at {
                        assert(after[b] == before[b]);
                        assert forall|i: int| 0 <= i < after[b].0.len() implies self.candidates@.contains(
                        #[trigger] after[b].0[i]) by {
                            assert(known.contains(before[b].0[i]));
                            let id = choose|id: int|
                                0 <= id < known.len() && known[id] == before[b].0[i];
                            assert(self.candidates@.contains(known[id]));
                        }
                    }
                }
            }
        }
        Ok(())
    }

    /// The candidates with their points, in the order in which votes first listed them.
    /// The points are counted anew on each call; the weight of all votes times the number
    /// of candidates must not exceed `u64::MAX`.
    pub fn get_counted(&self) -> (counted: CountedCandidates<T>)
        requires
            self.wf(),
            self.weight_counted() * self.candidate_seq().len() <= u64::MAX,
        ensures
            counted.0@ == self.points(),
    {
        let n = self.candidates.len();
        let ghost all = self.ballots();
        let ghost names = self.candidates@;
        let mut points: Vec<u64> = Vec::with_capacity(n);
        let mut i: usize = 0;
        while i < n
            invariant
                0 <= i <= n,
                points@.len() == i,
                forall|k: int| 0 <= k < i ==> points@[k] == 0,
            decreases n - i,
        {
            points.push(0);
            i += 1;
        }
        let mut b: usize = 0;
        proof {
            assert(all.take(0) =~= Seq::<(Seq<T>, u64)>::empty());
        }
        while b < self.running_total.len()
            invariant
                self.wf(),
                all == self.ballots(),
                names == self.candidates@,
                n == names.len(),
                self.weight_counted() * n <= u64::MAX,
                0 <= b <= self.running_total@.len(),
                points@.len() == n,
                forall|k: int|
                    0 <= k < n ==> points@[k] == candidate_points(
                        self.variant,
                        n as int,
                        all.take(b as int),
                        #[trigger] names[k],
                    ),
            decreases self.running_total@.len() - b,
        {
            let votecount = self.running_total[b].1;
            let marked = self.running_total[b].0.len();
            let ghost selection = self.running_total@[b as int].0@;
            let ghost done = all.take(b as int);
            let ghost next = all.take(b + 1);
            proof {
                assert(all[b as int] == (selection, votecount));
                assert(next.drop_last() =~= done);
                assert(next.last() == (selection, votecount));
                assert(ballots_within(done, names)) by {
                    assert forall|x: int| 0 <= x < done.len() implies distinct(
                        (#[trigger] done[x]).0,
                    ) && forall|k: int|
                        0 <= k < done[x].0.len() ==> names.contains(#[trigger] done[x].0[k]) by {
                        assert(done[x] == all[x]);
                    }
                }
                lemma_ballot_is_short(selection, names);
                lemma_weight_sum_take(all, b + 1);
                lemma_weight_sum(done);
                assert forall|k: int| 0 <= k < n implies position(selection, #[trigger] names[k])
                    >= 0 by {
                    crate::candidate::lemma_position(selection, names[k]);
                }
            }
            let mut place: usize = 0;
            while place < marked
                invariant
                    self.wf(),
                    all == self.ballots(),
                    names == self.candidates@,
                    n == names.len(),
                    self.weight_counted() * n <= u64::MAX,
                    0 <= b < self.running_total@.len(),
                    selection == self.running_total@[b as int].0@,
                    all[b as int] == (selection, votecount),
                    marked == selection.len(),
                    marked <= n,
                    done == all.take(b as int),
                    ballots_within(done, names),
                    0 <= weight_sum(done),
                    weight_sum(done) + votecount <= weight_sum(all),
                    0 <= place <= marked,
                    points@.len() == n,
                    forall|k: int|
                        0 <= k < n ==> points@[k] == candidate_points(
                            self.variant,
                            n as int,
                            done,
                            #[trigger] names[k],
                        ) + if position(selection, names[k]) < place {
                            votecount * points_for(
                                self.variant,
                                position(selection, names[k]),
                                n as int,
                                marked as int,
                            )
                        } else {
                            0
                        },
                decreases marked - place,
            {
                let candidate = &self.running_total[b].0[place];
                assert(*candidate == selection[place as int]);
                assert(names.contains(selection[place as int]));
                let found = find_candidate(self.candidates.as_slice(), candidate);
                let id = found.unwrap();
                let gained = self.variant.points(place, n, marked);
                proof {
                    crate::candidate::lemma_position(names, *candidate);
                    crate::candidate::lemma_position_of_distinct(selection, place as int);
                    lemma_candidate_points(self.variant, names, done, names[id as int]);
                    let total = weight_sum(all);
                    let sofar = weight_sum(done);
                    assert(votecount * gained <= votecount * n) by (nonlinear_arith)
                        requires
                            0 <= votecount,
                            0 <= gained <= n,
                    ;
                    assert(sofar * n + votecount * n <= total * n) by (nonlinear_arith)
                        requires
                            sofar + votecount <= total,
                            0 <= n,
                    ;
                    assert(0 <= votecount * gained) by (nonlinear_arith)
                        requires
                            0 <= votecount,
                            0 <= gained,
                    ;
                }
                let before = points[id];
                points.set(id, before + votecount * gained);
                proof {
                    assert forall|k: int| 0 <= k < n implies points@[k] == candidate_points(
                        self.variant,
                        n as int,
                        done,
                        #[trigger] names[k],
                    ) + if position(selection, names[k]) < place + 1 {
                        votecount * points_for(
                            self.variant,
                            position(selection, names[k]),
                            n as int,
                            marked as int,
                        )
                    } else {
                        0
                    } by {
                        if k != id {
                            crate::candidate::lemma_position(selection, names[k]);
                            if position(selection, names[k]) == place {
                                assert(selection[place as int] == names[k]);
                            }
                        }
                    }
                }
                place += 1;
            }
            proof {
                assert forall|k: int| 0 <= k < n implies points@[k] == candidate_points(
                    self.variant,
                    n as int,
                    next,
                    #[trigger] names[k],
                ) by {
                    crate::candidate::lemma_position(selection, names[k]);
                }
            }
            b += 1;
        }
        proof {
            assert(all.take(b as int) =~= all);
        }
        let mut counted = CountedCandidates::<T>::new();
        let mut i: usize = 0;
        while i < n
            invariant
                self.wf(),
                names == self.candidates@,
                n == names.len(),
                points@.len() == n,
                0 <= i <= n,
                forall|k: int|
                    0 <= k < n ==> points@[k] == candidate_points(
                        self.variant,
                        n as int,
                        self.ballots(),
                        #[trigger] names[k],
                    ),
                counted.0@ == self.points().take(i as int),
            decreases n - i,
        {
            counted.push(copy_candidate(&self.candidates[i]), points[i]);
            proof {
                assert(counted.0@ =~= self.points().take(i + 1));
            }
            i += 1;
        }
        proof {
            assert(self.points().take(n as int) =~= self.points());
        }
        counted
    }

    /// The candidates with their points, the most points first; candidates with equal
    /// points come in the order in which votes first listed them.
    pub fn totals(&self) -> (totals: Vec<(T, u64)>)
        requires
            self.wf(),
            self.weight_counted() * self.candidate_seq().len() <= u64::MAX,
        ensures
            totals@ == crate::sorting::stable_sort(self.points()),
    {
        self.get_counted().into_vec()
    }

    /// The winners: the candidates with the most points that fill the seats asked for,
    /// with every candidate tied with the last of them.
    pub fn winners(&self) -> (winners: RankedWinners<T>)
        requires
            self.wf(),
            self.weight_counted() * self.candidate_seq().len() <= u64::MAX,
        ensures
            winners.num_winners == self.seats(),
            winners.winners@ == crate::result::ranked_by_count(
                crate::sorting::stable_sort(self.points()),
            ).take(
                crate::result::winners_cut(
                    crate::result::ranked_by_count(crate::sorting::stable_sort(self.points())),
                    self.seats(),
                ),
            ),
    {
        self.get_counted().into_ranked(self.num_winners)
    }

    /// The ranking of all candidates: those with the most points have rank 0, and
    /// candidates with equal points are tied.
    pub fn ranked(&self) -> (ranking: Vec<(T, usize)>)
        requires
            self.wf(),
            self.weight_counted() * self.candidate_seq().len() <= u64::MAX,
        ensures
            ranking@ == crate::result::pairs_of(
                crate::result::ranked_by_count(crate::sorting::stable_sort(self.points())),
            ),
            crate::result::contiguous_ranks(
                crate::result::ranks_of(ranking@),
                self.candidate_seq().len(),
            ),
    {
        let winners = self.get_counted().into_ranked(0);
        proof {
            let sorted = crate::sorting::stable_sort(self.points());
            let all = crate::result::ranked_by_count(sorted);
            crate::sorting::lemma_stable_sort(self.points());
            assert(all.take(all.len() as int) =~= all);
            crate::result::lemma_dense_ranks_fill(sorted);
            assert(crate::result::ranks_fill(
                crate::result::ranks_of(crate::result::pairs_of(all)),
                if sorted.len() == 0 {
                    0
                } else {
                    crate::result::dense_rank(sorted, sorted.len() - 1) + 1
                },
            ));
        }
        crate::result::into_pairs(winners.into_vec())
    }

    /// Whether the points can be counted: the weight of all votes times the number of
    /// candidates does not exceed `u64::MAX`.
    pub fn can_count(&self) -> (countable: bool)
        ensures
            countable == (self.weight_counted() * self.candidate_seq().len() <= u64::MAX),
    {
        let n = self.candidates.len() as u64;
        proof {
            let weight = self.total_weight as int;
            let count = n as int;
            let most = u64::MAX as int;
            if count > 0 {
                assert((weight <= most / count) <==> (weight * count <= most))
                    by (nonlinear_arith)
                    requires
                        count > 0,
                        weight >= 0,
                        most >= 0,
                ;
            } else {
                assert(weight * count == 0) by (nonlinear_arith)
                    requires
                        count == 0,
                ;
            }
        }
        n == 0 || self.total_weight <= u64::MAX / n
    }

    /// All candidates, in the order in which votes first listed them.
    pub fn candidates(&self) -> (list: Vec<T>)
        requires
            self.wf(),
        ensures
            list@ == self.candidate_seq(),
    {
        let mut list: Vec<T> = Vec::with_capacity(self.candidates.len());
        let mut i: usize = 0;
        while i < self.candidates.len()
            invariant
                lawful::<T>(),
                0 <= i <= self.candidates@.len(),
                list@ == self.candidates@.take(i as int),
            decreases self.candidates@.len() - i,
        {
            list.push(copy_candidate(&self.candidates[i]));
            proof {
                assert(list@ =~= self.candidates@.take(i + 1));
            }
            i += 1;
        }
        proof {
            assert(self.candidates@.take(i as int) =~= self.candidates@);
        }
        list
    }
}

/// The points that a table of the caller's own gives the candidate at `place`, counted
/// from 0, on a vote that marks `num_marked` candidates: the entry at `place` in the row
/// `num_marked`. A place that the table leaves out gets no points.
pub open spec fn table_points(table: Seq<Vec<u64>>, place: int, num_marked: int) -> int {
    if 0 <= num_marked < table.len() && 0 <= place < table[num_marked]@.len() {
        table[num_marked]@[place] as int
    } else {
        0
    }
}

/// The points that a vote gives a candidate by a table: those of its place, or none where
/// the vote does not list it.
pub open spec fn table_ballot_points<T>(table: Seq<Vec<u64>>, ballot: Seq<T>, candidate: T) -> int {
    let place = position(ballot, candidate);
    if place < ballot.len() {
        table_points(table, place, ballot.len() as int)
    } else {
        0
    }
}

/// The points that votes with their weights give a candidate by a table: for each vote the
/// points of the candidate on it, times the weight.
pub open spec fn table_candidate_points<T>(
    table: Seq<Vec<u64>>,
    ballots: Seq<(Seq<T>, u64)>,
    candidate: T,
) -> int
    decreases ballots.len(),
{
    if ballots.len() == 0 {
        0
    } else {
        table_candidate_points(table, ballots.drop_last(), candidate) + ballots.last().1
            * table_ballot_points(table, ballots.last().0, candidate)
    }
}

/// The points of a candidate by a table never fall as votes are counted: those of the
/// first votes are not negative and not more than those of all votes.
pub proof fn lemma_table_points_grow<T>(
    table: Seq<Vec<u64>>,
    ballots: Seq<(Seq<T>, u64)>,
    upto: int,
    candidate: T,
)
    requires
        0 <= upto <= ballots.len(),
    ensures
        0 <= table_candidate_points(table, ballots.take(upto), candidate)
            <= table_candidate_points(table, ballots, candidate),
    decreases ballots.len(),
{
    if ballots.len() == 0 {
        assert(ballots.take(upto) =~= ballots);
    } else {
        let init = ballots.drop_last();
        let weight = ballots.last().1 as int;
        let points = table_ballot_points(table, ballots.last().0, candidate);
        crate::candidate::lemma_position(ballots.last().0, candidate);
        assert(0 <= weight * points) by (nonlinear_arith)
            requires
                0 <= weight,
                0 <= points,
        ;
        if upto < ballots.len() {
            lemma_table_points_grow(table, init, upto, candidate);
            assert(init.take(upto) =~= ballots.take(upto));
        } else {
            lemma_table_points_grow(table, init, upto - 1, candidate);
            assert(init.take(upto - 1) =~= init);
            assert(ballots.take(upto) =~= ballots);
        }
    }
}

impl<T: Eq + Clone> BordaTally<T> {
    /// The candidates in their order, each with its points by a table of the caller's own.
    pub open spec fn points_by(&self, table: Seq<Vec<u64>>) -> Seq<(T, u64)> {
        Seq::new(
            self.candidate_seq().len(),
            |i: int|
                (
                    self.candidate_seq()[i],
                    table_candidate_points(table, self.ballots(), self.candidate_seq()[i]) as u64,
                ),
        )
    }

    /// Whether the points of every candidate by the table are within `u64`.
    pub open spec fn countable_by(&self, table: Seq<Vec<u64>>) -> bool {
        forall|i: int|
            0 <= i < self.candidate_seq().len() ==> table_candidate_points(
                table,
                self.ballots(),
                #[trigger] self.candidate_seq()[i],
            ) <= u64::MAX
    }

    /// The candidates with their points by a point system of the caller's own, in the
    /// order in which votes first listed them. The point system is a table: the row of a
    /// number of marked candidates holds the points of the places on a vote that marks so
    /// many; see `table_points`. The variant of the tally plays no part. There is no
    /// result where the points of a candidate exceed `u64::MAX`.
    pub fn get_counted_by(&self, table: &[Vec<u64>]) -> (counted: Option<CountedCandidates<T>>)
        requires
            self.wf(),
        ensures
            counted is Some == self.countable_by(table@),
            counted matches Some(list) ==> list.0@ == self.points_by(table@),
    {
        let n = self.candidates.len();
        let ghost all = self.ballots();
        let ghost names = self.candidates@;
        let mut counted = CountedCandidates::<T>::new();
        let mut i: usize = 0;
        while i < n
            invariant
                self.wf(),
                all == self.ballots(),
                names == self.candidates@,
                n == names.len(),
                0 <= i <= n,
                counted.0@ == self.points_by(table@).take(i as int),
                forall|k: int|
                    0 <= k < i ==> table_candidate_points(table@, all, #[trigger] names[k])
                        <= u64::MAX,
            decreases n - i,
        {
            let candidate = &self.candidates[i];
            let mut total: u64 = 0;
            let mut b: usize = 0;
            proof {
                assert(all.take(0) =~= Seq::<(Seq<T>, u64)>::empty());
            }
            while b < self.running_total.len()
                invariant
                    self.wf(),
                    all == self.ballots(),
                    names == self.candidates@,
                    0 <= i < names.len(),
                    *candidate == names[i as int],
                    0 <= b <= self.running_total@.len(),
                    total == table_candidate_points(table@, all.take(b as int), *candidate),
                decreases self.running_total@.len() - b,
            {
                let weight = self.running_total[b].1;
                let marked = self.running_total[b].0.len();
                let ghost selection = self.running_total@[b as int].0@;
                let mut gained: u64 = 0;
                match find_candidate(self.running_total[b].0.as_slice(), candidate) {
                    Some(place) => {
                        proof {
                            crate::candidate::lemma_position(selection, *candidate);
                        }
                        if marked < table.len() && place < table[marked].len() {
                            gained = table[marked][place];
                        }
                    },
                    None => {},
                }
                assert(gained == table_ballot_points(table@, selection, *candidate));
                proof {
                    let next = all.take(b + 1);
                    assert(all[b as int] == (selection, weight));
                    assert(next.drop_last() =~= all.take(b as int));
                    assert(next.last() == (selection, weight));
                    lemma_table_points_grow(table@, all, b + 1, *candidate);
                    assert(weight * gained <= u64::MAX * u64::MAX) by (nonlinear_arith)
                        requires
                            0 <= weight <= u64::MAX,
                            0 <= gained <= u64::MAX,
                    ;
                    assert(0 <= weight * gained) by (nonlinear_arith)
                        requires
                            0 <= weight,
                            0 <= gained,
                    ;
                }
                let term: u128 = (weight as u128) * (gained as u128);
                let sum: u128 = total as u128 + term;
                if sum > u64::MAX as u128 {
                    proof {
                        assert(table_candidate_points(table@, all.take(b + 1), *candidate)
                            == total + weight * gained);
                        assert(table_candidate_points(table@, all, names[i as int]) > u64::MAX);
                        assert(self.candidate_seq()[i as int] == names[i as int]);
                    }
                    return None;
                }
                total = sum as u64;
                b += 1;
            }
            proof {
                assert(all.take(b as int) =~= all);
            }
            counted.push(copy_candidate(candidate), total);
            proof {
                assert(counted.0@ =~= self.points_by(table@).take(i + 1));
            }
            i += 1;
        }
        proof {
            assert(self.points_by(table@).take(n as int) =~= self.points_by(table@));
        }
        Some(counted)
    }
}

} // verus!
