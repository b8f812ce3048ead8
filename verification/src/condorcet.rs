//! The Condorcet method: candidates are compared pair by pair, and ranked by the Smith sets
//! of the preference graph.

use crate::candidate::{copy_candidate, distinct, find_candidate, lawful, position};
use crate::errors::TallyError;
use crate::graph::{
    edge_for, edges_before, edges_within, is_scc_order, preference_edges, rank_components,
    ranked_ids, smith_sets, tarjan_scc_of, PreferenceEdge, PreferenceGraph,
};
use crate::pairwise::{count_in, counts_vote, pair_entries, prefers, table_within, PairTable};
use crate::result::RankedWinners;
use crate::util::{check_duplicates_ranked_vote, check_duplicates_transitive_vote, voted};
use vstd::prelude::*;

verus! {

/// A Condorcet tally that counts votes in `u64`.
pub type DefaultCondorcetTally<T> = CondorcetTally<T>;

/// A Condorcet tally over candidates of type `T`.
///
/// Candidates are registered once and get ids from zero, in the order in which they were
/// registered. For each ordered pair of candidates the tally holds the weight of the votes
/// that put the first above the second.
///
/// The set of candidates is open or closed. A tally made by `new` has an open set: a vote
/// registers the candidates that it is the first to name. A tally made by
/// `with_candidates` has a closed set: a vote that names another candidate is rejected.
pub struct CondorcetTally<T: Eq + Clone> {
    pub(crate) running_total: PairTable,
    pub(crate) num_winners: usize,
    pub(crate) candidates: Vec<T>,
    pub(crate) check_votes: bool,
    pub(crate) closed: bool,
    pub(crate) total_weight: u64,
}

/// The candidates that registering `list` one by one leaves: each candidate at the place of
/// its first occurrence.
pub open spec fn registered<T>(known: Seq<T>, list: Seq<T>) -> Seq<T>
    decreases list.len(),
{
    if list.len() == 0 {
        known
    } else {
        let before = registered(known, list.drop_last());
        if before.contains(list.last()) {
            before
        } else {
            before.push(list.last())
        }
    }
}

/// The rank of a candidate that a vote does not list: larger than any rank a vote can give.
pub const UNRANKED: u64 = 0x1_0000_0000;

/// The ranks that a vote which lists candidates in the order of preference gives the
/// candidates: to each its first place in the vote, and to those that the vote leaves out
/// the length of the vote, so that they are tied behind all others.
pub open spec fn transitive_ranks<T>(candidates: Seq<T>, vote: Seq<T>) -> Seq<u64> {
    Seq::new(candidates.len(), |id: int| position(vote, candidates[id]) as u64)
}

/// The ranks that a vote of candidates with ranks gives the candidates: to each the rank
/// at its first place in the vote, and to those that the vote leaves out `UNRANKED`, so
/// that they are tied behind all others.
pub open spec fn given_ranks<T>(candidates: Seq<T>, vote: Seq<(T, u32)>) -> Seq<u64> {
    Seq::new(
        candidates.len(),
        |id: int|
            if voted(vote).contains(candidates[id]) {
                vote[position(voted(vote), candidates[id])].1 as u64
            } else {
                UNRANKED
            },
    )
}

/// What the check of a vote finds: an unknown candidate where the vote names a candidate
/// that is not registered; else a duplicate where it names a candidate twice.
pub open spec fn vote_check<T>(candidates: Seq<T>, vote: Seq<T>) -> Result<(), TallyError> {
    if exists|k: int| 0 <= k < vote.len() && !candidates.contains(#[trigger] vote[k]) {
        Err(TallyError::UnknownCandidate)
    } else if !distinct(vote) {
        Err(TallyError::VoteHasDuplicateCandidates)
    } else {
        Ok(())
    }
}

/// What adding a vote returns. A tally that does not check votes takes every vote. One with
/// a closed set of candidates rejects a vote as `vote_check` says. One with an open set
/// rejects a vote only where it names a candidate twice.
pub open spec fn vote_outcome<T>(
    closed: bool,
    checks: bool,
    candidates: Seq<T>,
    vote: Seq<T>,
) -> Result<(), TallyError> {
    if !checks {
        Ok(())
    } else if closed {
        vote_check(candidates, vote)
    } else if !distinct(vote) {
        Err(TallyError::VoteHasDuplicateCandidates)
    } else {
        Ok(())
    }
}

/// The candidates of a tally after a vote that it took: with a closed set those before
/// the vote, with an open set these and behind them the candidates that the vote is the
/// first to name, in the order of the vote.
pub open spec fn candidates_after<T>(closed: bool, candidates: Seq<T>, vote: Seq<T>) -> Seq<T> {
    if closed {
        candidates
    } else {
        registered(candidates, vote)
    }
}

/// A checked tally rejects a vote that names a candidate twice as a duplicate, where its
/// set of candidates is open or holds all candidates of the vote.
pub proof fn lemma_duplicate_vote_is_rejected<T>(closed: bool, candidates: Seq<T>, vote: Seq<T>)
    requires
        !distinct(vote),
        closed ==> forall|k: int| 0 <= k < vote.len() ==> candidates.contains(#[trigger] vote[k]),
    ensures
        vote_outcome(closed, true, candidates, vote) == Err::<(), TallyError>(
            TallyError::VoteHasDuplicateCandidates,
        ),
{
}

/// The entries before the pair (`first`, `second`) as pairs of candidates with their counts,
/// taken pair by pair in the order of the first id and then of the second.
pub open spec fn totals_before<T>(
    candidates: Seq<T>,
    entries: Map<(usize, usize), u64>,
    first: nat,
    second: nat,
) -> Seq<((T, T), u64)>
    decreases first, second,
{
    if second > 0 {
        let front = totals_before(candidates, entries, first, (second - 1) as nat);
        if entries.contains_key((first as usize, (second - 1) as usize)) {
            front.push(
                (
                    (candidates[first as int], candidates[second - 1]),
                    entries[(first as usize, (second - 1) as usize)],
                ),
            )
        } else {
            front
        }
    } else if first > 0 {
        totals_before(candidates, entries, (first - 1) as nat, candidates.len())
    } else {
        Seq::empty()
    }
}

/// Whether `item` is an entry of the table, with the candidates of its pair in place of
/// their ids.
pub open spec fn is_entry<T>(
    candidates: Seq<T>,
    entries: Map<(usize, usize), u64>,
    item: ((T, T), u64),
) -> bool {
    exists|a: usize, b: usize|
        a < candidates.len() && b < candidates.len() && #[trigger] entries.contains_key((a, b))
            && item == ((candidates[a as int], candidates[b as int]), entries[(a, b)])
}

/// The totals before a pair hold the entries before it, and nothing else.
pub proof fn lemma_totals_before<T>(
    candidates: Seq<T>,
    entries: Map<(usize, usize), u64>,
    first: nat,
    second: nat,
)
    requires
        candidates.len() <= usize::MAX,
        first < candidates.len() && second <= candidates.len() || first == candidates.len()
            && second == 0,
    ensures
        forall|a: usize, b: usize|
            a < candidates.len() && b < candidates.len() && (a < first || a == first && b
                < second) && #[trigger] entries.contains_key((a, b)) ==> totals_before(
                candidates,
                entries,
                first,
                second,
            ).contains(((candidates[a as int], candidates[b as int]), entries[(a, b)])),
        forall|k: int|
            0 <= k < totals_before(candidates, entries, first, second).len() ==> is_entry(
                candidates,
                entries,
                #[trigger] totals_before(candidates, entries, first, second)[k],
            ),
    decreases first, second,
{
    let totals = totals_before(candidates, entries, first, second);
    if second > 0 {
        let front = totals_before(candidates, entries, first, (second - 1) as nat);
        lemma_totals_before(candidates, entries, first, (second - 1) as nat);
        let x = first as usize;
        let y = (second - 1) as usize;
        assert forall|a: usize, b: usize|
            a < candidates.len() && b < candidates.len() && (a < first || a == first && b
                < second) && #[trigger] entries.contains_key((a, b)) implies totals.contains(
            ((candidates[a as int], candidates[b as int]), entries[(a, b)]),
        ) by {
            let wanted = ((candidates[a as int], candidates[b as int]), entries[(a, b)]);
            if a == x && b == y {
                assert(totals[front.len() as int] == wanted);
            } else {
                assert(front.contains(wanted));
                let k = choose|k: int| 0 <= k < front.len() && front[k] == wanted;
                assert(totals[k] == front[k]);
            }
        }
        assert forall|k: int| 0 <= k < totals.len() implies is_entry(
            candidates,
            entries,
            #[trigger] totals[k],
        ) by {
            if k < front.len() {
                assert(totals[k] == front[k]);
                assert(is_entry(candidates, entries, front[k]));
            } else {
                assert(entries.contains_key((x, y)) && totals[k] == (
                    (candidates[x as int], candidates[y as int]),
                    entries[(x, y)],
                ));
            }
        }
    } else if first > 0 {
        lemma_totals_before(candidates, entries, (first - 1) as nat, candidates.len());
        assert(totals == totals_before(candidates, entries, (first - 1) as nat, candidates.len()));
    } else {
        assert(totals.len() == 0);
    }
}

/// A ranking of ids as a ranking of the candidates with these ids.
pub open spec fn named<T>(candidates: Seq<T>, ranked: Seq<(usize, usize)>) -> Seq<(T, usize)> {
    Seq::new(ranked.len(), |m: int| (candidates[ranked[m].0 as int], ranked[m].1))
}

/// Whether `candidate` has rank 0 in a ranking, and no other candidate has.
pub open spec fn alone_first<T>(ranking: Seq<(T, usize)>, candidate: T) -> bool {
    &&& ranking.contains((candidate, 0))
    &&& forall|m: int|
        0 <= m < ranking.len() && (#[trigger] ranking[m]).1 == 0 ==> ranking[m].0 == candidate
}

/// Whether three candidates all have the given rank in a ranking.
pub open spec fn tied_at<T>(ranking: Seq<(T, usize)>, a: T, b: T, c: T, rank: usize) -> bool {
    ranking.contains((a, rank)) && ranking.contains((b, rank)) && ranking.contains((c, rank))
}

/// Registering one candidate adds it at the end, unless it is registered already.
pub proof fn lemma_registered_one<T>(known: Seq<T>, candidate: T)
    ensures
        registered(known, seq![candidate]) == if known.contains(candidate) {
            known
        } else {
            known.push(candidate)
        },
{
    let one = seq![candidate];
    assert(one.drop_last() =~= Seq::<T>::empty());
    assert(one.last() == candidate);
    assert(registered(known, one.drop_last()) == known);
}

impl<T: Eq + Clone> CondorcetTally<T> {
    /// The registered candidates; the position of a candidate is its id.
    pub open(crate) spec fn candidate_seq(&self) -> Seq<T> {
        self.candidates@
    }

    /// The entries of the table of pairwise counts.
    pub open(crate) spec fn entries(&self) -> Map<(usize, usize), u64> {
        pair_entries(self.running_total)
    }

    /// The number of winners asked for.
    pub open(crate) spec fn seats(&self) -> usize {
        self.num_winners
    }

    /// Whether votes are checked before they are counted.
    pub open(crate) spec fn checks_votes(&self) -> bool {
        self.check_votes
    }

    /// Whether the set of candidates is closed: a vote cannot add to it.
    pub open(crate) spec fn is_closed(&self) -> bool {
        self.closed
    }

    /// The weight of all votes counted so far.
    pub open(crate) spec fn weight_counted(&self) -> nat {
        self.total_weight as nat
    }

    /// What adding a vote with the given candidates returns; see `vote_outcome`.
    pub open spec fn outcome(&self, names: Seq<T>) -> Result<(), TallyError> {
        vote_outcome(self.is_closed(), self.checks_votes(), self.candidate_seq(), names)
    }

    /// The candidates of the tally after it took a vote with the given candidates; see
    /// `candidates_after`.
    pub open spec fn after(&self, names: Seq<T>) -> Seq<T> {
        candidates_after(self.is_closed(), self.candidate_seq(), names)
    }

    /// The weight of the votes that put candidate `first` above candidate `second`.
    pub open spec fn count(&self, first: usize, second: usize) -> nat {
        count_in(self.entries(), first, second)
    }

    /// Whether the tally is consistent: no candidate is registered twice, every entry of
    /// the table is for two different registered candidates, and no count exceeds the
    /// weight of all votes.
    pub open(crate) spec fn wf(&self) -> bool {
        &&& lawful::<T>()
        &&& distinct(self.candidates@)
        &&& self.candidates@.len() <= usize::MAX
        &&& table_within(self.entries(), self.candidates@.len(), self.total_weight as int)
    }

    /// A tally for `num_winners` winners with an open set of candidates, which is empty
    /// at first. A tie for the last seats may give more winners; 0 asks for the whole
    /// ranking.
    pub fn new(num_winners: usize) -> (tally: Self)
        requires
            lawful::<T>(),
        ensures
            tally.wf(),
            tally.candidate_seq() == Seq::<T>::empty(),
            tally.entries() == crate::pairwise::no_entries(),
            tally.seats() == num_winners,
            tally.checks_votes(),
            !tally.is_closed(),
            tally.weight_counted() == 0,
    {
        CondorcetTally {
            running_total: PairTable::new(),
            num_winners,
            candidates: Vec::new(),
            check_votes: true,
            closed: false,
            total_weight: 0,
        }
    }

    /// A tally for `num_winners` winners with the given candidates as its closed set; one
    /// that occurs again in the list is registered once.
    pub fn with_candidates(num_winners: usize, candidates: Vec<T>) -> (tally: Self)
        requires
            lawful::<T>(),
        ensures
            tally.wf(),
            tally.candidate_seq() == registered(Seq::empty(), candidates@),
            tally.entries() == crate::pairwise::no_entries(),
            tally.seats() == num_winners,
            tally.checks_votes(),
            tally.is_closed(),
            tally.weight_counted() == 0,
    {
        let mut tally = Self::new(num_winners);
        tally.add_candidates(candidates);
        tally.closed = true;
        tally
    }

    /// The same tally without the check of votes: every vote is counted and no adding
    /// function returns an error. Of a candidate that occurs twice in a vote the first
    /// occurrence counts. Candidates of a vote that are not registered are registered where
    /// the set of candidates is open, and passed over where it is closed.
    pub fn unchecked(self) -> (tally: Self)
        requires
            self.wf(),
        ensures
            tally.wf(),
            !tally.checks_votes(),
            tally.is_closed() == self.is_closed(),
            tally.candidate_seq() == self.candidate_seq(),
            tally.entries() == self.entries(),
            tally.seats() == self.seats(),
            tally.weight_counted() == self.weight_counted(),
    {
        CondorcetTally {
            running_total: self.running_total,
            num_winners: self.num_winners,
            candidates: self.candidates,
            check_votes: false,
            closed: self.closed,
            total_weight: self.total_weight,
        }
    }

    /// Registers a candidate and returns its id. A candidate that is registered already
    /// keeps its id; a new one gets the number of candidates registered before it.
    pub fn add_candidate(&mut self, candidate: T) -> (id: usize)
        requires
            old(self).wf(),
        ensures
            final(self).wf(),
            final(self).candidate_seq() == registered(old(self).candidate_seq(), seq![candidate]),
            id == position(old(self).candidate_seq(), candidate),
            final(self).candidate_seq()[id as int] == candidate,
            final(self).entries() == old(self).entries(),
            final(self).seats() == old(self).seats(),
            final(self).checks_votes() == old(self).checks_votes(),
            final(self).is_closed() == old(self).is_closed(),
            final(self).weight_counted() == old(self).weight_counted(),
    {
        proof {
            lemma_registered_one(self.candidates@, candidate);
            crate::candidate::lemma_position(self.candidates@, candidate);
        }
        match find_candidate(self.candidates.as_slice(), &candidate) {
            Some(id) => id,
            None => {
                let id = self.candidates.len();
                self.candidates.push(candidate);
                proof {
                    assert(self.entries() == old(self).entries());
                    assert(self.candidates@.len() == self.candidates.len());
                    assert(distinct(self.candidates@)) by {
                        assert forall|i: int, j: int|
                            0 <= i < j < self.candidates@.len() implies self.candidates@[i]
                            != self.candidates@[j] by {
                            if j == id {
                                assert(old(self).candidates@[i] == self.candidates@[i]);
                                assert(old(self).candidates@.contains(old(self).candidates@[i]));
                            }
                        }
                    }
                }
                id
            },
        }
    }

    /// Registers candidates, in the order of the list.
    pub fn add_candidates(&mut self, candidates: Vec<T>)
        requires
            old(self).wf(),
        ensures
            final(self).wf(),
            final(self).candidate_seq() == registered(old(self).candidate_seq(), candidates@),
            final(self).entries() == old(self).entries(),
            final(self).seats() == old(self).seats(),
            final(self).checks_votes() == old(self).checks_votes(),
            final(self).is_closed() == old(self).is_closed(),
            final(self).weight_counted() == old(self).weight_counted(),
    {
        self.register(candidates.as_slice());
    }

    /// Registers the candidates of a list that are not registered yet, in the order of the
    /// list.
    pub fn register(&mut self, candidates: &[T])
        requires
            old(self).wf(),
        ensures
            final(self).wf(),
            final(self).candidate_seq() == registered(old(self).candidate_seq(), candidates@),
            final(self).entries() == old(self).entries(),
            final(self).seats() == old(self).seats(),
            final(self).checks_votes() == old(self).checks_votes(),
            final(self).is_closed() == old(self).is_closed(),
            final(self).weight_counted() == old(self).weight_counted(),
    {
        let ghost known = self.candidates@;
        let mut i: usize = 0;
        while i < candidates.len()
            invariant
                0 <= i <= candidates@.len(),
                self.wf(),
                self.candidate_seq() == registered(known, candidates@.take(i as int)),
                self.entries() == old(self).entries(),
                self.seats() == old(self).seats(),
                self.checks_votes() == old(self).checks_votes(),
                self.is_closed() == old(self).is_closed(),
                self.weight_counted() == old(self).weight_counted(),
            decreases candidates@.len() - i,
        {
            let ghost before = self.candidates@;
            let candidate = copy_candidate(&candidates[i]);
            self.add_candidate(candidate);
            proof {
                let next = candidates@.take(i + 1);
                assert(next.drop_last() =~= candidates@.take(i as int));
                assert(next.last() == candidate);
                lemma_registered_one(before, candidate);
            }
            i += 1;
        }
        proof {
            assert(candidates@.take(i as int) =~= candidates@);
        }
    }

    /// Registers the candidates of a vote with ranks that are not registered yet, in the
    /// order of the vote.
    pub fn register_ranked(&mut self, vote: &[(T, u32)])
        requires
            old(self).wf(),
        ensures
            final(self).wf(),
            final(self).candidate_seq() == registered(old(self).candidate_seq(), voted(vote@)),
            final(self).entries() == old(self).entries(),
            final(self).seats() == old(self).seats(),
            final(self).checks_votes() == old(self).checks_votes(),
            final(self).is_closed() == old(self).is_closed(),
            final(self).weight_counted() == old(self).weight_counted(),
    {
        let ghost known = self.candidates@;
        let ghost names = voted(vote@);
        let mut i: usize = 0;
        while i < vote.len()
            invariant
                0 <= i <= vote@.len(),
                names == voted(vote@),
                self.wf(),
                self.candidate_seq() == registered(known, names.take(i as int)),
                self.entries() == old(self).entries(),
                self.seats() == old(self).seats(),
                self.checks_votes() == old(self).checks_votes(),
                self.is_closed() == old(self).is_closed(),
                self.weight_counted() == old(self).weight_counted(),
            decreases vote@.len() - i,
        {
            let ghost before = self.candidates@;
            let candidate = copy_candidate(&vote[i].0);
            self.add_candidate(candidate);
            proof {
                let next = names.take(i + 1);
                assert(next.drop_last() =~= names.take(i as int));
                assert(next.last() == candidate);
                lemma_registered_one(before, candidate);
            }
            i += 1;
        }
        proof {
            assert(names.take(i as int) =~= names);
        }
    }

    /// Checks a vote that lists candidates in the order of preference: every candidate must
    /// be registered, and none may occur twice.
    pub fn check_vote(&self, vote: &[T]) -> (checked: Result<(), TallyError>)
        requires
            self.wf(),
        ensures
            checked == vote_check(self.candidate_seq(), vote@),
    {
        let mut k: usize = 0;
        while k < vote.len()
            invariant
                self.wf(),
                0 <= k <= vote@.len(),
                forall|i: int| 0 <= i < k ==> self.candidates@.contains(#[trigger] vote@[i]),
            decreases vote@.len() - k,
        {
            if find_candidate(self.candidates.as_slice(), &vote[k]).is_none() {
                return Err(TallyError::UnknownCandidate);
            }
            k += 1;
        }
        check_duplicates_transitive_vote(vote)
    }

    /// Checks a vote of candidates with ranks: every candidate must be registered, and none
    /// may occur twice.
    pub fn check_ranked_vote(&self, vote: &[(T, u32)]) -> (checked: Result<(), TallyError>)
        requires
            self.wf(),
        ensures
            checked == vote_check(self.candidate_seq(), voted(vote@)),
    {
        let ghost names = voted(vote@);
        let mut k: usize = 0;
        while k < vote.len()
            invariant
                self.wf(),
                names == voted(vote@),
                0 <= k <= vote@.len(),
                forall|i: int| 0 <= i < k ==> self.candidates@.contains(#[trigger] names[i]),
            decreases vote@.len() - k,
        {
            if find_candidate(self.candidates.as_slice(), &vote[k].0).is_none() {
                assert(names[k as int] == vote@[k as int].0);
                return Err(TallyError::UnknownCandidate);
            }
            assert(names[k as int] == vote@[k as int].0);
            k += 1;
        }
        check_duplicates_ranked_vote(vote)
    }

    /// The rank that a vote which lists candidates in the order of preference gives each
    /// registered candidate.
    pub fn unranked_mapped_candidates(&self, selection: &[T]) -> (ranks: Vec<u64>)
        requires
            self.wf(),
        ensures
            ranks@ == transitive_ranks(self.candidate_seq(), selection@),
    {
        let mut ranks: Vec<u64> = Vec::new();
        let mut id: usize = 0;
        while id < self.candidates.len()
            invariant
                self.wf(),
                0 <= id <= self.candidates@.len(),
                ranks@ == transitive_ranks(self.candidates@.take(id as int), selection@),
            decreases self.candidates@.len() - id,
        {
            let rank = match find_candidate(selection, &self.candidates[id]) {
                Some(place) => place,
                None => selection.len(),
            };
            ranks.push(rank as u64);
            proof {
                assert(ranks@ =~= transitive_ranks(self.candidates@.take(id + 1), selection@));
            }
            id += 1;
        }
        proof {
            assert(self.candidates@.take(id as int) =~= self.candidates@);
        }
        ranks
    }

    /// The rank that a vote of candidates with ranks gives each registered candidate.
    pub fn ranked_mapped_candidates(&self, selection: &[(T, u32)]) -> (ranks: Vec<u64>)
        requires
            self.wf(),
        ensures
            ranks@ == given_ranks(self.candidate_seq(), selection@),
    {
        let ghost names = voted(selection@);
        let mut ranks: Vec<u64> = Vec::new();
        let mut id: usize = 0;
        while id < self.candidates.len()
            invariant
                self.wf(),
                names == voted(selection@),
                0 <= id <= self.candidates@.len(),
                ranks@ == given_ranks(self.candidates@.take(id as int), selection@),
            decreases self.candidates@.len() - id,
        {
            let candidate = &self.candidates[id];
            let mut rank: u64 = UNRANKED;
            let mut k: usize = 0;
            while k < selection.len()
                invariant_except_break
                    rank == UNRANKED,
                    forall|i: int| 0 <= i < k ==> names[i] != *candidate,
                invariant
                    self.wf(),
                    names == voted(selection@),
                    0 <= k <= selection@.len(),
                ensures
                    rank == if names.contains(*candidate) {
                        selection@[position(names, *candidate)].1 as u64
                    } else {
                        UNRANKED
                    },
                decreases selection@.len() - k,
            {
                if crate::candidate::same_candidate(&selection[k].0, candidate) {
                    rank = selection[k].1 as u64;
                    proof {
                        assert(names[k as int] == *candidate);
                        crate::candidate::lemma_position(names, *candidate);
                    }
                    break ;
                }
                assert(names[k as int] == selection@[k as int].0);
                k += 1;
            }
            proof {
                crate::candidate::lemma_position(names, *candidate);
            }
            ranks.push(rank);
            proof {
                assert(ranks@ =~= given_ranks(self.candidates@.take(id + 1), selection@));
            }
            id += 1;
        }
        proof {
            assert(self.candidates@.take(id as int) =~= self.candidates@);
        }
        ranks
    }

    /// Counts a vote of the given weight in which candidate `id` has the rank `ranks[id]`.
    pub fn add_ranked_candidate_ids(&mut self, ranks: &Vec<u64>, weight: u64)
        requires
            old(self).wf(),
            ranks@.len() == old(self).candidate_seq().len(),
            old(self).weight_counted() + weight <= u64::MAX,
        ensures
            final(self).wf(),
            counts_vote(old(self).entries(), final(self).entries(), ranks@, weight),
            final(self).weight_counted() == old(self).weight_counted() + weight,
            final(self).candidate_seq() == old(self).candidate_seq(),
            final(self).seats() == old(self).seats(),
            final(self).checks_votes() == old(self).checks_votes(),
            final(self).is_closed() == old(self).is_closed(),
    {
        self.running_total.add_ranked(ranks, weight, self.total_weight);
        self.total_weight = self.total_weight + weight;
    }

    /// Counts a vote of weight 1 that lists candidates in the order of preference; see
    /// `add_weighted`.
    pub fn add(&mut self, vote: &[T]) -> (added: Result<(), TallyError>)
        requires
            old(self).wf(),
            old(self).outcome(vote@) is Ok ==> old(self).weight_counted() + 1 <= u64::MAX,
        ensures
            final(self).wf(),
            added == old(self).outcome(vote@),
            added is Err ==> *final(self) == *old(self),
            added is Ok ==> final(self).candidate_seq() == old(self).after(vote@)
                && counts_vote(
                old(self).entries(),
                final(self).entries(),
                transitive_ranks(old(self).after(vote@), vote@),
                1,
            ) && final(self).weight_counted() == old(self).weight_counted() + 1,
            final(self).seats() == old(self).seats(),
            final(self).checks_votes() == old(self).checks_votes(),
            final(self).is_closed() == old(self).is_closed(),
    {
        self.add_weighted(vote, 1)
    }

    /// Counts a vote of the given weight that lists candidates in the order of preference:
    /// each candidate of the vote is preferred to those behind it, and to those that the
    /// vote leaves out. With an open set of candidates the vote first registers the
    /// candidates that it is the first to name. A vote that is rejected registers and
    /// counts nothing. The weight of all votes must stay within `u64` where the vote is
    /// taken.
    pub fn add_weighted(&mut self, vote: &[T], weight: u64) -> (added: Result<(), TallyError>)
        requires
            old(self).wf(),
            old(self).outcome(vote@) is Ok ==> old(self).weight_counted() + weight <= u64::MAX,
        ensures
            final(self).wf(),
            added == old(self).outcome(vote@),
            added is Err ==> *final(self) == *old(self),
            added is Ok ==> final(self).candidate_seq() == old(self).after(vote@)
                && counts_vote(
                old(self).entries(),
                final(self).entries(),
                transitive_ranks(old(self).after(vote@), vote@),
                weight,
            ) && final(self).weight_counted() == old(self).weight_counted() + weight,
            final(self).seats() == old(self).seats(),
            final(self).checks_votes() == old(self).checks_votes(),
            final(self).is_closed() == old(self).is_closed(),
    {
        if self.check_votes {
            let checked = if self.closed {
                self.check_vote(vote)
            } else {
                check_duplicates_transitive_vote(vote)
            };
            match checked {
                Err(error) => {
                    return Err(error);
                },
                Ok(_) => {},
            }
        }
        if !self.closed {
            self.register(vote);
        }
        let selection = self.unranked_mapped_candidates(vote);
        self.add_ranked_candidate_ids(&selection, weight);
        Ok(())
    }

    /// Counts a vote of weight 1 that gives each of its candidates a rank; see
    /// `ranked_add_weighted`.
    pub fn ranked_add(&mut self, vote: &[(T, u32)]) -> (added: Result<(), TallyError>)
        requires
            old(self).wf(),
            old(self).outcome(voted(vote@)) is Ok ==> old(self).weight_counted() + 1 <= u64::MAX,
        ensures
            final(self).wf(),
            added == old(self).outcome(voted(vote@)),
            added is Err ==> *final(self) == *old(self),
            added is Ok ==> final(self).candidate_seq() == old(self).after(voted(vote@))
                && counts_vote(
                old(self).entries(),
                final(self).entries(),
                given_ranks(old(self).after(voted(vote@)), vote@),
                1,
            ) && final(self).weight_counted() == old(self).weight_counted() + 1,
            final(self).seats() == old(self).seats(),
            final(self).checks_votes() == old(self).checks_votes(),
            final(self).is_closed() == old(self).is_closed(),
    {
        self.ranked_add_weighted(vote, 1)
    }

    /// Counts a vote of the given weight that gives each of its candidates a rank: a
    /// candidate is preferred to those with a larger rank and to those that the vote leaves
    /// out; candidates of equal rank are tied. With an open set of candidates the vote
    /// first registers the candidates that it is the first to name. A vote that is rejected
    /// registers and counts nothing. The weight of all votes must stay within `u64` where
    /// the vote is taken.
    pub fn ranked_add_weighted(&mut self, vote: &[(T, u32)], weight: u64) -> (added: Result<
        (),
        TallyError,
    >)
        requires
            old(self).wf(),
            old(self).outcome(voted(vote@)) is Ok ==> old(self).weight_counted() + weight <= u64::MAX,
        ensures
            final(self).wf(),
            added == old(self).outcome(voted(vote@)),
            added is Err ==> *final(self) == *old(self),
            added is Ok ==> final(self).candidate_seq() == old(self).after(voted(vote@))
                && counts_vote(
                old(self).entries(),
                final(self).entries(),
                given_ranks(old(self).after(voted(vote@)), vote@),
                weight,
            ) && final(self).weight_counted() == old(self).weight_counted() + weight,
            final(self).seats() == old(self).seats(),
            final(self).checks_votes() == old(self).checks_votes(),
            final(self).is_closed() == old(self).is_closed(),
    {
        if self.check_votes {
            let checked = if self.closed {
                self.check_ranked_vote(vote)
            } else {
                check_duplicates_ranked_vote(vote)
            };
            match checked {
                Err(error) => {
                    return Err(error);
                },
                Ok(_) => {},
            }
        }
        if !self.closed {
            self.register_ranked(vote);
        }
        let selection = self.ranked_mapped_candidates(vote);
        self.add_ranked_candidate_ids(&selection, weight);
        Ok(())
    }

    /// The weight of all votes counted so far. A vote can be added as long as this weight
    /// and the vote's do not exceed `u64::MAX` together.
    pub fn total_weight(&self) -> (weight: u64)
        ensures
            weight == self.weight_counted(),
    {
        self.total_weight
    }

    /// The pairwise counts: for each pair of candidates with an entry in the table, the
    /// two candidates and the weight of the votes that prefer the first to the second. The
    /// pairs come in the order of the ids of the first and then of the second candidate.
    pub fn totals(&self) -> (totals: Vec<((T, T), u64)>)
        requires
            self.wf(),
        ensures
            totals@ == totals_before(
                self.candidate_seq(),
                self.entries(),
                self.candidate_seq().len(),
                0,
            ),
    {
        let n = self.candidates.len();
        let mut totals: Vec<((T, T), u64)> = Vec::new();
        let mut first: usize = 0;
        while first < n
            invariant
                self.wf(),
                n == self.candidates@.len(),
                0 <= first <= n,
                totals@ == totals_before(self.candidates@, self.entries(), first as nat, 0),
            decreases n - first,
        {
            let mut second: usize = 0;
            while second < n
                invariant
                    self.wf(),
                    n == self.candidates@.len(),
                    0 <= first < n,
                    0 <= second <= n,
                    totals@ == totals_before(
                        self.candidates@,
                        self.entries(),
                        first as nat,
                        second as nat,
                    ),
                decreases n - second,
            {
                match self.running_total.get(first, second) {
                    Some(count) => {
                        let one = copy_candidate(&self.candidates[first]);
                        let other = copy_candidate(&self.candidates[second]);
                        totals.push(((one, other), count));
                    },
                    None => {},
                }
                second += 1;
            }
            first += 1;
        }
        totals
    }

    /// The edges of the preference graph: for each entry of the table whose count is not
    /// below the count of the opposite pair, an edge from the second candidate of the pair
    /// to the first one, with both counts. The edges come in the order of their entries.
    pub open spec fn graph_edges(&self) -> Seq<PreferenceEdge> {
        preference_edges(self.entries(), self.candidate_seq().len())
    }

    /// The Smith sets and the sets behind them, as `smith_sets` gives them for the
    /// preference graph.
    pub open spec fn smith_order(&self) -> Seq<Seq<usize>> {
        tarjan_scc_of(self.candidate_seq().len(), self.graph_edges())
    }

    /// The ranking of all candidates: those of the first set with rank 0, those of the
    /// second with rank 1, and so on.
    pub open spec fn ranking(&self) -> Seq<(T, usize)> {
        named(self.candidate_seq(), ranked_ids(self.smith_order()))
    }

    /// Whether candidate `first` beats candidate `second`: more votes prefer it.
    pub open spec fn beats(&self, first: usize, second: usize) -> bool {
        self.count(first, second) > self.count(second, first)
    }

    /// Whether the candidate with the given id beats every other candidate.
    pub open spec fn beats_all(&self, id: usize) -> bool {
        &&& id < self.candidate_seq().len()
        &&& forall|other: usize|
            other < self.candidate_seq().len() && other != id ==> #[trigger] self.beats(
                id,
                other,
            )
    }

    /// Whether the three candidates with the given ids beat each other in a circle: the
    /// first the second, the second the third, and the third the first.
    pub open spec fn is_cycle(&self, a: usize, b: usize, c: usize) -> bool {
        &&& a < self.candidate_seq().len()
        &&& b < self.candidate_seq().len()
        &&& c < self.candidate_seq().len()
        &&& self.beats(a, b)
        &&& self.beats(b, c)
        &&& self.beats(c, a)
    }

    /// Builds the preference graph: a node for each candidate, in the order of the ids, and
    /// the edges of `graph_edges`. The graph is made anew from the table on each call.
    pub fn build_graph(&self) -> (graph: PreferenceGraph<T>)
        requires
            self.wf(),
        ensures
            graph.nodes@ == self.candidate_seq(),
            graph.edges@ == self.graph_edges(),
            edges_within(graph.edges@, self.candidate_seq().len()),
            forall|loser: usize, winner: usize|
                crate::graph::has_edge(graph.edges@, loser, winner) <==> self.entries().contains_key(
                    (winner, loser),
                ) && self.count(winner, loser) >= self.count(loser, winner),
    {
        let n = self.candidates.len();
        let nodes = self.candidates();
        let mut edges: Vec<PreferenceEdge> = Vec::new();
        let mut winner: usize = 0;
        while winner < n
            invariant
                n == self.candidates@.len(),
                0 <= winner <= n,
                edges@ == edges_before(self.entries(), n as nat, winner as nat, 0),
            decreases n - winner,
        {
            let mut loser: usize = 0;
            while loser < n
                invariant
                    n == self.candidates@.len(),
                    0 <= winner < n,
                    0 <= loser <= n,
                    edges@ == edges_before(self.entries(), n as nat, winner as nat, loser as nat),
                decreases n - loser,
            {
                match self.running_total.get(winner, loser) {
                    Some(support) => {
                        let opposition = self.running_total.count_of(loser, winner);
                        if support >= opposition {
                            edges.push(
                                PreferenceEdge { source: loser, target: winner, support, opposition },
                            );
                        }
                    },
                    None => {},
                }
                loser += 1;
            }
            winner += 1;
        }
        proof {
            crate::graph::lemma_edges_before(self.entries(), n as nat, n as nat, 0);
            assert forall|loser: usize, winner: usize|
                crate::graph::has_edge(edges@, loser, winner) <==> self.entries().contains_key(
                    (winner, loser),
                ) && self.count(winner, loser) >= self.count(loser, winner) by {
                if self.entries().contains_key((winner, loser)) {
                    assert(winner < n && loser < n);
                }
            }
        }
        PreferenceGraph { nodes, edges }
    }

    /// Ranks all candidates by the Smith sets of the preference graph. The candidates that
    /// no candidate outside their set beats, the Smith set, have rank 0; those that only
    /// candidates of the Smith set beat from outside their own set have rank 1; and so on.
    /// The candidates of one set are tied. The ranking is computed anew on each call, and
    /// is the same as long as no vote and no candidate is added.
    pub fn ranked(&self) -> (ranking: Vec<(T, usize)>)
        requires
            self.wf(),
        ensures
            ranking@ == self.ranking(),
            is_scc_order(self.candidate_seq().len(), self.graph_edges(), self.smith_order()),
            ranking@.len() == self.candidate_seq().len(),
            crate::candidate::firsts(ranking@).no_duplicates(),
            crate::result::ranks_rise(ranking@),
            crate::result::contiguous_ranks(
                crate::result::ranks_of(ranking@),
                self.candidate_seq().len(),
            ),
            forall|id: usize| #[trigger]
                self.beats_all(id) ==> alone_first(ranking@, self.candidate_seq()[id as int]),
            forall|a: usize, b: usize, c: usize| #[trigger]
                self.is_cycle(a, b, c) ==> exists|rank: usize|
                    #[trigger] tied_at(
                        ranking@,
                        self.candidate_seq()[a as int],
                        self.candidate_seq()[b as int],
                        self.candidate_seq()[c as int],
                        rank,
                    ) && (self.candidate_seq().len() == 3 ==> rank == 0),
            forall|first: usize, second: usize|
                first < self.candidate_seq().len() && second < self.candidate_seq().len()
                    && #[trigger] self.beats(first, second) ==> crate::result::ranked_not_behind(
                    ranking@,
                    self.candidate_seq()[first as int],
                    self.candidate_seq()[second as int],
                ),
    {
        let graph = self.build_graph();
        let sets = smith_sets(self.candidates.len(), &graph.edges);
        self.rank_sets(&sets)
    }

    /// The ranking that the given sets make: the candidates of the first with rank 0, those
    /// of the second with rank 1, and so on.
    pub fn rank_sets(&self, sets: &Vec<Vec<usize>>) -> (ranking: Vec<(T, usize)>)
        requires
            self.wf(),
            is_scc_order(self.candidate_seq().len(), self.graph_edges(), sets.deep_view()),
        ensures
            ranking@ == named(self.candidate_seq(), ranked_ids(sets.deep_view())),
            ranking@.len() == self.candidate_seq().len(),
            crate::candidate::firsts(ranking@).no_duplicates(),
            crate::result::ranks_rise(ranking@),
            crate::result::contiguous_ranks(
                crate::result::ranks_of(ranking@),
                self.candidate_seq().len(),
            ),
            forall|id: usize| #[trigger]
                self.beats_all(id) ==> alone_first(ranking@, self.candidate_seq()[id as int]),
            forall|a: usize, b: usize, c: usize| #[trigger]
                self.is_cycle(a, b, c) ==> exists|rank: usize|
                    #[trigger] tied_at(
                        ranking@,
                        self.candidate_seq()[a as int],
                        self.candidate_seq()[b as int],
                        self.candidate_seq()[c as int],
                        rank,
                    ) && (self.candidate_seq().len() == 3 ==> rank == 0),
            forall|first: usize, second: usize|
                first < self.candidate_seq().len() && second < self.candidate_seq().len()
                    && #[trigger] self.beats(first, second) ==> crate::result::ranked_not_behind(
                    ranking@,
                    self.candidate_seq()[first as int],
                    self.candidate_seq()[second as int],
                ),
    {
        let ids = rank_components(sets);
        let ghost n = self.candidates@.len();
        proof {
            crate::graph::lemma_ranks_are_contiguous(n, self.graph_edges(), sets.deep_view());
        }
        let mut ranking: Vec<(T, usize)> = Vec::with_capacity(ids.len());
        let mut m: usize = 0;
        while m < ids.len()
            invariant
                self.wf(),
                n == self.candidates@.len(),
                0 <= m <= ids@.len(),
                forall|k: int| 0 <= k < ids@.len() ==> (#[trigger] ids@[k]).0 < n,
                ranking@ == named(self.candidates@, ids@.take(m as int)),
            decreases ids@.len() - m,
        {
            let (id, rank) = ids[m];
            assert(ids@[m as int].0 < n);
            ranking.push((copy_candidate(&self.candidates[id]), rank));
            proof {
                assert(ranking@ =~= named(self.candidates@, ids@.take(m + 1)));
            }
            m += 1;
        }
        proof {
            assert(ids@.take(m as int) =~= ids@);
            assert(crate::result::ranks_of(ranking@) =~= crate::result::ranks_of(ids@));
            crate::graph::lemma_ranked_ids_complete(n, self.graph_edges(), sets.deep_view());
            crate::graph::lemma_components_partition(n, self.graph_edges(), sets.deep_view());
            crate::graph::lemma_ranked_ids(sets.deep_view());
            assert forall|i: int, j: int| 0 <= i <= j < ranking@.len() implies ranking@[i].1
                <= ranking@[j].1 by {
                assert(ids@[i].1 <= ids@[j].1);
            }
            assert(crate::candidate::firsts(ranking@).no_duplicates()) by {
                let names = crate::candidate::firsts(ranking@);
                let numbers = crate::candidate::firsts(ids@);
                assert forall|i: int, j: int|
                    0 <= i < names.len() && 0 <= j < names.len() && i != j implies names[i]
                    != names[j] by {
                    assert(numbers[i] != numbers[j]);
                    assert(names[i] == self.candidates@[numbers[i] as int]);
                    assert(names[j] == self.candidates@[numbers[j] as int]);
                }
            }
            assert forall|id: usize| #[trigger] self.beats_all(id) implies alone_first(
                ranking@,
                self.candidate_seq()[id as int],
            ) by {
                self.lemma_condorcet_winner_is_alone_first(sets.deep_view(), id);
            }
            assert forall|a: usize, b: usize, c: usize| #[trigger]
                self.is_cycle(a, b, c) implies exists|rank: usize|
                #[trigger] tied_at(
                    ranking@,
                    self.candidate_seq()[a as int],
                    self.candidate_seq()[b as int],
                    self.candidate_seq()[c as int],
                    rank,
                ) && (self.candidate_seq().len() == 3 ==> rank == 0) by {
                self.lemma_cycle_is_tied(sets.deep_view(), a, b, c);
            }
            assert forall|first: usize, second: usize|
                first < self.candidate_seq().len() && second < self.candidate_seq().len()
                    && #[trigger] self.beats(first, second) implies crate::result::ranked_not_behind(
                ranking@,
                self.candidate_seq()[first as int],
                self.candidate_seq()[second as int],
            ) by {
                self.lemma_winner_is_not_behind(sets.deep_view(), first, second);
            }
        }
        ranking
    }

    /// A candidate that beats every other candidate is alone in the first of the sets of
    /// the preference graph, and so alone at rank 0.
    pub proof fn lemma_condorcet_winner_is_alone_first(&self, sets: Seq<Seq<usize>>, id: usize)
        requires
            self.wf(),
            is_scc_order(self.candidate_seq().len(), self.graph_edges(), sets),
            self.beats_all(id),
        ensures
            alone_first(named(self.candidate_seq(), ranked_ids(sets)), self.candidate_seq()[id as int]),
    {
        let n = self.candidate_seq().len();
        let edges = self.graph_edges();
        let entries = self.entries();
        crate::graph::lemma_edges_before(entries, n, n, 0);
        assert forall|other: usize| other < n && other != id implies crate::graph::has_edge(
            edges,
            other,
            id,
        ) by {
            assert(self.beats(id, other));
            assert(edge_for(entries, id, other).is_some());
        }
        assert forall|other: usize| other != id implies !crate::graph::has_edge(
            edges,
            id,
            other,
        ) by {
            if other < n {
                assert(self.beats(id, other));
                assert(edge_for(entries, other, id).is_none());
            }
        }
        crate::graph::lemma_unbeaten_node_is_first(n, edges, sets, id);
        crate::graph::lemma_components_partition(n, edges, sets);
        crate::graph::lemma_ranked_ids(sets);
        crate::graph::lemma_ranks_are_contiguous(n, edges, sets);
        let ids = ranked_ids(sets);
        let ranking = named(self.candidate_seq(), ids);
        let candidate = self.candidate_seq()[id as int];
        assert(ids.contains((id, 0usize)));
        let at = choose|at: int| 0 <= at < ids.len() && ids[at] == (id, 0usize);
        assert(ranking[at] == (candidate, 0usize));
        assert forall|m: int| 0 <= m < ranking.len() && (#[trigger] ranking[m]).1
            == 0 implies ranking[m].0 == candidate by {
            assert(crate::graph::in_component(sets, ids[m].1 as int, ids[m].0));
        }
    }

    /// Three candidates of which the first beats the second, the second the third and the
    /// third the first are tied: all three have the same rank in a ranking by the sets of
    /// the preference graph. Where they are the only candidates, that rank is 0.
    pub proof fn lemma_cycle_is_tied(
        &self,
        sets: Seq<Seq<usize>>,
        a: usize,
        b: usize,
        c: usize,
    )
        requires
            self.wf(),
            is_scc_order(self.candidate_seq().len(), self.graph_edges(), sets),
            self.is_cycle(a, b, c),
        ensures
            exists|rank: usize|
                #[trigger] tied_at(
                    named(self.candidate_seq(), ranked_ids(sets)),
                    self.candidate_seq()[a as int],
                    self.candidate_seq()[b as int],
                    self.candidate_seq()[c as int],
                    rank,
                ) && (self.candidate_seq().len() == 3 ==> rank == 0),
    {
        let n = self.candidate_seq().len();
        let edges = self.graph_edges();
        let entries = self.entries();
        crate::graph::lemma_edges_before(entries, n, n, 0);
        assert(edge_for(entries, a, b).is_some());
        assert(edge_for(entries, b, c).is_some());
        assert(edge_for(entries, c, a).is_some());
        assert(crate::graph::has_edge(edges, b, a));
        assert(crate::graph::has_edge(edges, c, b));
        assert(crate::graph::has_edge(edges, a, c));
        crate::graph::lemma_cycle_is_one_component(n, edges, sets, a, c, b);
        crate::graph::lemma_components_partition(n, edges, sets);
        crate::graph::lemma_ranked_ids(sets);
        let at = choose|at: int|
            #[trigger] crate::graph::in_component(sets, at, a) && crate::graph::in_component(
                sets,
                at,
                c,
            ) && crate::graph::in_component(sets, at, b);
        let rank = at as usize;
        let ids = ranked_ids(sets);
        let ranking = named(self.candidate_seq(), ids);
        assert(ids.contains((a, rank)));
        assert(ids.contains((b, rank)));
        assert(ids.contains((c, rank)));
        let ka = choose|k: int| 0 <= k < ids.len() && ids[k] == (a, rank);
        let kb = choose|k: int| 0 <= k < ids.len() && ids[k] == (b, rank);
        let kc = choose|k: int| 0 <= k < ids.len() && ids[k] == (c, rank);
        assert(ranking[ka] == (self.candidate_seq()[a as int], rank));
        assert(ranking[kb] == (self.candidate_seq()[b as int], rank));
        assert(ranking[kc] == (self.candidate_seq()[c as int], rank));
        if n == 3 {
            assert(a != b && b != c && a != c);
        }
        assert(tied_at(
            ranking,
            self.candidate_seq()[a as int],
            self.candidate_seq()[b as int],
            self.candidate_seq()[c as int],
            rank,
        ));
    }

    /// A candidate that beats another is not behind it: its rank in a ranking by the sets of
    /// the preference graph is no larger than the other's.
    pub proof fn lemma_winner_is_not_behind(&self, sets: Seq<Seq<usize>>, first: usize, second: usize)
        requires
            self.wf(),
            is_scc_order(self.candidate_seq().len(), self.graph_edges(), sets),
            first < self.candidate_seq().len(),
            second < self.candidate_seq().len(),
            self.beats(first, second),
        ensures
            crate::result::ranked_not_behind(
                named(self.candidate_seq(), ranked_ids(sets)),
                self.candidate_seq()[first as int],
                self.candidate_seq()[second as int],
            ),
    {
        let n = self.candidate_seq().len();
        let edges = self.graph_edges();
        let entries = self.entries();
        crate::graph::lemma_edges_before(entries, n, n, 0);
        assert(edge_for(entries, first, second).is_some());
        assert(crate::graph::has_edge(edges, second, first));
        crate::graph::lemma_components_partition(n, edges, sets);
        crate::graph::lemma_ranked_ids(sets);
        assert(crate::graph::placed(sets, first));
        assert(crate::graph::placed(sets, second));
        let winner_set = choose|c: int| crate::graph::in_component(sets, c, first);
        let loser_set = choose|c: int| crate::graph::in_component(sets, c, second);
        assert(winner_set <= loser_set);
        let ids = ranked_ids(sets);
        let ranking = named(self.candidate_seq(), ids);
        assert(ids.contains((first, winner_set as usize)));
        assert(ids.contains((second, loser_set as usize)));
        let at = choose|at: int| 0 <= at < ids.len() && ids[at] == (first, winner_set as usize);
        let other = choose|other: int|
            0 <= other < ids.len() && ids[other] == (second, loser_set as usize);
        assert(ranking[at] == (self.candidate_seq()[first as int], winner_set as usize));
        assert(ranking[other] == (self.candidate_seq()[second as int], loser_set as usize));
    }

    /// Two candidates that a vote has compared have an edge between them: from the one
    /// with fewer votes to the other, or both ways. Where they have edges both ways, they
    /// have equally many votes.
    pub proof fn lemma_compared_candidates_have_an_edge(&self, a: usize, b: usize)
        requires
            self.wf(),
            self.entries().contains_key((a, b)),
        ensures
            crate::graph::has_edge(self.graph_edges(), a, b) || crate::graph::has_edge(
                self.graph_edges(),
                b,
                a,
            ),
            crate::graph::has_edge(self.graph_edges(), a, b) && crate::graph::has_edge(
                self.graph_edges(),
                b,
                a,
            ) ==> self.count(a, b) == self.count(b, a),
    {
        let n = self.candidate_seq().len();
        let entries = self.entries();
        crate::graph::lemma_edges_before(entries, n, n, 0);
        assert(a < n && b < n);
        if self.count(a, b) >= self.count(b, a) {
            assert(edge_for(entries, a, b).is_some());
        } else {
            assert(entries.contains_key((b, a)));
            assert(edge_for(entries, b, a).is_some());
        }
    }

    /// The ranking of a tally depends on its candidates and its counts only: two tallies
    /// with the same candidates and the same counts have the same ranking, and so has one
    /// tally as long as no candidate and no vote is added.
    pub proof fn lemma_ranking_follows_counts(&self, other: &CondorcetTally<T>)
        requires
            self.candidate_seq() == other.candidate_seq(),
            self.entries() == other.entries(),
        ensures
            self.graph_edges() == other.graph_edges(),
            self.smith_order() == other.smith_order(),
            self.ranking() == other.ranking(),
    {
    }

    /// The winners: the candidates of the ranking that fill the seats asked for, with
    /// every candidate tied with the last of them. With 0 seats asked for, all candidates.
    /// The winners are a start of the ranking, so what holds of the ranking holds of them:
    /// no candidate occurs twice, the ranks rise without gaps, a candidate that beats every
    /// other is alone at rank 0, three candidates that beat each other in a circle and are
    /// all candidates are tied at rank 0, and a candidate that beats a winner is a winner
    /// that is not behind it.
    pub fn winners(&self) -> (winners: RankedWinners<T>)
        requires
            self.wf(),
        ensures
            winners.num_winners == self.seats(),
            winners.winners@ == crate::result::as_ranked(self.ranking()).take(
                crate::result::winners_cut(crate::result::as_ranked(self.ranking()), self.seats()),
            ),
            crate::result::pairs_of(winners.winners@) == self.ranking().take(
                winners.winners@.len() as int,
            ),
            self.candidate_seq().len() > 0 ==> winners.winners@.len() > 0,
            crate::candidate::firsts(crate::result::pairs_of(winners.winners@)).no_duplicates(),
            crate::result::ranks_ascend(winners.winners@),
            crate::result::contiguous_ranks(
                crate::result::ranks_in(winners.winners@),
                self.candidate_seq().len(),
            ),
            forall|id: usize| #[trigger]
                self.beats_all(id) ==> alone_first(
                    crate::result::pairs_of(winners.winners@),
                    self.candidate_seq()[id as int],
                ),
            forall|a: usize, b: usize, c: usize| #[trigger]
                self.is_cycle(a, b, c) && self.candidate_seq().len() == 3 ==> tied_at(
                    crate::result::pairs_of(winners.winners@),
                    self.candidate_seq()[a as int],
                    self.candidate_seq()[b as int],
                    self.candidate_seq()[c as int],
                    0,
                ),
            forall|first: usize, second: usize|
                first < self.candidate_seq().len() && second < self.candidate_seq().len()
                    && #[trigger] self.beats(first, second) && crate::candidate::firsts(
                    crate::result::pairs_of(winners.winners@),
                ).contains(self.candidate_seq()[second as int])
                    ==> crate::result::ranked_not_behind(
                    crate::result::pairs_of(winners.winners@),
                    self.candidate_seq()[first as int],
                    self.candidate_seq()[second as int],
                ),
    {
        let ranking = self.ranked();
        proof {
            let all = ranking@;
            let ranked = crate::result::as_ranked(all);
            assert(crate::result::pairs_of(ranked) =~= all);
            assert(crate::result::ranks_ascend(ranked));
            assert(crate::sorting::sorted(ranked)) by {
                assert forall|i: int, j: int| 0 <= i <= j < ranked.len() implies crate::sorting::Keyed::sort_key(
                    &ranked[i],
                ) <= crate::sorting::Keyed::sort_key(&ranked[j]) by {
                    assert(ranked[i].rank <= ranked[j].rank);
                }
            }
            crate::sorting::lemma_stable_sort_of_sorted(ranked);
            assert(crate::result::ranks_in(ranked) =~= crate::result::ranks_of(all));
            let cut = crate::result::winners_cut(ranked, self.num_winners);
            crate::result::lemma_winners_are_closed_start(ranked, self.num_winners);
            crate::result::lemma_start_has_no_gaps(ranked, cut, self.candidates@.len());
            crate::result::lemma_start_names_once(all, cut);
            let start = all.take(cut);
            assert forall|id: usize| #[trigger] self.beats_all(id) implies alone_first(
                start,
                self.candidate_seq()[id as int],
            ) by {
                crate::result::lemma_start_keeps_first(all, cut, self.candidate_seq()[id as int]);
                assert forall|m: int| 0 <= m < start.len() && (#[trigger] start[m]).1
                    == 0 implies start[m].0 == self.candidate_seq()[id as int] by {
                    assert(start[m] == all[m]);
                }
            }
            assert forall|a: usize, b: usize, c: usize| #[trigger]
                self.is_cycle(a, b, c) && self.candidate_seq().len() == 3 implies tied_at(
                start,
                self.candidate_seq()[a as int],
                self.candidate_seq()[b as int],
                self.candidate_seq()[c as int],
                0,
            ) by {
                let rank = choose|rank: usize|
                    #[trigger] tied_at(
                        all,
                        self.candidate_seq()[a as int],
                        self.candidate_seq()[b as int],
                        self.candidate_seq()[c as int],
                        rank,
                    ) && (self.candidate_seq().len() == 3 ==> rank == 0);
                crate::result::lemma_start_keeps_first(all, cut, self.candidate_seq()[a as int]);
                crate::result::lemma_start_keeps_first(all, cut, self.candidate_seq()[b as int]);
                crate::result::lemma_start_keeps_first(all, cut, self.candidate_seq()[c as int]);
            }
            assert forall|first: usize, second: usize|
                first < self.candidate_seq().len() && second < self.candidate_seq().len()
                    && #[trigger] self.beats(first, second) && crate::candidate::firsts(
                    start,
                ).contains(self.candidate_seq()[second as int]) implies crate::result::ranked_not_behind(
                start,
                self.candidate_seq()[first as int],
                self.candidate_seq()[second as int],
            ) by {
                crate::result::lemma_start_keeps_order(
                    all,
                    cut,
                    self.candidate_seq()[first as int],
                    self.candidate_seq()[second as int],
                );
            }
        }
        RankedWinners::from_ranked(ranking, self.num_winners)
    }

    /// All registered candidates, in the order of their ids.
    pub fn candidates(&self) -> (list: Vec<T>)
        requires
            self.wf(),
        ensures
            list@ == self.candidate_seq(),
    {
        let mut list: Vec<T> = Vec::with_capacity(self.candidates.len());
        let mut i: usize = 0;
        while i < self.candidates.len()
            invariant
                lawful::<T>(),
                0 <= i <= self.candidates@.len(),
                list@ == self.candidates@.take(i as int),
            decreases self.candidates@.len() - i,
        {
            list.push(copy_candidate(&self.candidates[i]));
            proof {
                assert(list@ =~= self.candidates@.take(i + 1));
            }
            i += 1;
        }
        proof {
            assert(self.candidates@.take(i as int) =~= self.candidates@);
        }
        list
    }
}

} // verus!
