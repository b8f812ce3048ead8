//! Names as candidates. The tallies ask of a candidate type that its `==` decides whether
//! two candidates are the same value. The integer types meet this; of a `String` the `==`
//! is known to compare the text only. So a vote of names is counted by the ids of its
//! names: a register gives each name, by its text, an id in the order of first sight, and
//! a tally over ids counts the vote.

use crate::candidate::{distinct, firsts, lawful, position};
use crate::condorcet::{given_ranks, registered, transitive_ranks, CondorcetTally};
use crate::errors::TallyError;
use crate::pairwise::counts_vote;
use crate::util::{voted, ParsedVote};
use vstd::prelude::*;

verus! {

/// The integer types are lawful candidate types.
pub proof fn lemma_integers_are_lawful()
    ensures
        lawful::<u8>(),
        lawful::<u16>(),
        lawful::<u32>(),
        lawful::<u64>(),
        lawful::<u128>(),
        lawful::<usize>(),
        lawful::<i8>(),
        lawful::<i16>(),
        lawful::<i32>(),
        lawful::<i64>(),
        lawful::<i128>(),
        lawful::<isize>(),
{
    reveal(vstd::laws_eq::obeys_concrete_eq);
}

/// The texts of a list of names.
pub open spec fn texts(names: Seq<String>) -> Seq<Seq<char>> {
    Seq::new(names.len(), |i: int| names[i]@)
}

/// The ids of the listed names in a register: for each its first place there.
pub open spec fn ids_of(all: Seq<Seq<char>>, listed: Seq<Seq<char>>) -> Seq<usize> {
    Seq::new(listed.len(), |k: int| position(all, listed[k]) as usize)
}

/// The ids of the listed names with their ranks.
pub open spec fn ranked_ids_of(all: Seq<Seq<char>>, listed: Seq<(Seq<char>, u32)>) -> Seq<
    (usize, u32),
> {
    Seq::new(listed.len(), |k: int| (position(all, listed[k].0) as usize, listed[k].1))
}

/// Registering more names leaves the place of a name that is registered as it is, and
/// keeps the names apart.
pub proof fn lemma_registered_keeps_places<T>(known: Seq<T>, list: Seq<T>, name: T)
    requires
        distinct(known),
    ensures
        distinct(registered(known, list)),
        known.len() <= registered(known, list).len(),
        known.contains(name) ==> position(registered(known, list), name) == position(known, name),
        forall|k: int| 0 <= k < list.len() ==> registered(known, list).contains(#[trigger] list[k]),
        forall|k: int| 0 <= k < known.len() ==> registered(known, list)[k] == known[k],
    decreases list.len(),
{
    if list.len() > 0 {
        let init = list.drop_last();
        let before = registered(known, init);
        let after = registered(known, list);
        lemma_registered_keeps_places(known, init, name);
        crate::candidate::lemma_position(known, name);
        crate::candidate::lemma_position(before, name);
        crate::candidate::lemma_position(after, name);
        if !before.contains(list.last()) {
            assert(after == before.push(list.last()));
            assert forall|i: int, j: int| 0 <= i < j < after.len() implies after[i]
                != after[j] by {
                if j == before.len() {
                    assert(before.contains(before[i]));
                }
            }
            if known.contains(name) {
                let p = position(before, name);
                assert(after[p] == name);
                let q = position(after, name);
                if q < p {
                    assert(before[q] == after[q]);
                }
            }
            assert forall|k: int| 0 <= k < list.len() implies after.contains(
                #[trigger] list[k],
            ) by {
                if k < init.len() {
                    assert(init[k] == list[k]);
                    assert(before.contains(init[k]));
                    let at = choose|at: int| 0 <= at < before.len() && before[at] == init[k];
                    assert(after[at] == list[k]);
                } else {
                    assert(after[before.len() as int] == list[k]);
                }
            }
        } else {
            assert forall|k: int| 0 <= k < list.len() implies after.contains(
                #[trigger] list[k],
            ) by {
                if k < init.len() {
                    assert(init[k] == list[k]);
                }
            }
        }
    }
}

/// The place of a name in a register, where it has one.
pub fn find_name(names: &Vec<String>, name: &String) -> (found: Option<usize>)
    ensures
        found matches Some(at) ==> at == position(texts(names@), name@) && at < names@.len(),
        found is None ==> position(texts(names@), name@) == names@.len(),
{
    let ghost all = texts(names@);
    let mut at: usize = 0;
    while at < names.len()
        invariant
            all == texts(names@),
            0 <= at <= names@.len(),
            forall|k: int| 0 <= k < at ==> all[k] != name@,
        decreases names@.len() - at,
    {
        if names[at] == *name {
            proof {
                assert(all[at as int] == name@);
                crate::candidate::lemma_position(all, name@);
            }
            return Some(at);
        }
        assert(all[at as int] == names@[at as int]@);
        at += 1;
    }
    proof {
        crate::candidate::lemma_position(all, name@);
    }
    None
}

/// Registers a name and returns its id. A name that is registered already keeps its id; a
/// new one gets the number of names registered before it.
pub fn intern(names: &mut Vec<String>, name: &String) -> (id: usize)
    requires
        distinct(texts(old(names)@)),
    ensures
        distinct(texts(final(names)@)),
        texts(final(names)@) == registered(texts(old(names)@), seq![name@]),
        id == position(texts(final(names)@), name@),
        id < final(names)@.len(),
{
    let ghost known = texts(names@);
    proof {
        crate::condorcet::lemma_registered_one(known, name@);
        crate::candidate::lemma_position(known, name@);
    }
    match find_name(names, name) {
        Some(id) => {
            assert(known.contains(name@));
            id
        },
        None => {
            let id = names.len();
            names.push(name.clone());
            proof {
                let all = texts(names@);
                assert(all =~= known.push(name@));
                assert forall|i: int, j: int| 0 <= i < j < all.len() implies all[i] != all[j] by {
                    if j == known.len() {
                        assert(known.contains(known[i]));
                    }
                }
                assert(all[id as int] == name@);
                assert(all.contains(name@));
                crate::candidate::lemma_position(all, name@);
                let found = position(all, name@);
                if found < id {
                    assert(known[found] == all[found]);
                    assert(known.contains(name@));
                }
            }
            id
        },
    }
}

/// Registers the names of a list, and returns their ids in the order of the list.
pub fn intern_names(names: &mut Vec<String>, listed: &[String]) -> (ids: Vec<usize>)
    requires
        distinct(texts(old(names)@)),
    ensures
        distinct(texts(final(names)@)),
        texts(final(names)@) == registered(texts(old(names)@), texts(listed@)),
        ids@ == ids_of(texts(final(names)@), texts(listed@)),
{
    let ghost known = texts(names@);
    let ghost wanted = texts(listed@);
    let mut ids: Vec<usize> = Vec::new();
    let mut k: usize = 0;
    proof {
        assert(wanted.take(0) =~= Seq::<Seq<char>>::empty());
    }
    while k < listed.len()
        invariant
            0 <= k <= listed@.len(),
            wanted == texts(listed@),
            distinct(known),
            distinct(texts(names@)),
            texts(names@) == registered(known, wanted.take(k as int)),
            ids@ == ids_of(texts(names@), wanted.take(k as int)),
        decreases listed@.len() - k,
    {
        let ghost before = texts(names@);
        let ghost done = wanted.take(k as int);
        let ghost had = ids@;
        let id = intern(names, &listed[k]);
        ids.push(id);
        proof {
            let name = wanted[k as int];
            assert(name == listed@[k as int]@);
            let next = wanted.take(k + 1);
            assert(next.drop_last() =~= done);
            assert(next.last() == name);
            crate::condorcet::lemma_registered_one(before, name);
            let after = texts(names@);
            assert forall|m: int| 0 <= m < next.len() implies ids@[m] == position(
                after,
                next[m],
            ) as usize by {
                if m < k {
                    assert(had[m] == position(before, done[m]) as usize);
                    lemma_registered_keeps_places(known, done, done[m]);
                    assert(before.contains(done[m]));
                    lemma_registered_keeps_places(before, seq![name], done[m]);
                }
            }
            assert(ids@ =~= ids_of(after, next));
        }
        k += 1;
    }
    proof {
        assert(wanted.take(k as int) =~= wanted);
    }
    ids
}

/// Registers the names of a list of names with ranks, and returns their ids with the
/// ranks, in the order of the list.
pub fn intern_ranked(names: &mut Vec<String>, listed: &[(String, u32)]) -> (ids: Vec<(usize, u32)>)
    requires
        distinct(texts(old(names)@)),
    ensures
        distinct(texts(final(names)@)),
        texts(final(names)@) == registered(
            texts(old(names)@),
            firsts(crate::util::ranked_texts(listed@)),
        ),
        ids@ == ranked_ids_of(texts(final(names)@), crate::util::ranked_texts(listed@)),
{
    let ghost known = texts(names@);
    let ghost pairs = crate::util::ranked_texts(listed@);
    let ghost wanted = firsts(pairs);
    let mut ids: Vec<(usize, u32)> = Vec::new();
    let mut k: usize = 0;
    proof {
        assert(wanted.take(0) =~= Seq::<Seq<char>>::empty());
    }
    while k < listed.len()
        invariant
            0 <= k <= listed@.len(),
            pairs == crate::util::ranked_texts(listed@),
            wanted == firsts(pairs),
            distinct(known),
            distinct(texts(names@)),
            texts(names@) == registered(known, wanted.take(k as int)),
            ids@ == ranked_ids_of(texts(names@), pairs.take(k as int)),
        decreases listed@.len() - k,
    {
        let ghost before = texts(names@);
        let ghost done = wanted.take(k as int);
        let ghost had = ids@;
        let id = intern(names, &listed[k].0);
        ids.push((id, listed[k].1));
        proof {
            let name = wanted[k as int];
            assert(pairs[k as int] == (listed@[k as int].0@, listed@[k as int].1));
            let next = wanted.take(k + 1);
            assert(next.drop_last() =~= done);
            assert(next.last() == name);
            crate::condorcet::lemma_registered_one(before, name);
            let after = texts(names@);
            assert forall|m: int| 0 <= m < k + 1 implies ids@[m] == (
                position(after, pairs[m].0) as usize,
                pairs[m].1,
            ) by {
                if m < k {
                    assert(pairs.take(k as int)[m] == pairs[m]);
                    assert(done[m] == pairs[m].0);
                    assert(had[m] == (position(before, pairs[m].0) as usize, pairs[m].1));
                    lemma_registered_keeps_places(known, done, done[m]);
                    assert(before.contains(done[m]));
                    lemma_registered_keeps_places(before, seq![name], done[m]);
                }
            }
            assert(ids@ =~= ranked_ids_of(after, pairs.take(k + 1)));
        }
        k += 1;
    }
    proof {
        assert(wanted.take(k as int) =~= wanted);
        assert(pairs.take(k as int) =~= pairs);
    }
    ids
}

/// The ids that a vote of names gets from a register that knows the names `known`: the
/// vote's new names are registered first.
pub open spec fn vote_ids(known: Seq<Seq<char>>, vote: Seq<Seq<char>>) -> Seq<usize> {
    ids_of(registered(known, vote), vote)
}

/// The ids and ranks that a vote of names with ranks gets from a register that knows the
/// names `known`.
pub open spec fn ranked_vote_ids(known: Seq<Seq<char>>, vote: Seq<(Seq<char>, u32)>) -> Seq<
    (usize, u32),
> {
    ranked_ids_of(registered(known, firsts(vote)), vote)
}

/// Two places of a vote get the same id exactly where they hold the same name: the ids of
/// a vote are distinct exactly when its names are.
pub proof fn lemma_ids_tell_names_apart(known: Seq<Seq<char>>, vote: Seq<Seq<char>>)
    requires
        distinct(known),
        registered(known, vote).len() <= usize::MAX,
    ensures
        forall|i: int, j: int|
            0 <= i < vote.len() && 0 <= j < vote.len() ==> (#[trigger] vote_ids(known, vote)[i]
                == #[trigger] vote_ids(known, vote)[j] <==> vote[i] == vote[j]),
        distinct(vote_ids(known, vote)) <==> distinct(vote),
{
    let all = registered(known, vote);
    let ids = vote_ids(known, vote);
    lemma_registered_keeps_places(known, vote, vote[0]);
    assert forall|i: int, j: int| 0 <= i < vote.len() && 0 <= j < vote.len() implies (ids[i]
        == ids[j] <==> vote[i] == vote[j]) by {
        crate::candidate::lemma_position(all, vote[i]);
        crate::candidate::lemma_position(all, vote[j]);
        assert(all.contains(vote[i]));
        assert(all.contains(vote[j]));
    }
    if distinct(vote) {
        assert forall|i: int, j: int| 0 <= i < j < ids.len() implies ids[i] != ids[j] by {
            assert(vote[i] != vote[j]);
        }
    }
    if distinct(ids) {
        assert forall|i: int, j: int| 0 <= i < j < vote.len() implies vote[i] != vote[j] by {
            assert(ids[i] != ids[j]);
        }
    }
}

/// Counts a vote of names, given in the order of preference, with a weight: the names get
/// their ids from the register, which first takes up the vote's new names, and the tally
/// counts the vote of ids. A tally with an open set that checks its votes takes the vote
/// exactly when no name stands twice on it.
pub fn add_names(
    tally: &mut CondorcetTally<usize>,
    names: &mut Vec<String>,
    vote: &[String],
    weight: u64,
) -> (added: Result<(), TallyError>)
    requires
        old(tally).wf(),
        distinct(texts(old(names)@)),
        old(tally).outcome(vote_ids(texts(old(names)@), texts(vote@))) is Ok ==> old(
            tally,
        ).weight_counted() + weight <= u64::MAX,
    ensures
        final(tally).wf(),
        distinct(texts(final(names)@)),
        texts(final(names)@) == registered(texts(old(names)@), texts(vote@)),
        added == old(tally).outcome(vote_ids(texts(old(names)@), texts(vote@))),
        added is Err ==> *final(tally) == *old(tally),
        added is Ok ==> final(tally).candidate_seq() == old(tally).after(
            vote_ids(texts(old(names)@), texts(vote@)),
        ) && counts_vote(
            old(tally).entries(),
            final(tally).entries(),
            transitive_ranks(
                final(tally).candidate_seq(),
                vote_ids(texts(old(names)@), texts(vote@)),
            ),
            weight,
        ) && final(tally).weight_counted() == old(tally).weight_counted() + weight,
        old(tally).checks_votes() && !old(tally).is_closed() ==> (added is Ok <==> distinct(
            texts(vote@),
        )),
        final(tally).seats() == old(tally).seats(),
        final(tally).checks_votes() == old(tally).checks_votes(),
        final(tally).is_closed() == old(tally).is_closed(),
{
    let ghost known = texts(names@);
    let ids = intern_names(names, vote);
    proof {
        assert(registered(known, texts(vote@)).len() == names.len());
        lemma_ids_tell_names_apart(known, texts(vote@));
    }
    tally.add_weighted(ids.as_slice(), weight)
}

/// Counts a vote of names with ranks, with a weight: the names get their ids from the
/// register, which first takes up the vote's new names, and the tally counts the vote of
/// ids with the ranks.
pub fn add_ranked_names(
    tally: &mut CondorcetTally<usize>,
    names: &mut Vec<String>,
    vote: &[(String, u32)],
    weight: u64,
) -> (added: Result<(), TallyError>)
    requires
        old(tally).wf(),
        distinct(texts(old(names)@)),
        old(tally).outcome(
            voted(ranked_vote_ids(texts(old(names)@), crate::util::ranked_texts(vote@))),
        ) is Ok ==> old(tally).weight_counted() + weight <= u64::MAX,
    ensures
        final(tally).wf(),
        distinct(texts(final(names)@)),
        texts(final(names)@) == registered(
            texts(old(names)@),
            firsts(crate::util::ranked_texts(vote@)),
        ),
        added == old(tally).outcome(
            voted(ranked_vote_ids(texts(old(names)@), crate::util::ranked_texts(vote@))),
        ),
        added is Err ==> *final(tally) == *old(tally),
        added is Ok ==> final(tally).candidate_seq() == old(tally).after(
            voted(ranked_vote_ids(texts(old(names)@), crate::util::ranked_texts(vote@))),
        ) && counts_vote(
            old(tally).entries(),
            final(tally).entries(),
            given_ranks(
                final(tally).candidate_seq(),
                ranked_vote_ids(texts(old(names)@), crate::util::ranked_texts(vote@)),
            ),
            weight,
        ) && final(tally).weight_counted() == old(tally).weight_counted() + weight,
        final(tally).seats() == old(tally).seats(),
        final(tally).checks_votes() == old(tally).checks_votes(),
        final(tally).is_closed() == old(tally).is_closed(),
{
    let ids = intern_ranked(names, vote);
    tally.ranked_add_weighted(ids.as_slice(), weight)
}

/// Counts a parsed vote with a weight, whichever of the two forms it has.
pub fn add_parsed(
    tally: &mut CondorcetTally<usize>,
    names: &mut Vec<String>,
    vote: &ParsedVote,
    weight: u64,
) -> (added: Result<(), TallyError>)
    requires
        old(tally).wf(),
        distinct(texts(old(names)@)),
        old(tally).outcome(parsed_ids(texts(old(names)@), *vote)) is Ok ==> old(
            tally,
        ).weight_counted() + weight <= u64::MAX,
    ensures
        final(tally).wf(),
        distinct(texts(final(names)@)),
        texts(final(names)@) == registered(texts(old(names)@), firsts(vote.entries())),
        added == old(tally).outcome(parsed_ids(texts(old(names)@), *vote)),
        added is Err ==> *final(tally) == *old(tally),
        added is Ok ==> final(tally).candidate_seq() == old(tally).after(
            parsed_ids(texts(old(names)@), *vote),
        ) && counts_vote(
            old(tally).entries(),
            final(tally).entries(),
            parsed_ranks(final(tally).candidate_seq(), texts(old(names)@), *vote),
            weight,
        ) && final(tally).weight_counted() == old(tally).weight_counted() + weight,
        final(tally).seats() == old(tally).seats(),
        final(tally).checks_votes() == old(tally).checks_votes(),
        final(tally).is_closed() == old(tally).is_closed(),
{
    match vote {
        ParsedVote::Unranked(listed) => {
            proof {
                assert(firsts(crate::util::unranked_texts(listed@)) =~= texts(listed@));
            }
            add_names(tally, names, listed.as_slice(), weight)
        },
        ParsedVote::Ranked(listed) => add_ranked_names(tally, names, listed.as_slice(), weight),
    }
}

/// The ids of the candidates of a parsed vote, in the vote's order.
pub open spec fn parsed_ids(known: Seq<Seq<char>>, vote: ParsedVote) -> Seq<usize> {
    match vote {
        ParsedVote::Unranked(listed) => vote_ids(known, texts(listed@)),
        ParsedVote::Ranked(listed) => voted(ranked_vote_ids(known, crate::util::ranked_texts(listed@))),
    }
}

/// The ranks that a parsed vote gives the candidates of a tally.
pub open spec fn parsed_ranks(candidates: Seq<usize>, known: Seq<Seq<char>>, vote: ParsedVote) -> Seq<
    u64,
> {
    match vote {
        ParsedVote::Unranked(listed) => transitive_ranks(
            candidates,
            vote_ids(known, texts(listed@)),
        ),
        ParsedVote::Ranked(listed) => given_ranks(
            candidates,
            ranked_vote_ids(known, crate::util::ranked_texts(listed@)),
        ),
    }
}

} // verus!
