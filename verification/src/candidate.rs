//! What the tallies ask of a candidate type, and searching a list of candidates.
//!
//! A tally knows of its candidate type nothing but `==` and `clone`. How a candidate
//! hashes is the type's own affair and no contract could speak of it, so the tallies keep
//! their candidates in lists, in the order of registration, and find them by `==`. What is
//! keyed by ids, the counts of pairs, is held in a hash table.

use vstd::prelude::*;

verus! {

/// Whether `==` between two values of the type decides that they are the same value.
pub open spec fn lawful_eq<T: PartialEq>() -> bool {
    vstd::laws_eq::obeys_concrete_eq::<T>()
}

/// A candidate type is lawful when `==` between two candidates decides whether they are the
/// same value, and a clone of a candidate is that same value. The integer types are lawful
/// (`names::lemma_integers_are_lawful`); candidates with names are counted by the ids that
/// `names` gives them.
pub open spec fn lawful<T: Eq + Clone>() -> bool {
    &&& lawful_eq::<T>()
    &&& forall|a: T, b: T| cloned(a, b) ==> a == b
}

/// Whether two candidates are the same.
pub fn same_candidate<T: PartialEq>(a: &T, b: &T) -> (same: bool)
    requires
        lawful_eq::<T>(),
    ensures
        same == (*a == *b),
{
    proof {
        reveal(vstd::laws_eq::obeys_concrete_eq);
    }
    *a == *b
}

/// A copy of a candidate.
pub fn copy_candidate<T: Eq + Clone>(a: &T) -> (copy: T)
    requires
        lawful::<T>(),
    ensures
        copy == *a,
{
    let copy = a.clone();
    assert(cloned(*a, copy));
    copy
}

/// The first parts of a list of pairs, in the list's order.
pub open spec fn firsts<A, B>(pairs: Seq<(A, B)>) -> Seq<A> {
    Seq::new(pairs.len(), |i: int| pairs[i].0)
}

/// No candidate occurs twice in `list`.
pub open spec fn distinct<T>(list: Seq<T>) -> bool {
    forall|i: int, j: int| 0 <= i < j < list.len() ==> list[i] != list[j]
}

/// The first position of `candidate` in `list`, or the length of `list` where it does not
/// occur.
pub open spec fn position<T>(list: Seq<T>, candidate: T) -> int
    decreases list.len(),
{
    if list.len() == 0 {
        0
    } else if list[0] == candidate {
        0
    } else {
        1 + position(list.skip(1), candidate)
    }
}

/// `position` is the least index that holds the candidate.
pub proof fn lemma_position<T>(list: Seq<T>, candidate: T)
    ensures
        0 <= position(list, candidate) <= list.len(),
        position(list, candidate) < list.len() ==> list[position(list, candidate)] == candidate,
        forall|k: int| 0 <= k < position(list, candidate) ==> list[k] != candidate,
        list.contains(candidate) <==> position(list, candidate) < list.len(),
    decreases list.len(),
{
    if list.len() == 0 {
    } else if list[0] == candidate {
        assert(list.contains(candidate));
    } else {
        let rest = list.skip(1);
        lemma_position(rest, candidate);
        let p = position(rest, candidate);
        assert forall|k: int| 0 <= k < 1 + p implies list[k] != candidate by {
            if k > 0 {
                assert(rest[k - 1] == list[k]);
            }
        }
        if p < rest.len() {
            assert(rest[p] == list[p + 1]);
            assert(list.contains(candidate));
        }
        if list.contains(candidate) {
            let k = choose|k: int| 0 <= k < list.len() && list[k] == candidate;
            assert(rest[k - 1] == candidate);
            assert(rest.contains(candidate));
        }
    }
}

/// In a list without duplicates, the position of the candidate at a place is that place.
pub proof fn lemma_position_of_distinct<T>(list: Seq<T>, place: int)
    requires
        distinct(list),
        0 <= place < list.len(),
    ensures
        position(list, list[place]) == place,
{
    lemma_position(list, list[place]);
    let found = position(list, list[place]);
    if found < place {
        assert(list[found] != list[place]);
    }
}

/// Looks `candidate` up in `list`: its first position, or `None` where it does not occur.
pub fn find_candidate<T: PartialEq>(list: &[T], candidate: &T) -> (found: Option<usize>)
    requires
        lawful_eq::<T>(),
    ensures
        found.is_some() <==> list@.contains(*candidate),
        found.is_some() ==> found.unwrap() == position(list@, *candidate),
        found.is_none() ==> position(list@, *candidate) == list@.len(),
{
    let mut i: usize = 0;
    while i < list.len()
        invariant
            lawful_eq::<T>(),
            0 <= i <= list@.len(),
            forall|k: int| 0 <= k < i ==> list@[k] != *candidate,
        decreases list@.len() - i,
    {
        if same_candidate(&list[i], candidate) {
            proof {
                lemma_position(list@, *candidate);
            }
            return Some(i);
        }
        i += 1;
    }
    proof {
        lemma_position(list@, *candidate);
    }
    None
}

} // verus!
