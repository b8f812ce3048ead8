//! A stable sort by an integer key, and what the tallies need to know of its result.

use vstd::prelude::*;

verus! {

/// A value with an integer key: sorting puts smaller keys first.
pub trait Keyed {
    /// The key of this value.
    spec fn sort_key(&self) -> int;

    /// Whether this value's key is at most the other's.
    fn key_at_most(&self, other: &Self) -> (at_most: bool)
        ensures
            at_most == (self.sort_key() <= other.sort_key()),
    ;
}

/// The keys of `s` never decrease.
pub open spec fn sorted<A: Keyed>(s: Seq<A>) -> bool {
    forall|i: int, j: int| 0 <= i <= j < s.len() ==> s[i].sort_key() <= s[j].sort_key()
}

/// Where `x` goes in a sorted `s`: behind every value whose key is at most its own.
pub open spec fn insertion_point<A: Keyed>(s: Seq<A>, x: A) -> int
    decreases s.len(),
{
    if s.len() == 0 {
        0
    } else if s.last().sort_key() <= x.sort_key() {
        s.len() as int
    } else {
        insertion_point(s.drop_last(), x)
    }
}

/// `s` in the order of its keys; values with equal keys keep the order they had in `s`.
pub open spec fn stable_sort<A: Keyed>(s: Seq<A>) -> Seq<A>
    decreases s.len(),
{
    if s.len() == 0 {
        s
    } else {
        let front = stable_sort(s.drop_last());
        front.insert(insertion_point(front, s.last()), s.last())
    }
}

/// The insertion point lies in the sequence, with larger keys behind it and, where the
/// sequence is sorted, no larger key before it.
pub proof fn lemma_insertion_point<A: Keyed>(s: Seq<A>, x: A)
    ensures
        0 <= insertion_point(s, x) <= s.len(),
        forall|k: int| insertion_point(s, x) <= k < s.len() ==> s[k].sort_key() > x.sort_key(),
        insertion_point(s, x) > 0 ==> s[insertion_point(s, x) - 1].sort_key() <= x.sort_key(),
        sorted(s) ==> forall|k: int|
            0 <= k < insertion_point(s, x) ==> s[k].sort_key() <= x.sort_key(),
    decreases s.len(),
{
    if s.len() == 0 {
    } else if s.last().sort_key() <= x.sort_key() {
    } else {
        let init = s.drop_last();
        lemma_insertion_point(init, x);
        let p = insertion_point(init, x);
        assert forall|k: int| p <= k < s.len() implies s[k].sort_key() > x.sort_key() by {
            if k < init.len() {
                assert(init[k] == s[k]);
            }
        }
        if p > 0 {
            assert(init[p - 1] == s[p - 1]);
        }
        assert forall|k: int| 0 <= k < init.len() implies init[k] == s[k] by {}
        if sorted(s) {
            assert(sorted(s.drop_last())) by {
                assert forall|i: int, j: int| 0 <= i <= j < s.drop_last().len() implies s.drop_last()[i].sort_key()
                    <= s.drop_last()[j].sort_key() by {
                    assert(s.drop_last()[i] == s[i]);
                    assert(s.drop_last()[j] == s[j]);
                }
            }
        }
    }
}

/// A stable sort gives a sorted sequence that holds the same values, each as often as
/// before.
pub proof fn lemma_stable_sort<A: Keyed>(s: Seq<A>)
    ensures
        stable_sort(s).len() == s.len(),
        sorted(stable_sort(s)),
        stable_sort(s).to_multiset() == s.to_multiset(),
    decreases s.len(),
{
    if s.len() == 0 {
    } else {
        let front = stable_sort(s.drop_last());
        let x = s.last();
        let p = insertion_point(front, x);
        lemma_stable_sort(s.drop_last());
        lemma_insertion_point(front, x);
        let out = front.insert(p, x);
        assert forall|i: int, j: int| 0 <= i <= j < out.len() implies out[i].sort_key()
            <= out[j].sort_key() by {
            if i < p && j > p {
                assert(out[i] == front[i]);
                assert(out[j] == front[j - 1]);
            }
        }
        vstd::seq_lib::to_multiset_insert(front, p, x);
        assert(s =~= s.drop_last().push(x));
        vstd::seq_lib::to_multiset_build(s.drop_last(), x);
    }
}

/// The values of a sequence that have the given key, in their order.
pub open spec fn with_key<A: Keyed>(s: Seq<A>, key: int) -> Seq<A>
    decreases s.len(),
{
    if s.len() == 0 {
        Seq::empty()
    } else if s.last().sort_key() == key {
        with_key(s.drop_last(), key).push(s.last())
    } else {
        with_key(s.drop_last(), key)
    }
}

/// A value put in front of larger keys only comes last among the values of its key, and
/// leaves the values of the other keys as they are.
pub proof fn lemma_with_key_insert<A: Keyed>(s: Seq<A>, at: int, x: A, key: int)
    requires
        0 <= at <= s.len(),
        forall|k: int| at <= k < s.len() ==> s[k].sort_key() > x.sort_key(),
    ensures
        with_key(s.insert(at, x), key) == if x.sort_key() == key {
            with_key(s, key).push(x)
        } else {
            with_key(s, key)
        },
    decreases s.len(),
{
    let after = s.insert(at, x);
    if at == s.len() {
        assert(after.drop_last() =~= s);
        assert(after.last() == x);
    } else {
        let init = s.drop_last();
        assert(after.drop_last() =~= init.insert(at, x));
        assert(after.last() == s.last());
        assert forall|k: int| at <= k < init.len() implies init[k].sort_key() > x.sort_key() by {
            assert(init[k] == s[k]);
        }
        lemma_with_key_insert(init, at, x, key);
        assert(s[s.len() - 1].sort_key() > x.sort_key());
    }
}

/// The sort is stable: the values of one key come out in the order in which they went in.
pub proof fn lemma_stable_sort_keeps_order<A: Keyed>(s: Seq<A>, key: int)
    ensures
        with_key(stable_sort(s), key) == with_key(s, key),
    decreases s.len(),
{
    if s.len() > 0 {
        let front = stable_sort(s.drop_last());
        let x = s.last();
        lemma_stable_sort_keeps_order(s.drop_last(), key);
        lemma_stable_sort(s.drop_last());
        lemma_insertion_point(front, x);
        lemma_with_key_insert(front, insertion_point(front, x), x, key);
    }
}

/// A stable sort holds a value exactly when the sequence held it.
pub proof fn lemma_stable_sort_contains<A: Keyed>(s: Seq<A>, x: A)
    ensures
        stable_sort(s).contains(x) <==> s.contains(x),
{
    lemma_stable_sort(s);
    s.to_multiset_ensures();
    stable_sort(s).to_multiset_ensures();
    assert(s.to_multiset().count(x) == stable_sort(s).to_multiset().count(x));
}

/// Sorting a sorted sequence changes nothing.
pub proof fn lemma_stable_sort_of_sorted<A: Keyed>(s: Seq<A>)
    requires
        sorted(s),
    ensures
        stable_sort(s) == s,
    decreases s.len(),
{
    if s.len() > 0 {
        let init = s.drop_last();
        assert(sorted(init)) by {
            assert forall|i: int, j: int| 0 <= i <= j < init.len() implies init[i].sort_key()
                <= init[j].sort_key() by {
                assert(init[i] == s[i]);
                assert(init[j] == s[j]);
            }
        }
        lemma_stable_sort_of_sorted(init);
        if init.len() > 0 {
            assert(init.last() == s[s.len() - 2]);
        }
        assert(insertion_point(init, s.last()) == init.len());
        assert(init.insert(init.len() as int, s.last()) =~= s);
    }
}

/// Sorts `v` by key, keeping the order of values with equal keys.
pub fn sort_stable<A: Keyed>(v: &mut Vec<A>)
    ensures
        final(v)@ == stable_sort(old(v)@),
{
    let ghost input = v@;
    let n = v.len();
    let mut i: usize = 0;
    while i < n
        invariant
            n == input.len(),
            v@.len() == n,
            0 <= i <= n,
            v@.take(i as int) == stable_sort(input.take(i as int)),
            v@.skip(i as int) == input.skip(i as int),
        decreases n - i,
    {
        let ghost before = v@;
        let ghost front = before.take(i as int);
        let x = v.remove(i);
        assert(x == input[i as int]) by {
            assert(before.skip(i as int)[0] == input.skip(i as int)[0]);
        }
        let mut p: usize = i;
        proof {
            assert(v@.take(i as int) =~= front);
            assert(front.take(i as int) =~= front);
        }
        while p > 0 && !v[p - 1].key_at_most(&x)
            invariant
                0 <= p <= i,
                i < n,
                v@.len() == n - 1,
                v@.take(i as int) == front,
                insertion_point(front, x) == insertion_point(front.take(p as int), x),
            decreases p,
        {
            proof {
                let cut = front.take(p as int);
                assert(cut.last() == v@[p - 1]);
                assert(cut.drop_last() =~= front.take(p - 1));
            }
            p -= 1;
        }
        proof {
            let cut = front.take(p as int);
            if p > 0 {
                assert(cut.last() == v@[p - 1]);
            }
            assert(insertion_point(front, x) == p);
        }
        v.insert(p, x);
        proof {
            let next = input.take(i + 1);
            assert(next.drop_last() =~= input.take(i as int));
            assert(next.last() == x);
            assert(v@.take(i + 1) =~= front.insert(p as int, x));
            assert(v@.skip(i + 1) =~= input.skip(i + 1)) by {
                let rest = v@.skip(i + 1);
                assert forall|k: int| 0 <= k < n - i - 1 implies #[trigger] rest[k] == input[i
                    + 1 + k] by {
                    assert(before.skip(i as int)[k + 1] == input.skip(i as int)[k + 1]);
                }
            }
        }
        i += 1;
    }
    proof {
        assert(v@.take(n as int) =~= v@);
        assert(input.take(n as int) =~= input);
    }
}

} // verus!
