//! The table of pairwise counts: for an ordered pair of candidate ids, the weight of the
//! votes that put the first above the second.

use vstd::prelude::*;

verus! {

/// A sparse table from ordered pairs of candidate ids to counts, kept in a
/// `hashbrown::HashMap`. A pair without an entry counts as zero.
#[verifier::external_body]
pub struct PairTable {
    map: hashbrown::HashMap<(usize, usize), u64>,
}

/// The entries of a pair table.
pub uninterp spec fn pair_entries(table: PairTable) -> Map<(usize, usize), u64>;

/// The entries of an empty table.
pub open spec fn no_entries() -> Map<(usize, usize), u64> {
    Map::empty()
}

/// The count of a pair in the entries of a table: that of its entry, or zero where it has
/// none.
pub open spec fn count_in(entries: Map<(usize, usize), u64>, first: usize, second: usize) -> nat {
    if entries.contains_key((first, second)) {
        entries[(first, second)] as nat
    } else {
        0
    }
}

/// Whether every entry is for two different ids below `candidates`, with a count of at most
/// `limit`.
pub open spec fn table_within(entries: Map<(usize, usize), u64>, candidates: nat, limit: int) -> bool {
    forall|a: usize, b: usize| #[trigger]
        entries.contains_key((a, b)) ==> a < candidates && b < candidates && a != b
            && entries[(a, b)] <= limit
}

/// Whether a vote that gives candidate `i` the rank `ranks[i]` puts candidate `first`
/// above candidate `second`: a smaller rank is the better one.
pub open spec fn prefers(ranks: Seq<u64>, first: usize, second: usize) -> bool {
    first < ranks.len() && second < ranks.len() && ranks[first as int] < ranks[second as int]
}

/// Whether the walk over all pairs of ids, which takes the pairs of `i` with each larger id
/// in turn, has dealt with the ids `a` and `b` when it comes to the pair (`i`, `j`).
pub open spec fn pair_done(i: int, j: int, a: usize, b: usize) -> bool {
    if a < b {
        a < i || (a == i && b < j)
    } else {
        b < i || (b == i && a < j)
    }
}

/// Whether `after` is `before` with `weight` added for each pair that the walk has dealt
/// with when it comes to (`i`, `j`), and in which the first is ranked above the second.
pub open spec fn counted_before(
    before: Map<(usize, usize), u64>,
    after: Map<(usize, usize), u64>,
    ranks: Seq<u64>,
    weight: u64,
    i: int,
    j: int,
) -> bool {
    &&& forall|a: usize, b: usize| #[trigger]
        after.contains_key((a, b)) <==> before.contains_key((a, b)) || (pair_done(i, j, a, b)
            && prefers(ranks, a, b))
    &&& forall|a: usize, b: usize| #[trigger]
        count_in(after, a, b) == count_in(before, a, b) + if pair_done(i, j, a, b) && prefers(
            ranks,
            a,
            b,
        ) {
            weight as nat
        } else {
            0
        }
}

/// Whether `after` is `before` with one vote of the given weight counted: for each pair of
/// candidates of which the vote ranks the first above the second, the count of the pair has
/// grown by the weight, and the pair has an entry. Nothing else has changed.
pub open spec fn counts_vote(
    before: Map<(usize, usize), u64>,
    after: Map<(usize, usize), u64>,
    ranks: Seq<u64>,
    weight: u64,
) -> bool {
    &&& forall|a: usize, b: usize| #[trigger]
        after.contains_key((a, b)) <==> before.contains_key((a, b)) || prefers(ranks, a, b)
    &&& forall|a: usize, b: usize| #[trigger]
        count_in(after, a, b) == count_in(before, a, b) + if prefers(ranks, a, b) {
            weight as nat
        } else {
            0
        }
}

impl PairTable {
    /// The count of the pair: that of its entry, or zero where it has none.
    pub open spec fn count(self, first: usize, second: usize) -> nat {
        count_in(pair_entries(self), first, second)
    }

    /// An empty table, made by `hashbrown::HashMap::new`, which the crate documents to
    /// give an empty map.
    #[verifier::external_body]
    pub(crate) fn new() -> (table: PairTable)
        ensures
            pair_entries(table) == no_entries(),
    {
        PairTable { map: hashbrown::HashMap::new() }
    }

    /// Looks a pair up with `hashbrown::HashMap::get`, which gives the value stored under a
    /// key, or `None` where the map holds no such key.
    #[verifier::external_body]
    pub(crate) fn get(&self, first: usize, second: usize) -> (count: Option<u64>)
        ensures
            count == if pair_entries(*self).contains_key((first, second)) {
                Some(pair_entries(*self)[(first, second)])
            } else {
                None::<u64>
            },
    {
        self.map.get(&(first, second)).copied()
    }

    /// Stores a count with `hashbrown::HashMap::insert`, which adds the key with the value,
    /// or replaces the value where the map holds the key already, and leaves all other
    /// entries as they are.
    #[verifier::external_body]
    pub(crate) fn insert(&mut self, first: usize, second: usize, count: u64)
        ensures
            pair_entries(*final(self)) == pair_entries(*old(self)).insert((first, second), count),
    {
        self.map.insert((first, second), count);
    }

    /// The count of a pair, zero where the table has no entry for it.
    pub fn count_of(&self, first: usize, second: usize) -> (count: u64)
        ensures
            count == self.count(first, second),
    {
        match self.get(first, second) {
            Some(count) => count,
            None => 0,
        }
    }

    /// Adds `weight` to the count of a pair, making the entry where there is none.
    pub fn add_to(&mut self, first: usize, second: usize, weight: u64)
        requires
            old(self).count(first, second) + weight <= u64::MAX,
        ensures
            pair_entries(*final(self)) == pair_entries(*old(self)).insert(
                (first, second),
                (old(self).count(first, second) + weight) as u64,
            ),
    {
        let count = self.count_of(first, second);
        self.insert(first, second, count + weight);
    }
}

impl PairTable {
    /// Counts one vote of the given weight, in which candidate `i` has the rank `ranks[i]`:
    /// adds the weight to the count of each pair of which the first has a smaller rank than
    /// the second. No count of the table exceeds `limit` before the call.
    pub fn add_ranked(&mut self, ranks: &Vec<u64>, weight: u64, limit: u64)
        requires
            table_within(pair_entries(*old(self)), ranks@.len(), limit as int),
            limit + weight <= u64::MAX,
        ensures
            counts_vote(pair_entries(*old(self)), pair_entries(*final(self)), ranks@, weight),
            table_within(pair_entries(*final(self)), ranks@.len(), limit + weight),
    {
        let ghost before = pair_entries(*self);
        let n = ranks.len();
        let mut i: usize = 0;
        while i < n
            invariant
                n == ranks@.len(),
                0 <= i <= n,
                limit + weight <= u64::MAX,
                table_within(before, n as nat, limit as int),
                table_within(pair_entries(*self), n as nat, limit + weight),
                counted_before(before, pair_entries(*self), ranks@, weight, i as int, i + 1),
            decreases n - i,
        {
            let mut j: usize = i + 1;
            while j < n
                invariant
                    n == ranks@.len(),
                    0 <= i < j <= n,
                    limit + weight <= u64::MAX,
                    table_within(before, n as nat, limit as int),
                    table_within(pair_entries(*self), n as nat, limit + weight),
                    counted_before(before, pair_entries(*self), ranks@, weight, i as int, j as int),
                decreases n - j,
            {
                let ghost now = pair_entries(*self);
                proof {
                    assert(!pair_done(i as int, j as int, i, j));
                    assert(!pair_done(i as int, j as int, j, i));
                    assert(count_in(now, i, j) == count_in(before, i, j));
                    assert(count_in(now, j, i) == count_in(before, j, i));
                    if before.contains_key((i, j)) {
                        assert(before[(i, j)] <= limit);
                    }
                    if before.contains_key((j, i)) {
                        assert(before[(j, i)] <= limit);
                    }
                }
                if ranks[i] < ranks[j] {
                    self.add_to(i, j, weight);
                }
                if ranks[j] < ranks[i] {
                    self.add_to(j, i, weight);
                }
                proof {
                    let after = pair_entries(*self);
                    assert forall|a: usize, b: usize| #[trigger]
                        after.contains_key((a, b)) <==> before.contains_key((a, b)) || (
                        pair_done(i as int, j + 1, a, b) && prefers(ranks@, a, b)) by {
                        assert(now.contains_key((a, b)) <==> before.contains_key((a, b)) || (
                        pair_done(i as int, j as int, a, b) && prefers(ranks@, a, b)));
                    }
                    assert forall|a: usize, b: usize| #[trigger]
                        count_in(after, a, b) == count_in(before, a, b) + if pair_done(
                            i as int,
                            j + 1,
                            a,
                            b,
                        ) && prefers(ranks@, a, b) {
                            weight as nat
                        } else {
                            0
                        } by {
                        assert(count_in(now, a, b) == count_in(before, a, b) + if pair_done(
                            i as int,
                            j as int,
                            a,
                            b,
                        ) && prefers(ranks@, a, b) {
                            weight as nat
                        } else {
                            0
                        });
                    }
                    assert forall|a: usize, b: usize| #[trigger]
                        after.contains_key((a, b)) implies a < n && b < n && a != b && after[(
                            a,
                            b,
                        )] <= limit + weight by {
                        if now.contains_key((a, b)) {
                            assert(now[(a, b)] <= limit + weight);
                        }
                        assert(count_in(now, a, b) == count_in(before, a, b) + if pair_done(
                            i as int,
                            j as int,
                            a,
                            b,
                        ) && prefers(ranks@, a, b) {
                            weight as nat
                        } else {
                            0
                        });
                    }
                }
                j += 1;
            }
            proof {
                let after = pair_entries(*self);
                assert forall|a: usize, b: usize|
                    pair_done(i as int, n as int, a, b) && prefers(ranks@, a, b) <==> pair_done(
                        i + 1,
                        i + 2,
                        a,
                        b,
                    ) && prefers(ranks@, a, b) by {}
                assert forall|a: usize, b: usize| #[trigger]
                    after.contains_key((a, b)) <==> before.contains_key((a, b)) || (pair_done(
                        i + 1,
                        i + 2,
                        a,
                        b,
                    ) && prefers(ranks@, a, b)) by {
                    assert(pair_done(i as int, n as int, a, b) && prefers(ranks@, a, b)
                        <==> pair_done(i + 1, i + 2, a, b) && prefers(ranks@, a, b));
                }
                assert forall|a: usize, b: usize| #[trigger]
                    count_in(after, a, b) == count_in(before, a, b) + if pair_done(
                        i + 1,
                        i + 2,
                        a,
                        b,
                    ) && prefers(ranks@, a, b) {
                        weight as nat
                    } else {
                        0
                    } by {
                    assert(pair_done(i as int, n as int, a, b) && prefers(ranks@, a, b)
                        <==> pair_done(i + 1, i + 2, a, b) && prefers(ranks@, a, b));
                    assert(count_in(after, a, b) == count_in(before, a, b) + if pair_done(
                        i as int,
                        n as int,
                        a,
                        b,
                    ) && prefers(ranks@, a, b) {
                        weight as nat
                    } else {
                        0
                    });
                }
            }
            i += 1;
        }
        proof {
            let after = pair_entries(*self);
            assert forall|a: usize, b: usize| #[trigger]
                after.contains_key((a, b)) <==> before.contains_key((a, b)) || prefers(
                    ranks@,
                    a,
                    b,
                ) by {
                assert(prefers(ranks@, a, b) ==> pair_done(n as int, n + 1, a, b));
            }
            assert forall|a: usize, b: usize| #[trigger]
                count_in(after, a, b) == count_in(before, a, b) + if prefers(ranks@, a, b) {
                    weight as nat
                } else {
                    0
                } by {
                assert(prefers(ranks@, a, b) ==> pair_done(n as int, n + 1, a, b));
                assert(count_in(after, a, b) == count_in(before, a, b) + if pair_done(
                    n as int,
                    n + 1,
                    a,
                    b,
                ) && prefers(ranks@, a, b) {
                    weight as nat
                } else {
                    0
                });
            }
        }
    }
}

} // verus!
