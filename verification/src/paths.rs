//! Walks through the candidates and their strengths: what the strongest paths of the
//! Schulze method are.

use crate::pairwise::count_in;
use vstd::prelude::*;

verus! {

/// The smaller of two numbers.
pub open spec fn least(a: nat, b: nat) -> nat {
    if a < b {
        a
    } else {
        b
    }
}

/// The larger of two numbers.
pub open spec fn most(a: nat, b: nat) -> nat {
    if a > b {
        a
    } else {
        b
    }
}

/// The strength of a walk of two candidates or more: that of its weakest link. A link
/// without an entry has the strength zero.
pub open spec fn walk_strength(links: Map<(usize, usize), u64>, walk: Seq<usize>) -> nat
    decreases walk.len(),
{
    if walk.len() < 2 {
        0
    } else if walk.len() == 2 {
        count_in(links, walk[0], walk[1])
    } else {
        least(
            walk_strength(links, walk.drop_last()),
            count_in(links, walk[walk.len() - 2], walk.last()),
        )
    }
}

/// Whether `walk` leads from `from` to `to` through candidates below `n`.
pub open spec fn is_route(walk: Seq<usize>, n: nat, from: usize, to: usize) -> bool {
    &&& walk.len() >= 2
    &&& walk.first() == from
    &&& walk.last() == to
    &&& forall|i: int| 0 <= i < walk.len() ==> (#[trigger] walk[i]) < n
}

/// Whether all candidates between the first and the last of a walk are below `limit`.
pub open spec fn stops_below(walk: Seq<usize>, limit: nat) -> bool {
    forall|i: int| 0 < i < walk.len() - 1 ==> (#[trigger] walk[i]) < limit
}

/// Whether `paths` holds, for two different candidates below `n`, the strength of the
/// strongest walk from the first to the second: some walk has that strength, and none has
/// more.
pub open spec fn is_widest(
    links: Map<(usize, usize), u64>,
    n: nat,
    paths: Map<(usize, usize), u64>,
    from: usize,
    to: usize,
) -> bool {
    &&& exists|walk: Seq<usize>| #[trigger]
        is_route(walk, n, from, to) && walk_strength(links, walk) == count_in(paths, from, to)
    &&& forall|walk: Seq<usize>| #[trigger]
        is_route(walk, n, from, to) ==> walk_strength(links, walk) <= count_in(paths, from, to)
}

/// A walk is no stronger than its start.
pub proof fn lemma_start_is_stronger(links: Map<(usize, usize), u64>, walk: Seq<usize>, upto: int)
    requires
        2 <= upto <= walk.len(),
    ensures
        walk_strength(links, walk) <= walk_strength(links, walk.take(upto)),
    decreases walk.len(),
{
    if upto == walk.len() {
        assert(walk.take(upto) =~= walk);
    } else {
        lemma_start_is_stronger(links, walk.drop_last(), upto);
        assert(walk.drop_last().take(upto) =~= walk.take(upto));
    }
}

/// A walk is no stronger than its end.
pub proof fn lemma_end_is_stronger(links: Map<(usize, usize), u64>, walk: Seq<usize>, from: int)
    requires
        0 <= from <= walk.len() - 2,
    ensures
        walk_strength(links, walk) <= walk_strength(links, walk.skip(from)),
    decreases walk.len(),
{
    let end = walk.skip(from);
    if from == 0 {
        assert(end =~= walk);
    } else if end.len() == 2 {
        assert(end[0] == walk[walk.len() - 2]);
        assert(end[1] == walk.last());
    } else {
        lemma_end_is_stronger(links, walk.drop_last(), from);
        assert(walk.drop_last().skip(from) =~= end.drop_last());
        assert(end[end.len() - 2] == walk[walk.len() - 2]);
        assert(end.last() == walk.last());
    }
}

/// Two walks of which the second starts where the first ends make a walk that is as strong
/// as the weaker of the two.
pub proof fn lemma_joined_strength(
    links: Map<(usize, usize), u64>,
    first: Seq<usize>,
    second: Seq<usize>,
)
    requires
        first.len() >= 2,
        second.len() >= 2,
        first.last() == second.first(),
    ensures
        walk_strength(links, first + second.skip(1)) == least(
            walk_strength(links, first),
            walk_strength(links, second),
        ),
    decreases second.len(),
{
    let joined = first + second.skip(1);
    if second.len() == 2 {
        assert(joined.drop_last() =~= first);
        assert(joined[joined.len() - 2] == first.last());
        assert(joined.last() == second[1]);
    } else {
        lemma_joined_strength(links, first, second.drop_last());
        assert(joined.drop_last() =~= first + second.drop_last().skip(1));
        assert(joined[joined.len() - 2] == second[second.len() - 2]);
        assert(joined.last() == second.last());
    }
}

/// The strongest path from a candidate to another is no weaker than the weaker of the
/// strongest paths to and from any candidate between them.
pub proof fn lemma_strongest_by_way(
    links: Map<(usize, usize), u64>,
    n: nat,
    paths: Map<(usize, usize), u64>,
    from: usize,
    way: usize,
    to: usize,
)
    requires
        is_widest(links, n, paths, from, way),
        is_widest(links, n, paths, way, to),
        is_widest(links, n, paths, from, to),
    ensures
        count_in(paths, from, to) >= least(count_in(paths, from, way), count_in(paths, way, to)),
{
    let first = choose|walk: Seq<usize>| #[trigger]
        is_route(walk, n, from, way) && walk_strength(links, walk) == count_in(paths, from, way);
    let second = choose|walk: Seq<usize>| #[trigger]
        is_route(walk, n, way, to) && walk_strength(links, walk) == count_in(paths, way, to);
    let joined = first + second.skip(1);
    lemma_joined_strength(links, first, second);
    assert(is_route(joined, n, from, to)) by {
        assert forall|i: int| 0 <= i < joined.len() implies (#[trigger] joined[i]) < n by {
            if i < first.len() {
                assert(joined[i] == first[i]);
            } else {
                assert(joined[i] == second[i - first.len() + 1]);
            }
        }
        assert(joined.first() == first.first());
        assert(joined.last() == second.last());
    }
}

/// The last place of a value in a list, or -1 where the list does not hold it.
pub open spec fn last_place(list: Seq<usize>, value: usize) -> int
    decreases list.len(),
{
    if list.len() == 0 {
        -1
    } else if list.last() == value {
        list.len() - 1
    } else {
        last_place(list.drop_last(), value)
    }
}

/// The last place of a value holds the value, and no later place does.
pub proof fn lemma_last_place(list: Seq<usize>, value: usize)
    ensures
        -1 <= last_place(list, value) < list.len(),
        last_place(list, value) >= 0 ==> list[last_place(list, value)] == value,
        forall|k: int| last_place(list, value) < k < list.len() ==> list[k] != value,
    decreases list.len(),
{
    if list.len() > 0 && list.last() != value {
        lemma_last_place(list.drop_last(), value);
        assert forall|k: int| last_place(list, value) < k < list.len() implies list[k]
            != value by {
            if k < list.len() - 1 {
                assert(list.drop_last()[k] == list[k]);
            }
        }
        if last_place(list, value) >= 0 {
            assert(list.drop_last()[last_place(list, value)] == list[last_place(list, value)]);
        }
    }
}

} // verus!
