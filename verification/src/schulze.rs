//! The Schulze method: candidates are ranked by the strongest paths between them in the
//! graph of pairwise victories.

use crate::candidate::{copy_candidate, lawful};
use crate::condorcet::{given_ranks, registered, totals_before, transitive_ranks, CondorcetTally};
use crate::errors::TallyError;
use crate::graph::PreferenceGraph;
use crate::pairwise::{count_in, counts_vote, pair_entries, PairTable};
use crate::paths::{is_route, is_widest, least, most, stops_below, walk_strength};
use crate::result::{CountedCandidates, RankedWinners};
use crate::util::voted;
use vstd::prelude::*;

verus! {

/// The way to measure the strength of a link from one candidate to another.
#[derive(Debug, Clone, Copy, PartialEq, Eq, Structural)]
pub enum Variant {
    /// The strength of a link is its support: the votes for the winner of the pair.
    Winning,
    /// The strength of a link is the margin: its support less its opposition.
    Margin,
    /// The strength of a link is the ratio of its support to its opposition. Ratios need
    /// fractions, so no tally that counts in whole numbers is made with this variant.
    Ratio,
}

/// The strength of the link from candidate `first` to candidate `second`: zero unless more
/// votes prefer `first`, and then as the variant measures it.
pub open spec fn link_strength(
    variant: Variant,
    entries: Map<(usize, usize), u64>,
    first: usize,
    second: usize,
) -> nat {
    let support = count_in(entries, first, second);
    let opposition = count_in(entries, second, first);
    if support > opposition {
        match variant {
            Variant::Winning => support,
            Variant::Margin => (support - opposition) as nat,
            Variant::Ratio => if opposition != 0 {
                support / opposition
            } else {
                u64::MAX as nat
            },
        }
    } else {
        0
    }
}

/// The strengths of the direct links before the pair (`first`, `second`), over the
/// candidates `0..n`: an entry for each pair of different candidates.
pub open spec fn links_before(
    variant: Variant,
    entries: Map<(usize, usize), u64>,
    n: nat,
    first: nat,
    second: nat,
) -> Map<(usize, usize), u64> {
    Map::new(
        |key: (usize, usize)|
            key.0 < n && key.1 < n && key.0 != key.1 && (key.0 < first || key.0 == first && key.1
                < second),
        |key: (usize, usize)| link_strength(variant, entries, key.0, key.1) as u64,
    )
}

/// The strengths of all direct links between the candidates `0..n`.
pub open spec fn direct_links(variant: Variant, entries: Map<(usize, usize), u64>, n: nat) -> Map<
    (usize, usize),
    u64,
> {
    links_before(variant, entries, n, n, 0)
}

/// The path strengths after the path from `from` to `to` was compared with the path that
/// goes by `way`: the strength of that path is the smaller of the strengths of its
/// two parts, and the stronger of the two paths stays.
pub open spec fn relaxed(paths: Map<(usize, usize), u64>, way: usize, from: usize, to: usize) -> Map<
    (usize, usize),
    u64,
> {
    paths.insert(
        (from, to),
        most(
            count_in(paths, from, to),
            least(count_in(paths, from, way), count_in(paths, way, to)),
        ) as u64,
    )
}

/// The path strengths when the closure comes to the step (`way`, `from`, `to`): it takes
/// each candidate as the way in turn, for each way every start, and for each start every
/// end, and compares the paths where the three candidates differ.
pub open spec fn paths_before(
    links: Map<(usize, usize), u64>,
    n: nat,
    way: nat,
    from: nat,
    to: nat,
) -> Map<(usize, usize), u64>
    decreases way, from, to,
{
    if to > 0 {
        let before = paths_before(links, n, way, from, (to - 1) as nat);
        if way != from && way != to - 1 && from != to - 1 {
            relaxed(before, way as usize, from as usize, (to - 1) as usize)
        } else {
            before
        }
    } else if from > 0 {
        paths_before(links, n, way, (from - 1) as nat, n)
    } else if way > 0 {
        paths_before(links, n, (way - 1) as nat, n, 0)
    } else {
        links
    }
}

/// The strengths of the strongest paths between the candidates `0..n`: the direct links,
/// closed under the comparison with the paths by way of each candidate.
pub open spec fn strongest(variant: Variant, entries: Map<(usize, usize), u64>, n: nat) -> Map<
    (usize, usize),
    u64,
> {
    paths_before(direct_links(variant, entries, n), n, n, 0, 0)
}

/// With the way equal to the start, no step of the row compares anything.
pub proof fn lemma_row_of_way(links: Map<(usize, usize), u64>, n: nat, way: nat, to: nat)
    ensures
        paths_before(links, n, way, way, to) == paths_before(links, n, way, way, 0),
    decreases to,
{
    if to > 0 {
        lemma_row_of_way(links, n, way, (to - 1) as nat);
    }
}

/// Whether the closure has compared the path from `a` to `b` with the path by `way` when
/// it comes to the step (`way`, `from`, `to`); the paths from and to `way` itself need no
/// comparison.
pub open spec fn compared(way: nat, from: nat, to: nat, a: usize, b: usize) -> bool {
    a == way || b == way || a < from || (a == from && b < to)
}

/// Whether some walk from `a` to `b` has the given strength.
pub open spec fn has_walk(
    links: Map<(usize, usize), u64>,
    n: nat,
    a: usize,
    b: usize,
    strength: nat,
) -> bool {
    exists|walk: Seq<usize>| #[trigger]
        is_route(walk, n, a, b) && walk_strength(links, walk) == strength
}

/// Whether every path strength is the strength of some walk.
pub open spec fn attained(
    links: Map<(usize, usize), u64>,
    n: nat,
    paths: Map<(usize, usize), u64>,
) -> bool {
    forall|a: usize, b: usize|
        a < n && b < n && a != b ==> #[trigger] has_walk(links, n, a, b, count_in(paths, a, b))
}

/// Whether no walk that stops at candidates below `way` only is stronger than the path
/// strength of its ends, nor one that stops at `way` too where the closure has compared its
/// path already.
pub open spec fn bounded(
    links: Map<(usize, usize), u64>,
    n: nat,
    paths: Map<(usize, usize), u64>,
    way: nat,
    from: nat,
    to: nat,
) -> bool {
    forall|walk: Seq<usize>, a: usize, b: usize| #[trigger]
        is_route(walk, n, a, b) && a != b && (stops_below(walk, way) || stops_below(
            walk,
            way + 1,
        ) && compared(way, from, to, a, b)) ==> walk_strength(links, walk) <= count_in(
            paths,
            a,
            b,
        )
}

/// Whether the step (`way`, `from`, `to`) is one that the closure comes to.
pub open spec fn is_step(n: nat, way: nat, from: nat, to: nat) -> bool {
    &&& way <= n && from <= n && to <= n
    &&& from == n ==> to == 0
    &&& way == n ==> from == 0 && to == 0
}

/// A walk that stops at `way` splits there: its start up to the first stop at `way` stops
/// below `way` only, and leads to `way`; the rest leads on from `way`.
pub proof fn lemma_split_at_way(
    links: Map<(usize, usize), u64>,
    n: nat,
    walk: Seq<usize>,
    a: usize,
    b: usize,
    way: usize,
) -> (at: int)
    requires
        is_route(walk, n, a, b),
        stops_below(walk, (way + 1) as nat),
        exists|i: int| 0 < i < walk.len() && walk[i] == way,
    ensures
        0 < at < walk.len(),
        walk[at] == way,
        is_route(walk.take(at + 1), n, a, way),
        stops_below(walk.take(at + 1), way as nat),
        walk_strength(links, walk) <= walk_strength(links, walk.take(at + 1)),
        at < walk.len() - 1 ==> is_route(walk.skip(at), n, way, b) && stops_below(
            walk.skip(at),
            (way + 1) as nat,
        ) && walk_strength(links, walk) <= walk_strength(links, walk.skip(at)),
{
    let rest = walk.skip(1);
    let found = crate::candidate::position(rest, way);
    crate::candidate::lemma_position(rest, way);
    let i = choose|i: int| 0 < i < walk.len() && walk[i] == way;
    assert(rest[i - 1] == way);
    assert(rest.contains(way));
    let at = found + 1;
    assert(walk[at] == rest[found]);
    let start = walk.take(at + 1);
    assert forall|k: int| 0 < k < start.len() - 1 implies (#[trigger] start[k]) < way by {
        assert(start[k] == walk[k]);
        assert(rest[k - 1] == walk[k]);
    }
    crate::paths::lemma_start_is_stronger(links, walk, at + 1);
    if at < walk.len() - 1 {
        let end = walk.skip(at);
        assert forall|k: int| 0 < k < end.len() - 1 implies (#[trigger] end[k]) < way + 1 by {
            assert(end[k] == walk[at + k]);
        }
        crate::paths::lemma_end_is_stronger(links, walk, at);
    }
    at
}

/// Where no walk that stops below `way` only is stronger than the path strength of its
/// ends, no walk from or to `way` that stops at `way` too is.
pub proof fn lemma_walks_of_way(
    links: Map<(usize, usize), u64>,
    n: nat,
    paths: Map<(usize, usize), u64>,
    way: nat,
)
    requires
        way <= usize::MAX,
        forall|walk: Seq<usize>, a: usize, b: usize| #[trigger]
            is_route(walk, n, a, b) && a != b && stops_below(walk, way) ==> walk_strength(
                links,
                walk,
            ) <= count_in(paths, a, b),
    ensures
        bounded(links, n, paths, way, 0, 0),
{
    assert forall|walk: Seq<usize>, a: usize, b: usize| #[trigger]
        is_route(walk, n, a, b) && a != b && (stops_below(walk, way) || stops_below(
            walk,
            way + 1,
        ) && compared(way, 0, 0, a, b)) implies walk_strength(links, walk) <= count_in(
        paths,
        a,
        b,
    ) by {
        if !stops_below(walk, way) {
            if b == way {
                assert(walk[walk.len() - 1] == way);
                let at = lemma_split_at_way(links, n, walk, a, b, way as usize);
                let start = walk.take(at + 1);
                assert(is_route(start, n, a, way as usize));
            } else {
                assert(a == way);
                let inner = walk.drop_last();
                crate::paths::lemma_last_place(inner, way as usize);
                let at = crate::paths::last_place(inner, way as usize);
                assert(inner[0] == way);
                assert(at >= 0);
                assert(inner[at] == walk[at]);
                let end = walk.skip(at);
                assert forall|k: int| 0 < k < end.len() - 1 implies (#[trigger] end[k]) < way by {
                    assert(end[k] == walk[at + k]);
                    assert(inner[at + k] == walk[at + k]);
                }
                assert(is_route(end, n, a, b));
                crate::paths::lemma_end_is_stronger(links, walk, at);
            }
        }
    }
}

/// At every step of the closure, each path strength is the strength of a walk, and bounds
/// the strength of the walks that the closure has taken into account.
pub proof fn lemma_closure(links: Map<(usize, usize), u64>, n: nat, way: nat, from: nat, to: nat)
    requires
        n <= usize::MAX,
        is_step(n, way, from, to),
    ensures
        attained(links, n, paths_before(links, n, way, from, to)),
        bounded(links, n, paths_before(links, n, way, from, to), way, from, to),
    decreases way, from, to,
{
    let after = paths_before(links, n, way, from, to);
    if to > 0 {
        let before = paths_before(links, n, way, from, (to - 1) as nat);
        lemma_closure(links, n, way, from, (to - 1) as nat);
        let t = (to - 1) as usize;
        let f = from as usize;
        let w = way as usize;
        if way != from && way != to - 1 && from != to - 1 {
            let direct = count_in(before, f, t);
            let first = count_in(before, f, w);
            let second = count_in(before, w, t);
            let value = most(direct, least(first, second));
            assert(after == before.insert((f, t), value as u64));
            assert(count_in(after, f, t) == value);
            assert forall|a: usize, b: usize| a < n && b < n && a != b implies #[trigger] has_walk(
                links,
                n,
                a,
                b,
                count_in(after, a, b),
            ) by {
                assert(has_walk(links, n, a, b, count_in(before, a, b)));
                if a == f && b == t {
                    if value != direct {
                        assert(has_walk(links, n, f, w, first));
                        assert(has_walk(links, n, w, t, second));
                        let one = choose|walk: Seq<usize>| #[trigger]
                            is_route(walk, n, f, w) && walk_strength(links, walk) == first;
                        let two = choose|walk: Seq<usize>| #[trigger]
                            is_route(walk, n, w, t) && walk_strength(links, walk) == second;
                        let joined = one + two.skip(1);
                        crate::paths::lemma_joined_strength(links, one, two);
                        assert(is_route(joined, n, f, t)) by {
                            assert forall|i: int| 0 <= i < joined.len() implies (
                            #[trigger] joined[i]) < n by {
                                if i < one.len() {
                                    assert(joined[i] == one[i]);
                                } else {
                                    assert(joined[i] == two[i - one.len() + 1]);
                                }
                            }
                            assert(joined.last() == two.last());
                            assert(joined.first() == one.first());
                        }
                    }
                } else {
                    assert(count_in(after, a, b) == count_in(before, a, b));
                }
            }
            assert forall|walk: Seq<usize>, a: usize, b: usize| #[trigger]
                is_route(walk, n, a, b) && a != b && (stops_below(walk, way) || stops_below(
                    walk,
                    way + 1,
                ) && compared(way, from, to, a, b)) implies walk_strength(links, walk)
                <= count_in(after, a, b) by {
                if a == f && b == t {
                    if stops_below(walk, way) {
                        assert(walk_strength(links, walk) <= direct);
                    } else {
                        let i = choose|i: int| 0 < i < walk.len() - 1 && !(#[trigger] walk[i] < way);
                        assert(walk[i] < way + 1);
                        let at = lemma_split_at_way(links, n, walk, a, b, w);
                        let start = walk.take(at + 1);
                        let end = walk.skip(at);
                        assert(is_route(start, n, f, w));
                        assert(walk_strength(links, start) <= first);
                        assert(at < walk.len() - 1);
                        assert(is_route(end, n, w, t));
                        assert(compared(way, from, (to - 1) as nat, w, t));
                        assert(walk_strength(links, end) <= second);
                    }
                } else {
                    assert(count_in(after, a, b) == count_in(before, a, b));
                    assert(compared(way, from, to, a, b) ==> compared(
                        way,
                        from,
                        (to - 1) as nat,
                        a,
                        b,
                    ));
                }
            }
        } else {
            assert(after == before);
            assert forall|walk: Seq<usize>, a: usize, b: usize| #[trigger]
                is_route(walk, n, a, b) && a != b && (stops_below(walk, way) || stops_below(
                    walk,
                    way + 1,
                ) && compared(way, from, to, a, b)) implies walk_strength(links, walk)
                <= count_in(after, a, b) by {
                assert(compared(way, from, to, a, b) ==> compared(
                    way,
                    from,
                    (to - 1) as nat,
                    a,
                    b,
                ));
            }
        }
    } else if from > 0 {
        lemma_closure(links, n, way, (from - 1) as nat, n);
        assert(after == paths_before(links, n, way, (from - 1) as nat, n));
        assert forall|walk: Seq<usize>, a: usize, b: usize| #[trigger]
            is_route(walk, n, a, b) && a != b && (stops_below(walk, way) || stops_below(
                walk,
                way + 1,
            ) && compared(way, from, to, a, b)) implies walk_strength(links, walk) <= count_in(
            after,
            a,
            b,
        ) by {
            assert(walk[walk.len() - 1] < n);
            assert(compared(way, from, to, a, b) ==> compared(way, (from - 1) as nat, n, a, b));
        }
    } else if way > 0 {
        lemma_closure(links, n, (way - 1) as nat, n, 0);
        assert(after == paths_before(links, n, (way - 1) as nat, n, 0));
        assert forall|walk: Seq<usize>, a: usize, b: usize| #[trigger]
            is_route(walk, n, a, b) && a != b && stops_below(walk, way) implies walk_strength(
            links,
            walk,
        ) <= count_in(after, a, b) by {
            assert(walk[0] < n);
            assert(compared((way - 1) as nat, n, 0, a, b));
        }
        lemma_walks_of_way(links, n, after, way);
    } else {
        assert(after == links);
        assert forall|a: usize, b: usize| a < n && b < n && a != b implies #[trigger] has_walk(
            links,
            n,
            a,
            b,
            count_in(after, a, b),
        ) by {
            let walk = seq![a, b];
            assert(is_route(walk, n, a, b));
            assert(walk_strength(links, walk) == count_in(links, a, b));
        }
        assert forall|walk: Seq<usize>, a: usize, b: usize| #[trigger]
            is_route(walk, n, a, b) && a != b && stops_below(walk, 0) implies walk_strength(
            links,
            walk,
        ) <= count_in(after, a, b) by {
            if walk.len() > 2 {
                assert(walk[1] < 0);
            }
        }
        lemma_walks_of_way(links, n, after, 0);
    }
}

/// The closure keeps the entries of the links: one for each pair of different candidates.
pub proof fn lemma_paths_domain(links: Map<(usize, usize), u64>, n: nat, way: nat, from: nat, to: nat)
    requires
        n <= usize::MAX,
        is_step(n, way, from, to),
        forall|a: usize, b: usize| #[trigger]
            links.contains_key((a, b)) <==> a < n && b < n && a != b,
    ensures
        forall|a: usize, b: usize| #[trigger]
            paths_before(links, n, way, from, to).contains_key((a, b)) <==> a < n && b < n && a
                != b,
    decreases way, from, to,
{
    let after = paths_before(links, n, way, from, to);
    if to > 0 {
        lemma_paths_domain(links, n, way, from, (to - 1) as nat);
        let before = paths_before(links, n, way, from, (to - 1) as nat);
        assert forall|a: usize, b: usize| #[trigger]
            after.contains_key((a, b)) <==> a < n && b < n && a != b by {
            assert(before.contains_key((a, b)) <==> a < n && b < n && a != b);
        }
    } else if from > 0 {
        lemma_paths_domain(links, n, way, (from - 1) as nat, n);
        assert(after == paths_before(links, n, way, (from - 1) as nat, n));
    } else if way > 0 {
        lemma_paths_domain(links, n, (way - 1) as nat, n, 0);
        assert(after == paths_before(links, n, (way - 1) as nat, n, 0));
    } else {
        assert(after == links);
    }
}

/// The closure gives the strengths of the strongest paths: for two different candidates,
/// some walk from the first to the second through the candidates has the strength that the
/// closure ends with, and no such walk is stronger. The strength of a walk is that of its
/// weakest link.
pub proof fn lemma_strongest_is_widest(
    variant: Variant,
    entries: Map<(usize, usize), u64>,
    n: nat,
    from: usize,
    to: usize,
)
    requires
        n <= usize::MAX,
        from < n,
        to < n,
        from != to,
    ensures
        is_widest(direct_links(variant, entries, n), n, strongest(variant, entries, n), from, to),
{
    let links = direct_links(variant, entries, n);
    let paths = strongest(variant, entries, n);
    lemma_closure(links, n, n, 0, 0);
    assert(has_walk(links, n, from, to, count_in(paths, from, to)));
    assert forall|walk: Seq<usize>| #[trigger] is_route(walk, n, from, to) implies walk_strength(
        links,
        walk,
    ) <= count_in(paths, from, to) by {
        assert(stops_below(walk, n));
    }
}

/// The number of candidates below `upto` that candidate `id` is not behind: those to which
/// its strongest path is no weaker than theirs to it.
pub open spec fn wins_before(paths: Map<(usize, usize), u64>, id: usize, upto: nat) -> nat
    decreases upto,
{
    if upto == 0 {
        0
    } else {
        let other = (upto - 1) as usize;
        wins_before(paths, id, (upto - 1) as nat) + if other != id && count_in(paths, id, other)
            >= count_in(paths, other, id) {
            1nat
        } else {
            0nat
        }
    }
}

/// The candidates in the order of their ids, each with the number of other candidates
/// that it is not behind.
pub open spec fn counted_wins<T>(candidates: Seq<T>, paths: Map<(usize, usize), u64>) -> Seq<
    (T, u64),
> {
    Seq::new(
        candidates.len(),
        |id: int| (candidates[id], wins_before(paths, id as usize, candidates.len()) as u64),
    )
}

/// A candidate is not behind more candidates than there are others. One that is behind
/// no other is not behind all of them, and one that is behind some candidate is not behind
/// fewer.
pub proof fn lemma_wins_before(paths: Map<(usize, usize), u64>, id: usize, upto: nat)
    requires
        upto <= usize::MAX,
    ensures
        wins_before(paths, id, upto) <= upto,
        id < upto ==> wins_before(paths, id, upto) <= upto - 1,
        (forall|other: usize|
            other < upto && other != id ==> count_in(paths, id, other) >= count_in(
                paths,
                other,
                id,
            )) ==> wins_before(paths, id, upto) == if id < upto {
            upto - 1
        } else {
            upto as int
        },
        (exists|other: usize|
            other < upto && other != id && count_in(paths, id, other) < count_in(
                paths,
                other,
                id,
            )) ==> wins_before(paths, id, upto) + 2 <= upto || (id >= upto && wins_before(
            paths,
            id,
            upto,
        ) + 1 <= upto),
    decreases upto,
{
    if upto > 0 {
        lemma_wins_before(paths, id, (upto - 1) as nat);
        let last = (upto - 1) as usize;
        if exists|other: usize|
            other < upto && other != id && count_in(paths, id, other) < count_in(
                paths,
                other,
                id,
            ) {
            let other = choose|other: usize|
                other < upto && other != id && count_in(paths, id, other) < count_in(
                    paths,
                    other,
                    id,
                );
            if other != last {
                assert(other < upto - 1);
            }
        }
    }
}

/// The closure keeps a column of zeros, and weakens no path: where no candidate has a
/// link to `target`, none has a path to it at any step, and at every step each path is at
/// least as strong as the direct link.
pub proof fn lemma_paths_before(
    links: Map<(usize, usize), u64>,
    n: nat,
    way: nat,
    from: nat,
    to: nat,
    target: usize,
)
    requires
        n <= usize::MAX,
        way <= n,
        from <= n,
        to <= n,
    ensures
        forall|a: usize, b: usize| #[trigger]
            count_in(paths_before(links, n, way, from, to), a, b) >= count_in(links, a, b),
        (forall|a: usize| #[trigger] count_in(links, a, target) == 0) ==> forall|a: usize| #[trigger]
            count_in(paths_before(links, n, way, from, to), a, target) == 0,
    decreases way, from, to,
{
    let after = paths_before(links, n, way, from, to);
    if to > 0 {
        lemma_paths_before(links, n, way, from, (to - 1) as nat, target);
        let before = paths_before(links, n, way, from, (to - 1) as nat);
        assert forall|a: usize, b: usize| #[trigger]
            count_in(after, a, b) >= count_in(links, a, b) by {
            assert(count_in(before, a, b) >= count_in(links, a, b));
        }
        if forall|a: usize| #[trigger] count_in(links, a, target) == 0 {
            assert forall|a: usize| #[trigger] count_in(after, a, target) == 0 by {
                assert(count_in(before, a, target) == 0);
                assert(count_in(before, way as usize, target) == 0);
            }
        }
    } else if from > 0 {
        lemma_paths_before(links, n, way, (from - 1) as nat, n, target);
        assert(after == paths_before(links, n, way, (from - 1) as nat, n));
    } else if way > 0 {
        lemma_paths_before(links, n, (way - 1) as nat, n, 0, target);
        assert(after == paths_before(links, n, (way - 1) as nat, n, 0));
    } else {
        assert(after == links);
    }
}

/// Whether `paths` holds the strengths of the strongest walks between all pairs of
/// different candidates.
pub open spec fn all_widest(
    links: Map<(usize, usize), u64>,
    n: nat,
    paths: Map<(usize, usize), u64>,
) -> bool {
    forall|a: usize, b: usize| a < n && b < n && a != b ==> #[trigger] is_widest(links, n, paths, a, b)
}

/// A candidate with a stronger path to another than back is not behind any candidate that
/// the other is not behind.
pub proof fn lemma_ahead_carries(
    links: Map<(usize, usize), u64>,
    n: nat,
    paths: Map<(usize, usize), u64>,
    first: usize,
    second: usize,
    third: usize,
)
    requires
        all_widest(links, n, paths),
        first < n && second < n && third < n,
        first != second && second != third && first != third,
        count_in(paths, first, second) > count_in(paths, second, first),
        count_in(paths, second, third) >= count_in(paths, third, second),
    ensures
        count_in(paths, first, third) >= count_in(paths, third, first),
{
    assert(is_widest(links, n, paths, first, second));
    assert(is_widest(links, n, paths, second, first));
    assert(is_widest(links, n, paths, second, third));
    assert(is_widest(links, n, paths, third, second));
    assert(is_widest(links, n, paths, first, third));
    assert(is_widest(links, n, paths, third, first));
    crate::paths::lemma_strongest_by_way(links, n, paths, first, second, third);
    crate::paths::lemma_strongest_by_way(links, n, paths, second, third, first);
    crate::paths::lemma_strongest_by_way(links, n, paths, third, first, second);
}

/// A candidate with a stronger path to another than back is not behind more candidates
/// than the other.
pub proof fn lemma_ahead_wins_more(
    links: Map<(usize, usize), u64>,
    n: nat,
    paths: Map<(usize, usize), u64>,
    first: usize,
    second: usize,
    upto: nat,
)
    requires
        n <= usize::MAX,
        all_widest(links, n, paths),
        first < n && second < n && first != second,
        count_in(paths, first, second) > count_in(paths, second, first),
        upto <= n,
    ensures
        wins_before(paths, first, upto) >= wins_before(paths, second, upto) + if second < upto {
            1nat
        } else {
            0nat
        },
    decreases upto,
{
    if upto > 0 {
        lemma_ahead_wins_more(links, n, paths, first, second, (upto - 1) as nat);
        let other = (upto - 1) as usize;
        if other != first && other != second {
            if count_in(paths, second, other) >= count_in(paths, other, second) {
                lemma_ahead_carries(links, n, paths, first, second, other);
            }
        }
    }
}

/// A Schulze tally that counts votes in `u64`.
pub type DefaultSchulzeTally<T> = SchulzeTally<T>;

/// A Schulze tally over candidates of type `T`. It counts votes as a Condorcet tally does,
/// and ranks the candidates by the strongest paths.
pub struct SchulzeTally<T: Eq + Clone> {
    pub(crate) variant: Variant,
    pub(crate) condorcet: CondorcetTally<T>,
}

impl<T: Eq + Clone> SchulzeTally<T> {
    /// The pairwise tally that holds the candidates and the counts.
    pub open(crate) spec fn pairwise(&self) -> CondorcetTally<T> {
        self.condorcet
    }

    /// The way in which this tally measures the strength of a link.
    pub open(crate) spec fn measure(&self) -> Variant {
        self.variant
    }

    /// Whether the tally is consistent: its pairwise tally is, and it does not measure by
    /// ratio.
    pub open(crate) spec fn wf(&self) -> bool {
        &&& self.condorcet.wf()
        &&& !(self.variant is Ratio)
    }

    /// The strengths of the strongest paths between the candidates.
    pub open spec fn strongest_paths_map(&self) -> Map<(usize, usize), u64> {
        strongest(self.measure(), self.pairwise().entries(), self.pairwise().candidate_seq().len())
    }

    /// A tally for `num_winners` winners with an open set of candidates, which is empty
    /// at first. The variant is not `Ratio`: this tally counts in whole numbers.
    pub fn new(num_winners: usize, variant: Variant) -> (tally: Self)
        requires
            lawful::<T>(),
            !(variant is Ratio),
        ensures
            tally.wf(),
            tally.measure() == variant,
            tally.pairwise().candidate_seq() == Seq::<T>::empty(),
            tally.pairwise().entries() == crate::pairwise::no_entries(),
            tally.pairwise().seats() == num_winners,
            tally.pairwise().checks_votes(),
            !tally.pairwise().is_closed(),
            tally.pairwise().weight_counted() == 0,
    {
        SchulzeTally { variant, condorcet: CondorcetTally::new(num_winners) }
    }

    /// A tally for `num_winners` winners with the given candidates as its closed set. The
    /// variant is not `Ratio`: this tally counts in whole numbers.
    pub fn with_candidates(num_winners: usize, variant: Variant, candidates: Vec<T>) -> (tally:
        Self)
        requires
            lawful::<T>(),
            !(variant is Ratio),
        ensures
            tally.wf(),
            tally.measure() == variant,
            tally.pairwise().candidate_seq() == registered(Seq::empty(), candidates@),
            tally.pairwise().entries() == crate::pairwise::no_entries(),
            tally.pairwise().seats() == num_winners,
            tally.pairwise().checks_votes(),
            tally.pairwise().is_closed(),
            tally.pairwise().weight_counted() == 0,
    {
        SchulzeTally { variant, condorcet: CondorcetTally::with_candidates(num_winners, candidates) }
    }

    /// Whether a tally that counts in whole numbers can be made with the variant: with
    /// every variant but `Ratio`.
    pub fn check_types(variant: &Variant) -> (usable: bool)
        ensures
            usable == !(*variant is Ratio),
    {
        match variant {
            Variant::Ratio => false,
            _ => true,
        }
    }

    /// The same tally without the check of votes.
    pub fn unchecked(self) -> (tally: Self)
        requires
            self.wf(),
        ensures
            tally.wf(),
            tally.measure() == self.measure(),
            !tally.pairwise().checks_votes(),
            tally.pairwise().is_closed() == self.pairwise().is_closed(),
            tally.pairwise().candidate_seq() == self.pairwise().candidate_seq(),
            tally.pairwise().entries() == self.pairwise().entries(),
            tally.pairwise().seats() == self.pairwise().seats(),
            tally.pairwise().weight_counted() == self.pairwise().weight_counted(),
    {
        SchulzeTally { variant: self.variant, condorcet: self.condorcet.unchecked() }
    }

    /// Registers a candidate and returns its id; see `CondorcetTally::add_candidate`.
    pub fn add_candidate(&mut self, candidate: T) -> (id: usize)
        requires
            old(self).wf(),
        ensures
            final(self).wf(),
            final(self).measure() == old(self).measure(),
            final(self).pairwise().candidate_seq() == registered(
                old(self).pairwise().candidate_seq(),
                seq![candidate],
            ),
            id == crate::candidate::position(old(self).pairwise().candidate_seq(), candidate),
            final(self).pairwise().entries() == old(self).pairwise().entries(),
            final(self).pairwise().seats() == old(self).pairwise().seats(),
            final(self).pairwise().checks_votes() == old(self).pairwise().checks_votes(),
            final(self).pairwise().is_closed() == old(self).pairwise().is_closed(),
            final(self).pairwise().weight_counted() == old(self).pairwise().weight_counted(),
    {
        self.condorcet.add_candidate(candidate)
    }

    /// Registers candidates, in the order of the list.
    pub fn add_candidates(&mut self, candidates: Vec<T>)
        requires
            old(self).wf(),
        ensures
            final(self).wf(),
            final(self).measure() == old(self).measure(),
            final(self).pairwise().candidate_seq() == registered(
                old(self).pairwise().candidate_seq(),
                candidates@,
            ),
            final(self).pairwise().entries() == old(self).pairwise().entries(),
            final(self).pairwise().seats() == old(self).pairwise().seats(),
            final(self).pairwise().checks_votes() == old(self).pairwise().checks_votes(),
            final(self).pairwise().is_closed() == old(self).pairwise().is_closed(),
            final(self).pairwise().weight_counted() == old(self).pairwise().weight_counted(),
    {
        self.condorcet.add_candidates(candidates);
    }

    /// Counts a vote of weight 1 that lists candidates in the order of preference; see
    /// `CondorcetTally::add`.
    pub fn add(&mut self, selection: &[T]) -> (added: Result<(), TallyError>)
        requires
            old(self).wf(),
            old(self).pairwise().outcome(selection@) is Ok ==> old(self).pairwise().weight_counted()
                + 1 <= u64::MAX,
        ensures
            final(self).wf(),
            final(self).measure() == old(self).measure(),
            added == old(self).pairwise().outcome(selection@),
            added is Err ==> *final(self) == *old(self),
            added is Ok ==> final(self).pairwise().candidate_seq() == old(self).pairwise().after(
                selection@,
            ) && counts_vote(
                old(self).pairwise().entries(),
                final(self).pairwise().entries(),
                transitive_ranks(old(self).pairwise().after(selection@), selection@),
                1,
            ) && final(self).pairwise().weight_counted() == old(self).pairwise().weight_counted()
                + 1,
            final(self).pairwise().seats() == old(self).pairwise().seats(),
            final(self).pairwise().checks_votes() == old(self).pairwise().checks_votes(),
            final(self).pairwise().is_closed() == old(self).pairwise().is_closed(),
    {
        self.condorcet.add(selection)
    }

    /// Counts a vote of the given weight that lists candidates in the order of preference;
    /// see `CondorcetTally::add_weighted`.
    pub fn add_weighted(&mut self, selection: &[T], weight: u64) -> (added: Result<(), TallyError>)
        requires
            old(self).wf(),
            old(self).pairwise().outcome(selection@) is Ok ==> old(self).pairwise().weight_counted()
                + weight <= u64::MAX,
        ensures
            final(self).wf(),
            final(self).measure() == old(self).measure(),
            added == old(self).pairwise().outcome(selection@),
            added is Err ==> *final(self) == *old(self),
            added is Ok ==> final(self).pairwise().candidate_seq() == old(self).pairwise().after(
                selection@,
            ) && counts_vote(
                old(self).pairwise().entries(),
                final(self).pairwise().entries(),
                transitive_ranks(old(self).pairwise().after(selection@), selection@),
                weight,
            ) && final(self).pairwise().weight_counted() == old(self).pairwise().weight_counted()
                + weight,
            final(self).pairwise().seats() == old(self).pairwise().seats(),
            final(self).pairwise().checks_votes() == old(self).pairwise().checks_votes(),
            final(self).pairwise().is_closed() == old(self).pairwise().is_closed(),
    {
        self.condorcet.add_weighted(selection, weight)
    }

    /// Counts a vote of weight 1 that gives each of its candidates a rank; see
    /// `CondorcetTally::ranked_add`.
    pub fn ranked_add(&mut self, vote: &[(T, u32)]) -> (added: Result<(), TallyError>)
        requires
            old(self).wf(),
            old(self).pairwise().outcome(voted(vote@)) is Ok ==> old(self).pairwise().weight_counted()
                + 1 <= u64::MAX,
        ensures
            final(self).wf(),
            final(self).measure() == old(self).measure(),
            added == old(self).pairwise().outcome(voted(vote@)),
            added is Err ==> *final(self) == *old(self),
            added is Ok ==> final(self).pairwise().candidate_seq() == old(self).pairwise().after(
                voted(vote@),
            ) && counts_vote(
                old(self).pairwise().entries(),
                final(self).pairwise().entries(),
                given_ranks(old(self).pairwise().after(voted(vote@)), vote@),
                1,
            ) && final(self).pairwise().weight_counted() == old(self).pairwise().weight_counted()
                + 1,
            final(self).pairwise().seats() == old(self).pairwise().seats(),
            final(self).pairwise().checks_votes() == old(self).pairwise().checks_votes(),
            final(self).pairwise().is_closed() == old(self).pairwise().is_closed(),
    {
        self.condorcet.ranked_add(vote)
    }

    /// Counts a vote of the given weight that gives each of its candidates a rank; see
    /// `CondorcetTally::ranked_add_weighted`.
    pub fn ranked_add_weighted(&mut self, vote: &[(T, u32)], weight: u64) -> (added: Result<
        (),
        TallyError,
    >)
        requires
            old(self).wf(),
            old(self).pairwise().outcome(voted(vote@)) is Ok ==> old(self).pairwise().weight_counted()
                + weight <= u64::MAX,
        ensures
            final(self).wf(),
            final(self).measure() == old(self).measure(),
            added == old(self).pairwise().outcome(voted(vote@)),
            added is Err ==> *final(self) == *old(self),
            added is Ok ==> final(self).pairwise().candidate_seq() == old(self).pairwise().after(
                voted(vote@),
            ) && counts_vote(
                old(self).pairwise().entries(),
                final(self).pairwise().entries(),
                given_ranks(old(self).pairwise().after(voted(vote@)), vote@),
                weight,
            ) && final(self).pairwise().weight_counted() == old(self).pairwise().weight_counted()
                + weight,
            final(self).pairwise().seats() == old(self).pairwise().seats(),
            final(self).pairwise().checks_votes() == old(self).pairwise().checks_votes(),
            final(self).pairwise().is_closed() == old(self).pairwise().is_closed(),
    {
        self.condorcet.ranked_add_weighted(vote, weight)
    }

    /// The strength of the link from candidate `first` to candidate `second`.
    fn link(&self, first: usize, second: usize) -> (strength: u64)
        requires
            self.wf(),
        ensures
            strength == link_strength(self.measure(), self.pairwise().entries(), first, second),
    {
        let support = self.condorcet.running_total.count_of(first, second);
        let opposition = self.condorcet.running_total.count_of(second, first);
        if support > opposition {
            match self.variant {
                Variant::Winning => support,
                Variant::Margin => support - opposition,
                Variant::Ratio => vstd::pervasive::unreached(),
            }
        } else {
            0
        }
    }

    /// The table of the strengths of the strongest paths: an entry for each pair of
    /// different candidates.
    pub(crate) fn strongest_path_table(&self) -> (paths: PairTable)
        requires
            self.wf(),
        ensures
            pair_entries(paths) == self.strongest_paths_map(),
            self.paths_for_all_pairs(),
            self.paths_are_strongest(),
    {
        let n = self.condorcet.candidates.len();
        let ghost entries = self.pairwise().entries();
        let mut paths = PairTable::new();
        let mut first: usize = 0;
        proof {
            assert(pair_entries(paths) =~= links_before(self.variant, entries, n as nat, 0, 0));
        }
        while first < n
            invariant
                self.wf(),
                n == self.condorcet.candidates@.len(),
                entries == self.pairwise().entries(),
                0 <= first <= n,
                pair_entries(paths) == links_before(self.variant, entries, n as nat, first as nat, 0),
            decreases n - first,
        {
            let mut second: usize = 0;
            while second < n
                invariant
                    self.wf(),
                    n == self.condorcet.candidates@.len(),
                    entries == self.pairwise().entries(),
                    0 <= first < n,
                    0 <= second <= n,
                    pair_entries(paths) == links_before(
                        self.variant,
                        entries,
                        n as nat,
                        first as nat,
                        second as nat,
                    ),
                decreases n - second,
            {
                if first != second {
                    let strength = self.link(first, second);
                    paths.insert(first, second, strength);
                }
                proof {
                    assert(pair_entries(paths) =~= links_before(
                        self.variant,
                        entries,
                        n as nat,
                        first as nat,
                        (second + 1) as nat,
                    ));
                }
                second += 1;
            }
            proof {
                assert(pair_entries(paths) =~= links_before(
                    self.variant,
                    entries,
                    n as nat,
                    (first + 1) as nat,
                    0,
                ));
            }
            first += 1;
        }
        let ghost links = pair_entries(paths);
        let mut way: usize = 0;
        while way < n
            invariant
                0 <= way <= n,
                pair_entries(paths) == paths_before(links, n as nat, way as nat, 0, 0),
            decreases n - way,
        {
            let mut from: usize = 0;
            while from < n
                invariant
                    0 <= way < n,
                    0 <= from <= n,
                    pair_entries(paths) == paths_before(links, n as nat, way as nat, from as nat, 0),
                decreases n - from,
            {
                if way != from {
                    let mut to: usize = 0;
                    while to < n
                        invariant
                            0 <= way < n,
                            0 <= from < n,
                            way != from,
                            0 <= to <= n,
                            pair_entries(paths) == paths_before(
                                links,
                                n as nat,
                                way as nat,
                                from as nat,
                                to as nat,
                            ),
                        decreases n - to,
                    {
                        if way != to && from != to {
                            let first_part = paths.count_of(from, way);
                            let second_part = paths.count_of(way, to);
                            let direct = paths.count_of(from, to);
                            let least = if first_part < second_part {
                                first_part
                            } else {
                                second_part
                            };
                            let most = if direct > least {
                                direct
                            } else {
                                least
                            };
                            paths.insert(from, to, most);
                        }
                        to += 1;
                    }
                } else {
                    proof {
                        lemma_row_of_way(links, n as nat, way as nat, n as nat);
                    }
                }
                from += 1;
            }
            way += 1;
        }
        proof {
            self.lemma_paths_are_strongest();
        }
        paths
    }

    /// Whether `strongest_paths_map` has an entry for each pair of different candidates and
    /// for no other pair.
    pub open spec fn paths_for_all_pairs(&self) -> bool {
        let n = self.pairwise().candidate_seq().len();
        forall|a: usize, b: usize| #[trigger]
            self.strongest_paths_map().contains_key((a, b)) <==> a < n && b < n && a != b
    }

    /// Whether `strongest_paths_map` has, for each pair of different candidates, the
    /// strength of the strongest walk from the first to the second along the direct links.
    pub open spec fn paths_are_strongest(&self) -> bool {
        let n = self.pairwise().candidate_seq().len();
        let links = direct_links(self.measure(), self.pairwise().entries(), n);
        forall|a: usize, b: usize|
            a < n && b < n && a != b ==> #[trigger] is_widest(
                links,
                n,
                self.strongest_paths_map(),
                a,
                b,
            )
    }

    /// The strengths that the tally computes are those of the strongest walks, one for
    /// each pair of different candidates.
    pub proof fn lemma_paths_are_strongest(&self)
        requires
            self.wf(),
        ensures
            self.paths_for_all_pairs(),
            self.paths_are_strongest(),
    {
        let n = self.pairwise().candidate_seq().len();
        let entries = self.pairwise().entries();
        let links = direct_links(self.measure(), entries, n);
        lemma_paths_domain(links, n, n, 0, 0);
        assert forall|a: usize, b: usize| a < n && b < n && a != b implies #[trigger] is_widest(
            links,
            n,
            self.strongest_paths_map(),
            a,
            b,
        ) by {
            lemma_strongest_is_widest(self.measure(), entries, n, a, b);
        }
    }

    /// The strengths of the strongest paths: for each pair of different candidates, the
    /// two candidates and the strength of the strongest path from the first to the second.
    /// The pairs come in the order of the ids of the first and then of the second
    /// candidate.
    pub fn strongest_paths(&self) -> (strongest: Vec<((T, T), u64)>)
        requires
            self.wf(),
        ensures
            strongest@ == totals_before(
                self.pairwise().candidate_seq(),
                self.strongest_paths_map(),
                self.pairwise().candidate_seq().len(),
                0,
            ),
            self.paths_for_all_pairs(),
            self.paths_are_strongest(),
    {
        let paths = self.strongest_path_table();
        let n = self.condorcet.candidates.len();
        let mut strongest: Vec<((T, T), u64)> = Vec::new();
        let mut first: usize = 0;
        while first < n
            invariant
                self.wf(),
                n == self.condorcet.candidates@.len(),
                0 <= first <= n,
                strongest@ == totals_before(
                    self.condorcet.candidates@,
                    pair_entries(paths),
                    first as nat,
                    0,
                ),
            decreases n - first,
        {
            let mut second: usize = 0;
            while second < n
                invariant
                    self.wf(),
                    n == self.condorcet.candidates@.len(),
                    0 <= first < n,
                    0 <= second <= n,
                    strongest@ == totals_before(
                        self.condorcet.candidates@,
                        pair_entries(paths),
                        first as nat,
                        second as nat,
                    ),
                decreases n - second,
            {
                match paths.get(first, second) {
                    Some(strength) => {
                        let one = copy_candidate(&self.condorcet.candidates[first]);
                        let other = copy_candidate(&self.condorcet.candidates[second]);
                        strongest.push(((one, other), strength));
                    },
                    None => {},
                }
                second += 1;
            }
            first += 1;
        }
        strongest
    }

    /// The candidates in the order of their ids, each with the number of other candidates
    /// that it is not behind: those to which its strongest path is no weaker than theirs
    /// to it.
    pub open spec fn wins(&self) -> Seq<(T, u64)> {
        counted_wins(self.pairwise().candidate_seq(), self.strongest_paths_map())
    }

    /// The ranking of all candidates: by the number of candidates that each is not behind,
    /// the largest number first; candidates with equal numbers are tied.
    pub open spec fn ranking(&self) -> Seq<(T, usize)> {
        crate::result::pairs_of(
            crate::result::ranked_by_count(crate::sorting::stable_sort(self.wins())),
        )
    }

    /// Counts for each candidate the other candidates that it is not behind.
    pub fn get_counted(&self) -> (counted: CountedCandidates<T>)
        requires
            self.wf(),
        ensures
            counted.0@ == self.wins(),
    {
        let paths = self.strongest_path_table();
        let n = self.condorcet.candidates.len();
        let mut counted = CountedCandidates::<T>::new();
        let mut id: usize = 0;
        while id < n
            invariant
                self.wf(),
                n == self.condorcet.candidates@.len(),
                0 <= id <= n,
                pair_entries(paths) == self.strongest_paths_map(),
                counted.0@ == self.wins().take(id as int),
            decreases n - id,
        {
            let mut wins: u64 = 0;
            let mut other: usize = 0;
            while other < n
                invariant
                    0 <= id < n,
                    0 <= other <= n,
                    wins == wins_before(pair_entries(paths), id, other as nat),
                    wins <= other,
                decreases n - other,
            {
                if other != id && paths.count_of(id, other) >= paths.count_of(other, id) {
                    wins += 1;
                }
                other += 1;
            }
            counted.push(copy_candidate(&self.condorcet.candidates[id]), wins);
            proof {
                assert(counted.0@ =~= self.wins().take(id + 1));
            }
            id += 1;
        }
        proof {
            assert(self.wins().take(n as int) =~= self.wins());
        }
        counted
    }

    /// Ranks all candidates by the strongest paths: a candidate stands before another
    /// where it is not behind more candidates, and candidates that are not behind equally
    /// many are tied. The ranking is computed anew on each call, and is the same as long
    /// as no vote and no candidate is added.
    pub fn ranked(&self) -> (ranking: Vec<(T, usize)>)
        requires
            self.wf(),
        ensures
            ranking@ == self.ranking(),
            ranking@.len() == self.pairwise().candidate_seq().len(),
            crate::candidate::firsts(ranking@).no_duplicates(),
            crate::result::ranks_rise(ranking@),
            crate::result::contiguous_ranks(
                crate::result::ranks_of(ranking@),
                self.pairwise().candidate_seq().len(),
            ),
            forall|id: usize| #[trigger]
                self.pairwise().beats_all(id) ==> crate::condorcet::alone_first(
                    ranking@,
                    self.pairwise().candidate_seq()[id as int],
                ),
            forall|first: usize, second: usize| #[trigger]
                self.is_ahead(first, second) ==> crate::result::ranked_ahead(
                    ranking@,
                    self.pairwise().candidate_seq()[first as int],
                    self.pairwise().candidate_seq()[second as int],
                ),
    {
        let winners = self.get_counted().into_ranked(0);
        let ranking = crate::result::into_pairs(winners.into_vec());
        proof {
            let sorted = crate::sorting::stable_sort(self.wins());
            let all = crate::result::ranked_by_count(sorted);
            crate::sorting::lemma_stable_sort(self.wins());
            assert(all.take(all.len() as int) =~= all);
            crate::result::lemma_dense_ranks_fill(sorted);
            self.lemma_wins_name_once();
            crate::result::lemma_ranking_names_once(self.wins());
            assert forall|i: int, j: int| 0 <= i <= j < ranking@.len() implies ranking@[i].1
                <= ranking@[j].1 by {
                crate::result::lemma_dense_rank(sorted, j);
                crate::result::lemma_dense_rank(sorted, i);
            }
            assert(crate::result::ranks_fill(
                crate::result::ranks_of(ranking@),
                if sorted.len() == 0 {
                    0
                } else {
                    crate::result::dense_rank(sorted, sorted.len() - 1) + 1
                },
            ));
            assert forall|id: usize| #[trigger] self.pairwise().beats_all(id) implies crate::condorcet::alone_first(
                ranking@,
                self.pairwise().candidate_seq()[id as int],
            ) by {
                self.lemma_condorcet_winner_is_alone_first(id);
            }
            assert forall|first: usize, second: usize| #[trigger]
                self.is_ahead(first, second) implies crate::result::ranked_ahead(
                ranking@,
                self.pairwise().candidate_seq()[first as int],
                self.pairwise().candidate_seq()[second as int],
            ) by {
                self.lemma_stronger_path_ranks_ahead(first, second);
            }
        }
        ranking
    }

    /// Whether candidate `first` has a stronger path to candidate `second` than `second`
    /// has to `first`.
    pub open spec fn is_ahead(&self, first: usize, second: usize) -> bool {
        &&& first < self.pairwise().candidate_seq().len()
        &&& second < self.pairwise().candidate_seq().len()
        &&& count_in(self.strongest_paths_map(), first, second) > count_in(
            self.strongest_paths_map(),
            second,
            first,
        )
    }

    /// The ranking of a tally depends on its candidates, its counts and its variant only:
    /// two tallies that agree in these have the same strongest paths and the same ranking,
    /// and so has one tally as long as no candidate and no vote is added.
    pub proof fn lemma_ranking_follows_counts(&self, other: &SchulzeTally<T>)
        requires
            self.measure() == other.measure(),
            self.pairwise().candidate_seq() == other.pairwise().candidate_seq(),
            self.pairwise().entries() == other.pairwise().entries(),
        ensures
            self.strongest_paths_map() == other.strongest_paths_map(),
            self.wins() == other.wins(),
            self.ranking() == other.ranking(),
    {
    }

    /// The list of the candidates with their wins names each candidate once.
    pub proof fn lemma_wins_name_once(&self)
        requires
            self.wf(),
        ensures
            crate::candidate::distinct(crate::candidate::firsts(self.wins())),
    {
        let names = crate::candidate::firsts(self.wins());
        assert(names =~= self.pairwise().candidate_seq());
    }

    /// A candidate with a stronger path to another candidate than back is ranked ahead of
    /// it.
    pub proof fn lemma_stronger_path_ranks_ahead(&self, first: usize, second: usize)
        requires
            self.wf(),
            self.is_ahead(first, second),
        ensures
            crate::result::ranked_ahead(
                self.ranking(),
                self.pairwise().candidate_seq()[first as int],
                self.pairwise().candidate_seq()[second as int],
            ),
    {
        let candidates = self.pairwise().candidate_seq();
        let n = candidates.len();
        let links = direct_links(self.measure(), self.pairwise().entries(), n);
        let paths = self.strongest_paths_map();
        self.lemma_paths_are_strongest();
        assert(all_widest(links, n, paths)) by {
            assert forall|a: usize, b: usize| a < n && b < n && a != b implies #[trigger] is_widest(
                links,
                n,
                paths,
                a,
                b,
            ) by {
                lemma_strongest_is_widest(self.measure(), self.pairwise().entries(), n, a, b);
            }
        }
        lemma_ahead_wins_more(links, n, paths, first, second, n);
        lemma_wins_before(paths, first, n);
        lemma_wins_before(paths, second, n);
        let wins = self.wins();
        assert(wins[first as int] == (candidates[first as int], wins_before(paths, first, n) as u64));
        assert(wins[second as int] == (
            candidates[second as int],
            wins_before(paths, second, n) as u64,
        ));
        crate::result::lemma_larger_count_ranks_ahead(
            wins,
            wins[first as int],
            wins[second as int],
        );
    }

    /// A candidate that beats every other candidate is alone at rank 0.
    pub proof fn lemma_condorcet_winner_is_alone_first(&self, id: usize)
        requires
            self.wf(),
            self.pairwise().beats_all(id),
        ensures
            crate::condorcet::alone_first(
                self.ranking(),
                self.pairwise().candidate_seq()[id as int],
            ),
    {
        let candidates = self.pairwise().candidate_seq();
        let n = candidates.len();
        let entries = self.pairwise().entries();
        let links = direct_links(self.measure(), entries, n);
        let paths = self.strongest_paths_map();
        let wins = self.wins();
        let sorted = crate::sorting::stable_sort(wins);
        let ranking = self.ranking();
        let winner = candidates[id as int];
        assert forall|a: usize| count_in(links, a, id) == 0 by {
            if a < n && a != id {
                assert(self.pairwise().beats(id, a));
            }
        }
        lemma_paths_before(links, n, n, 0, 0, id);
        assert forall|other: usize| other < n && other != id implies count_in(paths, id, other)
            > count_in(paths, other, id) by {
            assert(self.pairwise().beats(id, other));
            assert(links.contains_key((id, other)));
            assert(count_in(links, id, other) > 0);
        }
        lemma_wins_before(paths, id, n);
        assert(wins[id as int] == (winner, (n - 1) as u64));
        assert forall|other: int| 0 <= other < n && other != id implies (#[trigger] wins[other]).1
            + 1 < n by {
            lemma_wins_before(paths, other as usize, n);
            assert(count_in(paths, other as usize, id) < count_in(paths, id, other as usize));
        }
        crate::sorting::lemma_stable_sort(wins);
        assert(wins.contains((winner, (n - 1) as u64)));
        crate::sorting::lemma_stable_sort_contains(wins, (winner, (n - 1) as u64));
        assert(sorted.contains((winner, (n - 1) as u64)));
        let at = choose|at: int| 0 <= at < sorted.len() && sorted[at] == (winner, (n - 1) as u64);
        assert forall|k: int| 0 <= k < sorted.len() && (#[trigger] sorted[k]).1 + 1
            == n implies sorted[k] == (winner, (n - 1) as u64) by {
            assert(sorted.contains(sorted[k]));
            crate::sorting::lemma_stable_sort_contains(wins, sorted[k]);
            assert(wins.contains(sorted[k]));
            let i = choose|i: int| 0 <= i < wins.len() && wins[i] == sorted[k];
            if i != id {
                assert(wins[i].1 + 1 < n);
            }
        }
        assert(sorted[0].1 + 1 == n) by {
            assert(crate::sorting::Keyed::sort_key(&sorted[0]) <= crate::sorting::Keyed::sort_key(
                &sorted[at],
            ));
            assert(sorted.contains(sorted[0]));
            crate::sorting::lemma_stable_sort_contains(wins, sorted[0]);
            assert(wins.contains(sorted[0]));
            let i = choose|i: int| 0 <= i < wins.len() && wins[i] == sorted[0];
            lemma_wins_before(paths, i as usize, n);
        }
        assert(ranking[0] == (winner, 0usize));
        assert forall|m: int| 0 <= m < ranking.len() && (#[trigger] ranking[m]).1
            == 0 implies ranking[m].0 == winner by {
            crate::result::lemma_dense_rank(sorted, m);
            crate::result::lemma_dense_rank_zero(sorted, m);
        }
    }

    /// The winners: the candidates of the ranking that fill the seats asked for, with
    /// every candidate tied with the last of them. With 0 seats asked for, all candidates.
    /// The winners are a start of the ranking, so what holds of the ranking holds of them:
    /// no candidate occurs twice, the ranks rise without gaps, a candidate that beats every
    /// other is alone at rank 0, and a candidate with a stronger path to a winner than back
    /// is a winner ahead of it.
    pub fn winners(&self) -> (winners: RankedWinners<T>)
        requires
            self.wf(),
        ensures
            winners.num_winners == self.pairwise().seats(),
            winners.winners@ == crate::result::ranked_by_count(
                crate::sorting::stable_sort(self.wins()),
            ).take(
                crate::result::winners_cut(
                    crate::result::ranked_by_count(crate::sorting::stable_sort(self.wins())),
                    self.pairwise().seats(),
                ),
            ),
            crate::result::pairs_of(winners.winners@) == self.ranking().take(
                winners.winners@.len() as int,
            ),
            self.pairwise().candidate_seq().len() > 0 ==> winners.winners@.len() > 0,
            crate::candidate::firsts(crate::result::pairs_of(winners.winners@)).no_duplicates(),
            crate::result::ranks_ascend(winners.winners@),
            crate::result::contiguous_ranks(
                crate::result::ranks_in(winners.winners@),
                self.pairwise().candidate_seq().len(),
            ),
            forall|id: usize| #[trigger]
                self.pairwise().beats_all(id) ==> crate::condorcet::alone_first(
                    crate::result::pairs_of(winners.winners@),
                    self.pairwise().candidate_seq()[id as int],
                ),
            forall|first: usize, second: usize| #[trigger]
                self.is_ahead(first, second) && crate::candidate::firsts(
                    crate::result::pairs_of(winners.winners@),
                ).contains(self.pairwise().candidate_seq()[second as int])
                    ==> crate::result::ranked_ahead(
                    crate::result::pairs_of(winners.winners@),
                    self.pairwise().candidate_seq()[first as int],
                    self.pairwise().candidate_seq()[second as int],
                ),
    {
        let winners = self.get_counted().into_ranked(self.condorcet.num_winners);
        proof {
            let sorted = crate::sorting::stable_sort(self.wins());
            let all = crate::result::ranked_by_count(sorted);
            let pairs = self.ranking();
            let seats = self.condorcet.num_winners;
            let cut = crate::result::winners_cut(all, seats);
            crate::sorting::lemma_stable_sort(self.wins());
            crate::result::lemma_dense_ranks_fill(sorted);
            assert(crate::result::ranks_in(all) =~= crate::result::ranks_of(pairs));
            assert(crate::result::ranks_fill(
                crate::result::ranks_in(all),
                if sorted.len() == 0 {
                    0
                } else {
                    crate::result::dense_rank(sorted, sorted.len() - 1) + 1
                },
            ));
            assert(crate::result::ranks_ascend(all)) by {
                assert forall|i: int, j: int| 0 <= i <= j < all.len() implies all[i].rank
                    <= all[j].rank by {
                    crate::result::lemma_dense_rank(sorted, j);
                    crate::result::lemma_dense_rank(sorted, i);
                }
            }
            crate::result::lemma_winners_are_closed_start(all, seats);
            crate::result::lemma_start_has_no_gaps(all, cut, self.condorcet.candidates@.len());
            self.lemma_wins_name_once();
            crate::result::lemma_ranking_names_once(self.wins());
            crate::result::lemma_start_names_once(pairs, cut);
            let start = pairs.take(cut);
            assert forall|id: usize| #[trigger]
                self.pairwise().beats_all(id) implies crate::condorcet::alone_first(
                start,
                self.pairwise().candidate_seq()[id as int],
            ) by {
                self.lemma_condorcet_winner_is_alone_first(id);
                crate::result::lemma_start_keeps_first(
                    pairs,
                    cut,
                    self.pairwise().candidate_seq()[id as int],
                );
                assert forall|m: int| 0 <= m < start.len() && (#[trigger] start[m]).1
                    == 0 implies start[m].0 == self.pairwise().candidate_seq()[id as int] by {
                    assert(start[m] == pairs[m]);
                }
            }
            assert forall|first: usize, second: usize| #[trigger]
                self.is_ahead(first, second) && crate::candidate::firsts(start).contains(
                    self.pairwise().candidate_seq()[second as int],
                ) implies crate::result::ranked_ahead(
                start,
                self.pairwise().candidate_seq()[first as int],
                self.pairwise().candidate_seq()[second as int],
            ) by {
                self.lemma_stronger_path_ranks_ahead(first, second);
                crate::result::lemma_start_keeps_order(
                    pairs,
                    cut,
                    self.pairwise().candidate_seq()[first as int],
                    self.pairwise().candidate_seq()[second as int],
                );
            }
        }
        winners
    }

    /// All registered candidates, in the order of their ids.
    pub fn candidates(&self) -> (list: Vec<T>)
        requires
            self.wf(),
        ensures
            list@ == self.pairwise().candidate_seq(),
    {
        self.condorcet.candidates()
    }

    /// The weight of all votes counted so far.
    pub fn total_weight(&self) -> (weight: u64)
        ensures
            weight == self.pairwise().weight_counted(),
    {
        self.condorcet.total_weight()
    }

    /// The pairwise counts; see `CondorcetTally::totals`.
    pub fn totals(&self) -> (totals: Vec<((T, T), u64)>)
        requires
            self.wf(),
        ensures
            totals@ == totals_before(
                self.pairwise().candidate_seq(),
                self.pairwise().entries(),
                self.pairwise().candidate_seq().len(),
                0,
            ),
    {
        self.condorcet.totals()
    }

    /// Builds the preference graph; see `CondorcetTally::build_graph`.
    pub fn build_graph(&self) -> (graph: PreferenceGraph<T>)
        requires
            self.wf(),
        ensures
            graph.nodes@ == self.pairwise().candidate_seq(),
            graph.edges@ == self.pairwise().graph_edges(),
    {
        self.condorcet.build_graph()
    }
}

} // verus!
