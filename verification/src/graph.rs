//! The preference graph of a tally, and its strongly connected components in the order
//! that ranks them.

use crate::candidate::firsts;
use crate::pairwise::count_in;
use crate::result::{contiguous_ranks, ranks_fill, ranks_of};
use vstd::prelude::*;

verus! {

/// An edge of a preference graph. It leads from one candidate to another that does not
/// lose against it.
#[derive(Debug, Clone, Copy, PartialEq, Eq, Structural)]
pub struct PreferenceEdge {
    /// The id of the candidate that the edge leaves.
    pub source: usize,
    /// The id of the candidate that the edge leads to.
    pub target: usize,
    /// The weight of the votes that prefer `target` to `source`.
    pub support: u64,
    /// The weight of the votes that prefer `source` to `target`.
    pub opposition: u64,
}

impl PreferenceEdge {
    /// The two counts of the edge: the votes for its target, then those for its source.
    pub fn weight(&self) -> (weight: (u64, u64))
        ensures
            weight == (self.support, self.opposition),
    {
        (self.support, self.opposition)
    }
}

/// The edge that the entry of a pair gives: where the table counts the votes that prefer
/// `winner` to `loser`, and these are no fewer than the votes that prefer `loser` to
/// `winner`, an edge from `loser` to `winner` with both counts.
pub open spec fn edge_for(entries: Map<(usize, usize), u64>, winner: usize, loser: usize) -> Option<
    PreferenceEdge,
> {
    if entries.contains_key((winner, loser)) && count_in(entries, winner, loser) >= count_in(
        entries,
        loser,
        winner,
    ) {
        Some(
            PreferenceEdge {
                source: loser,
                target: winner,
                support: entries[(winner, loser)],
                opposition: count_in(entries, loser, winner) as u64,
            },
        )
    } else {
        None
    }
}

/// The edges that the entries before the pair (`winner`, `loser`) give, taken pair by pair
/// in the order of the first id and then of the second, with ids below `nodes`.
pub open spec fn edges_before(
    entries: Map<(usize, usize), u64>,
    nodes: nat,
    winner: nat,
    loser: nat,
) -> Seq<PreferenceEdge>
    decreases winner, loser,
{
    if loser > 0 {
        let front = edges_before(entries, nodes, winner, (loser - 1) as nat);
        match edge_for(entries, winner as usize, (loser - 1) as usize) {
            Some(edge) => front.push(edge),
            None => front,
        }
    } else if winner > 0 {
        edges_before(entries, nodes, (winner - 1) as nat, nodes)
    } else {
        Seq::empty()
    }
}

/// The edges of the preference graph over the candidates `0..nodes`: one for each entry
/// whose count is not below the count of the opposite pair.
pub open spec fn preference_edges(entries: Map<(usize, usize), u64>, nodes: nat) -> Seq<
    PreferenceEdge,
> {
    edges_before(entries, nodes, nodes, 0)
}

/// The edges before a pair are those of the entries before it, and no others.
pub proof fn lemma_edges_before(
    entries: Map<(usize, usize), u64>,
    nodes: nat,
    winner: nat,
    loser: nat,
)
    requires
        nodes <= usize::MAX,
        winner < nodes && loser <= nodes || winner == nodes && loser == 0,
    ensures
        forall|source: usize, target: usize|
            has_edge(edges_before(entries, nodes, winner, loser), source, target) <==> (source
                < nodes && (target < winner || target == winner && source < loser) && edge_for(
                entries,
                target,
                source,
            ).is_some()),
        forall|k: int|
            0 <= k < edges_before(entries, nodes, winner, loser).len() ==> edge_for(
                entries,
                (#[trigger] edges_before(entries, nodes, winner, loser)[k]).target,
                edges_before(entries, nodes, winner, loser)[k].source,
            ) == Some(edges_before(entries, nodes, winner, loser)[k]),
        edges_within(edges_before(entries, nodes, winner, loser), nodes),
    decreases winner, loser,
{
    let edges = edges_before(entries, nodes, winner, loser);
    if loser > 0 {
        let front = edges_before(entries, nodes, winner, (loser - 1) as nat);
        lemma_edges_before(entries, nodes, winner, (loser - 1) as nat);
        let added = edge_for(entries, winner as usize, (loser - 1) as usize);
        match added {
            Some(edge) => {
                assert(edges == front.push(edge));
                assert forall|source: usize, target: usize|
                    has_edge(edges, source, target) <==> (source < nodes && (target < winner
                        || target == winner && source < loser) && edge_for(
                        entries,
                        target,
                        source,
                    ).is_some()) by {
                    if has_edge(edges, source, target) {
                        let k = choose|k: int|
                            0 <= k < edges.len() && (#[trigger] edges[k]).source == source
                                && edges[k].target == target;
                        if k < front.len() {
                            assert(front[k] == edges[k]);
                            assert(has_edge(front, source, target));
                        }
                    }
                    if source < nodes && (target < winner || target == winner && source < loser)
                        && edge_for(entries, target, source).is_some() {
                        if target == winner && source == loser - 1 {
                            assert(edges[front.len() as int] == edge);
                        } else {
                            assert(has_edge(front, source, target));
                            let k = choose|k: int|
                                0 <= k < front.len() && (#[trigger] front[k]).source == source
                                    && front[k].target == target;
                            assert(edges[k] == front[k]);
                        }
                    }
                }
                assert forall|k: int| 0 <= k < edges.len() implies edge_for(
                    entries,
                    (#[trigger] edges[k]).target,
                    edges[k].source,
                ) == Some(edges[k]) by {
                    if k < front.len() {
                        assert(front[k] == edges[k]);
                    }
                }
                assert forall|k: int| 0 <= k < edges.len() implies (#[trigger] edges[k]).source
                    < nodes && edges[k].target < nodes by {
                    if k < front.len() {
                        assert(front[k] == edges[k]);
                    }
                }
            },
            None => {
                assert(edges == front);
            },
        }
    } else if winner > 0 {
        lemma_edges_before(entries, nodes, (winner - 1) as nat, nodes);
    } else {
        assert(edges.len() == 0);
    }
}

/// Whether an edge leads from `source` to `target`.
pub open spec fn has_edge(edges: Seq<PreferenceEdge>, source: usize, target: usize) -> bool {
    exists|k: int|
        0 <= k < edges.len() && (#[trigger] edges[k]).source == source && edges[k].target
            == target
}

/// Whether `path` is a walk along the edges: a node, or nodes of which each has an edge to
/// the next.
pub open spec fn is_walk(edges: Seq<PreferenceEdge>, path: Seq<usize>) -> bool {
    &&& path.len() >= 1
    &&& forall|k: int|
        0 <= k < path.len() - 1 ==> has_edge(edges, #[trigger] path[k], path[k + 1])
}

/// Whether a walk leads from `source` to `target`.
pub open spec fn reaches(edges: Seq<PreferenceEdge>, source: usize, target: usize) -> bool {
    exists|path: Seq<usize>|
        #[trigger] is_walk(edges, path) && path.first() == source && path.last() == target
}

/// Whether `node` is in the component at position `c`.
pub open spec fn in_component(sets: Seq<Seq<usize>>, c: int, node: usize) -> bool {
    0 <= c < sets.len() && sets[c].contains(node)
}

/// Whether some component holds `node`.
pub open spec fn placed(sets: Seq<Seq<usize>>, node: usize) -> bool {
    exists|c: int| in_component(sets, c, node)
}

/// Whether `sets` are the strongly connected components of the graph with nodes
/// `0..nodes` and the given edges, each component before those that have an edge into it.
pub open spec fn is_scc_order(nodes: nat, edges: Seq<PreferenceEdge>, sets: Seq<Seq<usize>>) -> bool {
    &&& forall|c: int, v: usize| #[trigger] in_component(sets, c, v) ==> v < nodes
    &&& forall|v: usize| v < nodes ==> #[trigger] placed(sets, v)
    &&& forall|c: int| 0 <= c < sets.len() ==> (#[trigger] sets[c]).len() > 0
    &&& forall|c: int| 0 <= c < sets.len() ==> (#[trigger] sets[c]).no_duplicates()
    &&& forall|c1: int, c2: int, u: usize, v: usize|
        #[trigger] in_component(sets, c1, u) && #[trigger] in_component(sets, c2, v) ==> (c1
            == c2 <==> reaches(edges, u, v) && reaches(edges, v, u))
    &&& forall|c1: int, c2: int, u: usize, v: usize|
        #[trigger] in_component(sets, c1, u) && #[trigger] in_component(sets, c2, v)
            && has_edge(edges, u, v) ==> c2 <= c1
}

/// The nodes of one component, each with the component's rank.
pub open spec fn with_rank(ids: Seq<usize>, rank: usize) -> Seq<(usize, usize)> {
    Seq::new(ids.len(), |k: int| (ids[k], rank))
}

/// The nodes of all components, in the components' order, each with the position of its
/// component as its rank.
pub open spec fn ranked_ids(sets: Seq<Seq<usize>>) -> Seq<(usize, usize)>
    decreases sets.len(),
{
    if sets.len() == 0 {
        Seq::empty()
    } else {
        ranked_ids(sets.drop_last()) + with_rank(sets.last(), (sets.len() - 1) as usize)
    }
}

/// Every entry of `ranked_ids` is a node with the position of a component that holds it,
/// every node of a component has such an entry, and the ranks never decrease.
pub proof fn lemma_ranked_ids(sets: Seq<Seq<usize>>)
    requires
        sets.len() <= usize::MAX,
    ensures
        forall|m: int|
            0 <= m < ranked_ids(sets).len() ==> in_component(
                sets,
                (#[trigger] ranked_ids(sets)[m]).1 as int,
                ranked_ids(sets)[m].0,
            ),
        forall|c: int, v: usize| #[trigger]
            in_component(sets, c, v) ==> ranked_ids(sets).contains((v, c as usize)),
        forall|m1: int, m2: int|
            0 <= m1 <= m2 < ranked_ids(sets).len() ==> ranked_ids(sets)[m1].1 <= ranked_ids(
                sets,
            )[m2].1,
    decreases sets.len(),
{
    if sets.len() > 0 {
        let init = sets.drop_last();
        let front = ranked_ids(init);
        let rank = (sets.len() - 1) as usize;
        let back = with_rank(sets.last(), rank);
        let all = ranked_ids(sets);
        lemma_ranked_ids(init);
        assert(all == front + back);
        assert forall|m: int| 0 <= m < all.len() implies in_component(
            sets,
            (#[trigger] all[m]).1 as int,
            all[m].0,
        ) by {
            if m < front.len() {
                assert(all[m] == front[m]);
                assert(in_component(init, front[m].1 as int, front[m].0));
                assert(init[front[m].1 as int] == sets[front[m].1 as int]);
            } else {
                let k = m - front.len();
                assert(all[m] == back[k]);
                assert(sets[sets.len() - 1][k] == all[m].0);
            }
        }
        assert forall|c: int, v: usize| #[trigger] in_component(sets, c, v) implies all.contains(
            (v, c as usize),
        ) by {
            if c < init.len() {
                assert(init[c] == sets[c]);
                assert(in_component(init, c, v));
                let m = choose|m: int| 0 <= m < front.len() && front[m] == (v, c as usize);
                assert(all[m] == front[m]);
            } else {
                let k = choose|k: int| 0 <= k < sets[c].len() && sets[c][k] == v;
                let m = front.len() + k;
                assert(all[m] == back[k]);
            }
        }
        assert forall|m1: int, m2: int| 0 <= m1 <= m2 < all.len() implies all[m1].1
            <= all[m2].1 by {
            if m2 < front.len() {
                assert(all[m1] == front[m1]);
                assert(all[m2] == front[m2]);
            } else if m1 < front.len() {
                assert(all[m1] == front[m1]);
                assert(in_component(init, front[m1].1 as int, front[m1].0));
                assert(all[m2] == back[m2 - front.len()]);
            } else {
                assert(all[m1] == back[m1 - front.len()]);
                assert(all[m2] == back[m2 - front.len()]);
            }
        }
    }
}

/// A list of distinct numbers below `bound` has at most `bound` entries.
pub proof fn lemma_distinct_below(list: Seq<int>, bound: nat)
    requires
        list.no_duplicates(),
        forall|k: int| 0 <= k < list.len() ==> 0 <= #[trigger] list[k] < bound,
    ensures
        list.len() <= bound,
{
    list.unique_seq_to_set();
    vstd::set_lib::lemma_int_range(0, bound as int);
    assert(list.to_set().subset_of(vstd::set_lib::set_int_range(0, bound as int))) by {
        assert forall|v: int| list.to_set().contains(v) implies vstd::set_lib::set_int_range(
            0,
            bound as int,
        ).contains(v) by {
            let k = choose|k: int| 0 <= k < list.len() && list[k] == v;
            assert(0 <= list[k] < bound);
        }
    }
    vstd::set_lib::lemma_len_subset(
        list.to_set(),
        vstd::set_lib::set_int_range(0, bound as int),
    );
}

/// A node is in one component only, and there are no more components than nodes.
pub proof fn lemma_components_partition(
    nodes: nat,
    edges: Seq<PreferenceEdge>,
    sets: Seq<Seq<usize>>,
)
    requires
        is_scc_order(nodes, edges, sets),
    ensures
        forall|c1: int, c2: int, v: usize|
            #[trigger] in_component(sets, c1, v) && #[trigger] in_component(sets, c2, v) ==> c1
                == c2,
        sets.len() <= nodes,
{
    assert forall|c1: int, c2: int, v: usize|
        #[trigger] in_component(sets, c1, v) && #[trigger] in_component(
            sets,
            c2,
            v,
        ) implies c1 == c2 by {
        let path = seq![v];
        assert(is_walk(edges, path));
        assert(path.first() == v && path.last() == v);
        assert(reaches(edges, v, v));
    }
    let firsts = Seq::new(sets.len(), |c: int| sets[c][0] as int);
    assert forall|c: int| 0 <= c < sets.len() implies in_component(sets, c, #[trigger] sets[c][0]) by {
        assert(sets[c].len() > 0);
    }
    assert forall|k: int| 0 <= k < firsts.len() implies 0 <= #[trigger] firsts[k] < nodes by {
        assert(in_component(sets, k, sets[k][0]));
    }
    assert forall|i: int, j: int| 0 <= i < firsts.len() && 0 <= j < firsts.len() && i
        != j implies firsts[i] != firsts[j] by {
        assert(in_component(sets, i, sets[i][0]));
        assert(in_component(sets, j, sets[j][0]));
    }
    lemma_distinct_below(firsts, nodes);
}

/// A walk from a node without an edge to another node never leaves that node.
pub proof fn lemma_walk_stays(edges: Seq<PreferenceEdge>, path: Seq<usize>, k: int)
    requires
        is_walk(edges, path),
        forall|y: usize| y != path.first() ==> !has_edge(edges, path.first(), y),
        0 <= k < path.len(),
    ensures
        path[k] == path.first(),
    decreases k,
{
    if k > 0 {
        lemma_walk_stays(edges, path, k - 1);
        assert(has_edge(edges, path[k - 1], path[k - 1 + 1]));
    }
}

/// The ranks of the components' nodes are exactly those below the number of components,
/// which does not exceed the number of nodes; and every node has one entry or more.
pub proof fn lemma_ranks_are_contiguous(
    nodes: nat,
    edges: Seq<PreferenceEdge>,
    sets: Seq<Seq<usize>>,
)
    requires
        is_scc_order(nodes, edges, sets),
        nodes <= usize::MAX,
    ensures
        contiguous_ranks(ranks_of(ranked_ids(sets)), nodes),
        forall|m: int|
            0 <= m < ranked_ids(sets).len() ==> (#[trigger] ranked_ids(sets)[m]).0 < nodes,
        forall|v: usize| v < nodes ==> #[trigger] firsts(ranked_ids(sets)).contains(v),
{
    lemma_components_partition(nodes, edges, sets);
    lemma_ranked_ids(sets);
    let ranked = ranked_ids(sets);
    let ranks = ranks_of(ranked);
    assert forall|m: int| 0 <= m < ranked.len() implies (#[trigger] ranked[m]).0 < nodes by {
        assert(in_component(sets, ranked[m].1 as int, ranked[m].0));
    }
    assert forall|rank: usize| #[trigger] ranks.contains(rank) <==> rank < sets.len() by {
        if ranks.contains(rank) {
            let m = choose|m: int| 0 <= m < ranks.len() && ranks[m] == rank;
            assert(in_component(sets, ranked[m].1 as int, ranked[m].0));
        }
        if rank < sets.len() {
            assert(sets[rank as int].len() > 0);
            let v = sets[rank as int][0];
            assert(in_component(sets, rank as int, v));
            assert(ranked.contains((v, rank)));
            let other = choose|other: int|
                0 <= other < ranked.len() && ranked[other] == (v, rank);
            assert(ranks[other] == rank);
        }
    }
    assert(ranks_fill(ranks, sets.len()));
    assert forall|v: usize| v < nodes implies #[trigger] firsts(ranked).contains(v) by {
        assert(placed(sets, v));
        let c = choose|c: int| in_component(sets, c, v);
        assert(ranked.contains((v, c as usize)));
        let m = choose|m: int| 0 <= m < ranked.len() && ranked[m] == (v, c as usize);
        assert(firsts(ranked)[m] == v);
    }
}

/// Whether no set holds a node twice, and no two sets hold the same node.
pub open spec fn sets_apart(sets: Seq<Seq<usize>>) -> bool {
    &&& forall|c: int| 0 <= c < sets.len() ==> (#[trigger] sets[c]).no_duplicates()
    &&& forall|c1: int, c2: int, v: usize|
        #[trigger] in_component(sets, c1, v) && #[trigger] in_component(sets, c2, v) ==> c1 == c2
}

/// Where the sets are apart, `ranked_ids` holds no node twice.
pub proof fn lemma_ranked_ids_once(sets: Seq<Seq<usize>>)
    requires
        sets_apart(sets),
        sets.len() <= usize::MAX,
    ensures
        firsts(ranked_ids(sets)).no_duplicates(),
    decreases sets.len(),
{
    if sets.len() > 0 {
        let init = sets.drop_last();
        let rank = (sets.len() - 1) as usize;
        assert(sets_apart(init)) by {
            assert forall|c: int| 0 <= c < init.len() implies (#[trigger] init[c]).no_duplicates() by {
                assert(init[c] == sets[c]);
            }
            assert forall|c1: int, c2: int, v: usize|
                #[trigger] in_component(init, c1, v) && #[trigger] in_component(
                    init,
                    c2,
                    v,
                ) implies c1 == c2 by {
                assert(init[c1] == sets[c1]);
                assert(init[c2] == sets[c2]);
                assert(in_component(sets, c1, v));
                assert(in_component(sets, c2, v));
            }
        }
        lemma_ranked_ids_once(init);
        lemma_ranked_ids(init);
        let front = firsts(ranked_ids(init));
        let back = firsts(with_rank(sets.last(), rank));
        let all = firsts(ranked_ids(sets));
        assert(all =~= front + back);
        assert(back =~= sets.last());
        assert(sets.last().no_duplicates());
        assert forall|i: int, j: int| 0 <= i < front.len() && 0 <= j < back.len() implies front[i]
            != back[j] by {
            let entry = ranked_ids(init)[i];
            assert(in_component(init, entry.1 as int, entry.0));
            assert(init[entry.1 as int] == sets[entry.1 as int]);
            assert(in_component(sets, entry.1 as int, front[i]));
            assert(back[j] == sets[sets.len() - 1][j]);
            assert(in_component(sets, sets.len() - 1, back[j]));
        }
        vstd::seq_lib::lemma_no_dup_in_concat(front, back);
    }
}

/// A ranking by the components holds every node once: it is as long as there are nodes.
pub proof fn lemma_ranked_ids_complete(
    nodes: nat,
    edges: Seq<PreferenceEdge>,
    sets: Seq<Seq<usize>>,
)
    requires
        is_scc_order(nodes, edges, sets),
        nodes <= usize::MAX,
    ensures
        firsts(ranked_ids(sets)).no_duplicates(),
        ranked_ids(sets).len() == nodes,
{
    lemma_components_partition(nodes, edges, sets);
    lemma_ranked_ids_once(sets);
    lemma_ranks_are_contiguous(nodes, edges, sets);
    let ids = firsts(ranked_ids(sets));
    let numbers = Seq::new(ids.len(), |k: int| ids[k] as int);
    assert forall|k: int| 0 <= k < numbers.len() implies 0 <= #[trigger] numbers[k] < nodes by {
        assert(ranked_ids(sets)[k].0 < nodes);
    }
    assert(numbers.no_duplicates()) by {
        assert forall|i: int, j: int| 0 <= i < numbers.len() && 0 <= j < numbers.len() && i
            != j implies numbers[i] != numbers[j] by {
            assert(ids[i] != ids[j]);
        }
    }
    lemma_distinct_below(numbers, nodes);
    numbers.unique_seq_to_set();
    vstd::set_lib::lemma_int_range(0, nodes as int);
    assert(vstd::set_lib::set_int_range(0, nodes as int).subset_of(numbers.to_set())) by {
        assert forall|v: int| 0 <= v < nodes implies numbers.to_set().contains(v) by {
            assert(ids.contains(v as usize));
            let k = choose|k: int| 0 <= k < ids.len() && ids[k] == v as usize;
            assert(numbers[k] == v);
        }
    }
    assert(numbers.to_set().finite()) by {
        vstd::seq_lib::seq_to_set_is_finite(numbers);
    }
    vstd::set_lib::lemma_len_subset(
        vstd::set_lib::set_int_range(0, nodes as int),
        numbers.to_set(),
    );
}

/// A node that every other node has an edge to, and that has no edge to another node, is
/// alone in the first component.
pub proof fn lemma_unbeaten_node_is_first(
    nodes: nat,
    edges: Seq<PreferenceEdge>,
    sets: Seq<Seq<usize>>,
    x: usize,
)
    requires
        is_scc_order(nodes, edges, sets),
        x < nodes,
        forall|y: usize| y < nodes && y != x ==> has_edge(edges, y, x),
        forall|y: usize| y != x ==> !has_edge(edges, x, y),
    ensures
        in_component(sets, 0, x),
        forall|v: usize| in_component(sets, 0, v) ==> v == x,
{
    lemma_components_partition(nodes, edges, sets);
    assert(placed(sets, x));
    let cx = choose|c: int| in_component(sets, c, x);
    assert forall|c: int, v: usize| #[trigger] in_component(sets, c, v) && v != x implies cx
        < c by {
        assert(has_edge(edges, v, x));
        if c == cx {
            assert(reaches(edges, x, v));
            let path = choose|path: Seq<usize>|
                #[trigger] is_walk(edges, path) && path.first() == x && path.last() == v;
            lemma_walk_stays(edges, path, path.len() - 1);
        }
    }
    assert(sets[0].len() > 0);
    let first = sets[0][0];
    assert(in_component(sets, 0, first));
}

/// Three nodes with edges from the first to the second, from the second to the third and
/// from the third back to the first are in one component; where they are all the nodes,
/// that component is the first.
pub proof fn lemma_cycle_is_one_component(
    nodes: nat,
    edges: Seq<PreferenceEdge>,
    sets: Seq<Seq<usize>>,
    a: usize,
    b: usize,
    c: usize,
)
    requires
        is_scc_order(nodes, edges, sets),
        a < nodes,
        b < nodes,
        c < nodes,
        has_edge(edges, a, b),
        has_edge(edges, b, c),
        has_edge(edges, c, a),
    ensures
        exists|at: int|
            #[trigger] in_component(sets, at, a) && in_component(sets, at, b) && in_component(
                sets,
                at,
                c,
            ),
        nodes == 3 && a != b && b != c && a != c ==> in_component(sets, 0, a) && in_component(
            sets,
            0,
            b,
        ) && in_component(sets, 0, c),
{
    lemma_components_partition(nodes, edges, sets);
    assert(placed(sets, a));
    assert(placed(sets, b));
    assert(placed(sets, c));
    let ca = choose|at: int| in_component(sets, at, a);
    let cb = choose|at: int| in_component(sets, at, b);
    let cc = choose|at: int| in_component(sets, at, c);
    lemma_edge_reaches(edges, a, b);
    lemma_edge_reaches(edges, b, c);
    lemma_edge_reaches(edges, c, a);
    lemma_reaches_transitive(edges, a, b, c);
    lemma_reaches_transitive(edges, b, c, a);
    lemma_reaches_transitive(edges, c, a, b);
    assert(ca == cb);
    assert(cb == cc);
    if nodes == 3 && a != b && b != c && a != c {
        assert(sets[0].len() > 0);
        let first = sets[0][0];
        assert(in_component(sets, 0, first));
        assert(first == a || first == b || first == c);
    }
}

/// An edge is a walk.
pub proof fn lemma_edge_reaches(edges: Seq<PreferenceEdge>, source: usize, target: usize)
    requires
        has_edge(edges, source, target),
    ensures
        reaches(edges, source, target),
{
    let path = seq![source, target];
    assert(is_walk(edges, path)) by {
        assert forall|k: int| 0 <= k < path.len() - 1 implies has_edge(
            edges,
            #[trigger] path[k],
            path[k + 1],
        ) by {
            assert(k == 0);
        }
    }
    assert(path.first() == source && path.last() == target);
}

/// A walk to a node and a walk on from it make a walk.
pub proof fn lemma_reaches_transitive(
    edges: Seq<PreferenceEdge>,
    source: usize,
    middle: usize,
    target: usize,
)
    requires
        reaches(edges, source, middle),
        reaches(edges, middle, target),
    ensures
        reaches(edges, source, target),
{
    let first = choose|path: Seq<usize>|
        #[trigger] is_walk(edges, path) && path.first() == source && path.last() == middle;
    let second = choose|path: Seq<usize>|
        #[trigger] is_walk(edges, path) && path.first() == middle && path.last() == target;
    let path = first + second.skip(1);
    assert(is_walk(edges, path)) by {
        assert forall|k: int| 0 <= k < path.len() - 1 implies has_edge(
            edges,
            #[trigger] path[k],
            path[k + 1],
        ) by {
            if k < first.len() - 1 {
                assert(has_edge(edges, first[k], first[k + 1]));
            } else {
                let j = k - (first.len() - 1);
                assert(has_edge(edges, second[j], second[j + 1]));
                if j == 0 {
                    assert(path[k] == first.last());
                } else {
                    assert(path[k] == second[j]);
                }
                assert(path[k + 1] == second[j + 1]);
            }
        }
    }
    assert(path.first() == source);
    assert(path.last() == target) by {
        if second.len() == 1 {
            assert(path =~= first);
        } else {
            assert(path.last() == second.last());
        }
    }
}

/// The preference graph of a tally: a node for each candidate, and an edge from a candidate
/// to each candidate that does not lose against it.
#[derive(Debug)]
pub struct PreferenceGraph<T> {
    /// The candidates; the position of a candidate is its id.
    pub nodes: Vec<T>,
    /// The edges, over the ids of the candidates.
    pub edges: Vec<PreferenceEdge>,
}

/// The edges of a list that leave `source`, in the list's order.
pub open spec fn edges_from(edges: Seq<PreferenceEdge>, source: usize) -> Seq<PreferenceEdge>
    decreases edges.len(),
{
    if edges.len() == 0 {
        Seq::empty()
    } else if edges.last().source == source {
        edges_from(edges.drop_last(), source).push(edges.last())
    } else {
        edges_from(edges.drop_last(), source)
    }
}

impl<T> PreferenceGraph<T> {
    /// The number of nodes.
    pub fn node_count(&self) -> (count: usize)
        ensures
            count == self.nodes@.len(),
    {
        self.nodes.len()
    }

    /// The number of edges.
    pub fn edge_count(&self) -> (count: usize)
        ensures
            count == self.edges@.len(),
    {
        self.edges.len()
    }

    /// The candidate of the node with the given id, where there is such a node.
    pub fn node_weight(&self, id: usize) -> (candidate: Option<&T>)
        ensures
            candidate == if id < self.nodes@.len() {
                Some(&self.nodes@[id as int])
            } else {
                None::<&T>
            },
    {
        if id < self.nodes.len() {
            Some(&self.nodes[id])
        } else {
            None
        }
    }

    /// The edges that leave the node with the given id, in the order of the graph's edges.
    pub fn edges(&self, source: usize) -> (leaving: Vec<PreferenceEdge>)
        ensures
            leaving@ == edges_from(self.edges@, source),
    {
        let mut leaving: Vec<PreferenceEdge> = Vec::new();
        let mut k: usize = 0;
        while k < self.edges.len()
            invariant
                0 <= k <= self.edges@.len(),
                leaving@ == edges_from(self.edges@.take(k as int), source),
            decreases self.edges@.len() - k,
        {
            proof {
                let next = self.edges@.take(k + 1);
                assert(next.drop_last() =~= self.edges@.take(k as int));
                assert(next.last() == self.edges@[k as int]);
            }
            if self.edges[k].source == source {
                leaving.push(self.edges[k]);
            }
            k += 1;
        }
        proof {
            assert(self.edges@.take(k as int) =~= self.edges@);
        }
        leaving
    }
}

/// Declares `petgraph::graph::Graph`, which holds the graph whose components are computed.
#[verifier::external_type_specification]
#[verifier::external_body]
#[verifier::reject_recursive_types(N)]
#[verifier::reject_recursive_types(E)]
#[verifier::reject_recursive_types(Ty)]
#[verifier::reject_recursive_types(Ix)]
pub struct ExGraph<N, E, Ty, Ix>(petgraph::graph::Graph<N, E, Ty, Ix>);

/// Declares `petgraph::Directed`, the marker of a graph with directed edges.
#[verifier::external_type_specification]
#[verifier::external_body]
pub struct ExDirected(petgraph::Directed);

/// A directed graph over candidate ids, indexed by `usize`.
pub type IdGraph = petgraph::graph::Graph<usize, (u64, u64), petgraph::Directed, usize>;

/// The weights of the nodes of a graph, in the order of their indices.
pub uninterp spec fn graph_nodes(graph: IdGraph) -> Seq<usize>;

/// The edges of a graph, in the order in which they were added; source and target are
/// node indices.
pub uninterp spec fn graph_edges(graph: IdGraph) -> Seq<PreferenceEdge>;

/// What `petgraph::algo::tarjan_scc` returns for a graph with `nodes` nodes and the given
/// edges.
pub uninterp spec fn tarjan_scc_of(nodes: nat, edges: Seq<PreferenceEdge>) -> Seq<Seq<usize>>;

/// An empty graph, made by `petgraph::graph::Graph::with_capacity`, which gives a graph
/// without nodes and edges.
#[verifier::external_body]
fn graph_empty() -> (graph: IdGraph)
    ensures
        graph_nodes(graph).len() == 0,
        graph_edges(graph).len() == 0,
{
    petgraph::graph::Graph::with_capacity(0, 0)
}

/// Adds a node with `petgraph::graph::Graph::add_node`, which appends the node and returns
/// its index, the number of nodes before the call. With `usize` indices it does not panic.
#[verifier::external_body]
fn graph_add_node(graph: &mut IdGraph, weight: usize) -> (index: usize)
    ensures
        index == graph_nodes(*old(graph)).len(),
        graph_nodes(*final(graph)) == graph_nodes(*old(graph)).push(weight),
        graph_edges(*final(graph)) == graph_edges(*old(graph)),
{
    graph.add_node(weight).index()
}

/// Adds an edge with `petgraph::graph::Graph::add_edge`, which appends the edge, parallel
/// edges included, and panics where a node index is out of bounds.
#[verifier::external_body]
fn graph_add_edge(graph: &mut IdGraph, edge: PreferenceEdge)
    requires
        edge.source < graph_nodes(*old(graph)).len(),
        edge.target < graph_nodes(*old(graph)).len(),
    ensures
        graph_nodes(*final(graph)) == graph_nodes(*old(graph)),
        graph_edges(*final(graph)) == graph_edges(*old(graph)).push(edge),
{
    graph.add_edge(
        petgraph::graph::NodeIndex::new(edge.source),
        petgraph::graph::NodeIndex::new(edge.target),
        (edge.support, edge.opposition),
    );
}

/// The strongly connected components by `petgraph::algo::tarjan_scc`, each node as its
/// index. The crate documents that each element of the result is a strongly connected
/// component and that the components come in postorder, the reverse of a topological
/// order: a component stands before every component with an edge into it. The order of the
/// nodes within a component, and of components that no edge relates, is the algorithm's.
#[verifier::external_body]
fn graph_tarjan_scc(graph: &IdGraph) -> (sets: Vec<Vec<usize>>)
    ensures
        sets.deep_view() == tarjan_scc_of(graph_nodes(*graph).len(), graph_edges(*graph)),
        is_scc_order(graph_nodes(*graph).len(), graph_edges(*graph), sets.deep_view()),
{
    petgraph::algo::tarjan_scc(graph).into_iter().map(
        |set| set.into_iter().map(|node| node.index()).collect(),
    ).collect()
}

/// Whether every edge joins two of the nodes `0..nodes`.
pub open spec fn edges_within(edges: Seq<PreferenceEdge>, nodes: nat) -> bool {
    forall|k: int|
        0 <= k < edges.len() ==> (#[trigger] edges[k]).source < nodes && edges[k].target
            < nodes
}

/// The strongly connected components of the graph with nodes `0..nodes` and the given
/// edges. A component stands before every component that has an edge into it, so with
/// edges from the beaten to the unbeaten the first components are the Smith sets.
pub fn smith_sets(nodes: usize, edges: &Vec<PreferenceEdge>) -> (sets: Vec<Vec<usize>>)
    requires
        edges_within(edges@, nodes as nat),
    ensures
        sets.deep_view() == tarjan_scc_of(nodes as nat, edges@),
        is_scc_order(nodes as nat, edges@, sets.deep_view()),
{
    let mut graph = graph_empty();
    let mut id: usize = 0;
    while id < nodes
        invariant
            0 <= id <= nodes,
            graph_nodes(graph).len() == id,
            graph_edges(graph).len() == 0,
        decreases nodes - id,
    {
        graph_add_node(&mut graph, id);
        id += 1;
    }
    proof {
        assert(graph_edges(graph) =~= edges@.take(0));
    }
    let mut k: usize = 0;
    while k < edges.len()
        invariant
            0 <= k <= edges@.len(),
            edges_within(edges@, nodes as nat),
            graph_nodes(graph).len() == nodes,
            graph_edges(graph) == edges@.take(k as int),
        decreases edges@.len() - k,
    {
        graph_add_edge(&mut graph, edges[k]);
        proof {
            assert(edges@.take(k + 1) =~= edges@.take(k as int).push(edges@[k as int]));
        }
        k += 1;
    }
    proof {
        assert(edges@.take(k as int) =~= edges@);
    }
    graph_tarjan_scc(&graph)
}

/// The nodes of the components in the components' order, each with the position of its
/// component as its rank.
pub fn rank_components(sets: &Vec<Vec<usize>>) -> (ranked: Vec<(usize, usize)>)
    ensures
        ranked@ == ranked_ids(sets.deep_view()),
{
    let ghost all = sets.deep_view();
    let mut ranked: Vec<(usize, usize)> = Vec::new();
    let mut rank: usize = 0;
    while rank < sets.len()
        invariant
            0 <= rank <= sets@.len(),
            all == sets.deep_view(),
            ranked@ == ranked_ids(all.take(rank as int)),
        decreases sets@.len() - rank,
    {
        let set = &sets[rank];
        let ghost front = ranked@;
        let mut k: usize = 0;
        while k < set.len()
            invariant
                0 <= k <= set@.len(),
                ranked@ == front + with_rank(set@.take(k as int), rank),
            decreases set@.len() - k,
        {
            ranked.push((set[k], rank));
            proof {
                assert(set@.take(k + 1) =~= set@.take(k as int).push(set@[k as int]));
                assert(ranked@ =~= front + with_rank(set@.take(k + 1), rank));
            }
            k += 1;
        }
        proof {
            assert(set@.take(k as int) =~= set@);
            let next = all.take(rank + 1);
            assert(next.drop_last() =~= all.take(rank as int));
            assert(next.last() == all[rank as int]);
            assert(all[rank as int] == set@);
        }
        rank += 1;
    }
    proof {
        assert(all.take(rank as int) =~= all);
    }
    ranked
}

} // verus!
