use tallystick::graph::{rank_components, smith_sets, PreferenceEdge, PreferenceGraph};

fn edge(source: usize, target: usize) -> PreferenceEdge {
    PreferenceEdge { source, target, support: 1, opposition: 0 }
}

// Whether a walk of one edge or more leads from each node to each node.
fn walks(nodes: usize, edges: &[PreferenceEdge]) -> Vec<Vec<bool>> {
    let mut reach = vec![vec![false; nodes]; nodes];
    for e in edges {
        reach[e.source][e.target] = true;
    }
    for k in 0..nodes {
        for i in 0..nodes {
            for j in 0..nodes {
                if reach[i][k] && reach[k][j] {
                    reach[i][j] = true;
                }
            }
        }
    }
    reach
}

fn check_sets(nodes: usize, edges: &[PreferenceEdge]) {
    let sets = smith_sets(nodes, &edges.to_vec());
    let mut place = vec![usize::MAX; nodes];
    for (at, set) in sets.iter().enumerate() {
        assert!(!set.is_empty());
        for node in set {
            assert!(*node < nodes);
            assert_eq!(place[*node], usize::MAX, "a node is in two sets");
            place[*node] = at;
        }
    }
    assert!(place.iter().all(|at| *at != usize::MAX), "a node is in no set");
    let reach = walks(nodes, edges);
    for a in 0..nodes {
        for b in 0..nodes {
            if a != b {
                assert_eq!(place[a] == place[b], reach[a][b] && reach[b][a]);
            }
        }
    }
    for e in edges {
        assert!(place[e.target] <= place[e.source], "an edge leads to a later set");
    }
    let ranked = rank_components(&sets);
    assert_eq!(ranked.len(), nodes);
    for (id, rank) in ranked {
        assert_eq!(place[id], rank);
    }
    // The same graph gives the same sets.
    assert_eq!(smith_sets(nodes, &edges.to_vec()), sets);
}

#[test]
fn smith_sets_are_the_components_in_the_order_of_the_edges() {
    check_sets(0, &[]);
    check_sets(1, &[]);
    check_sets(3, &[]);
    check_sets(3, &[edge(0, 1), edge(1, 2), edge(2, 0)]);
    check_sets(4, &[edge(3, 2), edge(2, 1), edge(1, 0)]);
    check_sets(4, &[edge(0, 1), edge(1, 0), edge(2, 3), edge(3, 2), edge(0, 2)]);
    check_sets(5, &[edge(0, 1), edge(0, 1), edge(1, 2), edge(2, 1), edge(4, 4), edge(3, 0)]);
    let mut state: u64 = 0x2545_f491_4f6c_dd1d;
    let mut next = |bound: usize| {
        state ^= state << 13;
        state ^= state >> 7;
        state ^= state << 17;
        (state % bound as u64) as usize
    };
    for _ in 0..200 {
        let nodes = 1 + next(9);
        let count = next(3 * nodes);
        let mut edges = Vec::new();
        for _ in 0..count {
            edges.push(edge(next(nodes), next(nodes)));
        }
        check_sets(nodes, &edges);
    }
}

#[test]
fn smith_sets_of_a_chain_come_winner_first() {
    // Each edge leads from the beaten to the winner: 0 beats 1, 1 beats 2, 2 beats 3.
    let sets = smith_sets(4, &vec![edge(1, 0), edge(2, 1), edge(3, 2)]);
    assert_eq!(sets, vec![vec![0], vec![1], vec![2], vec![3]]);
    assert_eq!(rank_components(&sets), vec![(0, 0), (1, 1), (2, 2), (3, 3)]);
    assert_eq!(
        rank_components(&vec![vec![4, 2], vec![], vec![0, 1, 3]]),
        vec![(4, 0), (2, 0), (0, 2), (1, 2), (3, 2)]
    );
}

#[test]
fn preference_graph_queries() {
    let graph = PreferenceGraph {
        nodes: vec!["a", "b", "c"],
        edges: vec![
            PreferenceEdge { source: 1, target: 0, support: 5, opposition: 2 },
            PreferenceEdge { source: 2, target: 0, support: 4, opposition: 4 },
            PreferenceEdge { source: 1, target: 2, support: 3, opposition: 0 },
        ],
    };
    assert_eq!(graph.node_count(), 3);
    assert_eq!(graph.edge_count(), 3);
    assert_eq!(graph.node_weight(2), Some(&"c"));
    assert_eq!(graph.node_weight(3), None);
    assert_eq!(graph.edges(0), vec![]);
    let from_b = graph.edges(1);
    assert_eq!(from_b.len(), 2);
    assert_eq!(from_b[0].weight(), (5, 2));
    assert_eq!(from_b[1].weight(), (3, 0));
    assert_eq!(graph.edges(2)[0].target, 0);
}
