use tallystick::votetree::{count_rank, find_entry, Transfer, VoteTree};

fn tree_of(votes: Vec<(u64, Vec<u32>)>) -> VoteTree<u32> {
    let mut tree = VoteTree::new();
    for v in votes {
        tree.add(&v.1, v.0);
    }
    tree
}

fn score_of<K: PartialEq>(scores: &[(K, u64)], key: K) -> u64 {
    scores.iter().find(|(k, _)| *k == key).unwrap().1
}

#[test]
fn stv_branch_test() {
    let mut x = VoteTree::new();
    x.add(&[3, 5, 1, 7, 2], 4);
    let n = x.add(&[3, 5, 1, 7, 2], 3);
    assert_eq!(n, 7);
    assert_eq!(x.add(&[], 0), 7);
    assert_eq!(x.add(&[3], 0), 7);
    assert_eq!(x.add(&[4], 0), 0);
}

#[test]
fn transfer_votes() {
    let x = tree_of(vec![
        (1, vec![0, 1]),
        (2, vec![0, 2]),
        (3, vec![1, 0]),
        (4, vec![1, 2]),
        (5, vec![2, 0]),
        (6, vec![2, 1]),
    ]);

    let base = 1_000_000;

    for &transfer in [Transfer::Meek, Transfer::Warren].iter() {
        let weights_one: Vec<(u32, u64)> = (0..3).map(|i| (i as u32, base)).collect();
        let (excess, score) = x.transfer_votes_fp(&weights_one, base, transfer);
        assert_eq!(excess, 0);
        for i in 0..3 {
            assert_eq!(score_of(&score, i), x.first_vote_count(&i) * base);
        }
    }

    let weights_half: Vec<(u32, u64)> = [(0, base / 2), (1, base / 2), (2, base / 2)]
        .iter()
        .map(|(a, b)| (*a as u32, *b as u64))
        .collect();
    //Meek
    let (excess, score) = x.transfer_votes_fp(&weights_half, base, Transfer::Meek);
    //Will be perfectly accurate provided that base is divisible by 4
    assert_eq!(score_of(&score, 0), 3 * base / 2 + (3 + 5) * base / 4);
    assert_eq!(score_of(&score, 1), 7 * base / 2 + (1 + 6) * base / 4);
    assert_eq!(score_of(&score, 2), 11 * base / 2 + (4 + 2) * base / 4);
    assert_eq!(excess, (base * (1 + 2 + 3 + 4 + 5 + 6)) / 4);
    assert_eq!(score.iter().map(|(_, v)| *v).sum::<u64>() + excess, x.count * base);

    //Warren
    let (excess, score) = x.transfer_votes_fp(&weights_half, base, Transfer::Warren);
    //Will be perfectly accurate provided that base is divisible by 2
    assert_eq!(score_of(&score, 0), 3 * base / 2 + (3 + 5) * base / 2);
    assert_eq!(score_of(&score, 1), 7 * base / 2 + (1 + 6) * base / 2);
    assert_eq!(score_of(&score, 2), 11 * base / 2 + (4 + 2) * base / 2);
    assert_eq!(excess, 0);
    assert_eq!(score.iter().map(|(_, v)| *v).sum::<u64>() + excess, x.count * base);
}

#[test]
fn transfer_zero_weight() {
    let x = tree_of(vec![
        (3, vec![0, 2, 3]),
        (4, vec![0, 2, 1]),
        (2, vec![3, 0, 2]),
        (1, vec![1]),
        (2, vec![1, 3, 2, 0]),
        (1, vec![2, 3, 1]),
    ]);
    let base = 1_000_000;

    let vsum = x.count;

    let mut w: Vec<(u32, u64)> = (0..4).map(|i| (i as u32, base)).collect();
    w.retain(|(candidate, _)| *candidate != 1);
    for &transfer in [Transfer::Meek, Transfer::Warren].iter() {
        let (excess, score) = x.transfer_votes_fp(&w, base, transfer);
        assert_eq!(excess + score.iter().map(|(_, v)| *v).sum::<u64>(), vsum * base);
    }
}

#[test]
fn count_ranks() {
    let x = tree_of(vec![
        (1, vec![0]),
        (2, vec![0, 1]),
        (3, vec![0, 1, 2]),
        (4, vec![2]),
        (5, vec![2, 1]),
        (6, vec![2, 1, 0]),
    ]);

    let mut points = Vec::new();
    x.count_ranks(&mut points, &[], 0);
    assert_eq!(score_of(&points, (0, 0)), 6);
    assert_eq!(score_of(&points, (0, 2)), 6);
    assert_eq!(score_of(&points, (1, 1)), 16);
    assert_eq!(score_of(&points, (2, 0)), 15);
    assert_eq!(score_of(&points, (2, 2)), 3);
}

#[test]
fn count_ranks_skip() {
    let x = tree_of(vec![
        (1, vec![0]),
        (2, vec![0, 1]),
        (3, vec![0, 1, 2]),
        (4, vec![2]),
        (5, vec![2, 1]),
        (6, vec![2, 1, 0]),
    ]);

    let mut points = Vec::new();
    x.count_ranks(&mut points, &[0], 0);
    assert_eq!(score_of(&points, (1, 1)), 11);
    assert_eq!(score_of(&points, (2, 1)), 3);
    assert_eq!(score_of(&points, (2, 0)), 15);
    assert_eq!(score_of(&points, (1, 0)), 5);

    let mut points2 = Vec::new();
    x.count_ranks(&mut points2, &[0, 2], 0);
    assert_eq!(score_of(&points2, (1, 0)), 16);
}

#[test]
fn vote_tree_hands_votes_to_the_first_candidate_left() {
    let x = tree_of(vec![(4, vec![1, 2, 3]), (3, vec![2, 1]), (2, vec![3]), (1, vec![])]);
    assert_eq!(x.count, 10);
    assert_eq!(x.candidates(), vec![1, 2, 3]);
    assert_eq!(x.first_vote_count(&1), 4);
    assert_eq!(x.first_vote_count(&9), 0);
    assert_eq!(x.assign_votes(&[]), (1, vec![(1, 4), (2, 3), (3, 2)]));
    assert_eq!(x.assign_votes(&[1]), (1, vec![(2, 7), (3, 2)]));
    assert_eq!(x.assign_votes(&[2, 1]), (4, vec![(3, 6)]));
    assert_eq!(x.assign_votes(&[1, 2, 3]), (10, vec![]));
    let mut scores = vec![(3, 10), (7, 1)];
    assert_eq!(x.distribute_votes(&mut scores, &[2]), 9);
    assert_eq!(scores, vec![(3, 12), (7, 1), (1, 7)]);
}

#[test]
fn vote_tree_with_candidates_has_a_branch_for_each() {
    let mut tree = VoteTree::with_candidates(vec!["a", "b", "a", "c"]);
    assert_eq!(tree.count, 0);
    assert_eq!(tree.candidates(), vec!["a", "b", "c"]);
    assert_eq!(tree.add(&["c", "d"], 2), 2);
    assert_eq!(tree.add(&["c"], 3), 5);
    assert_eq!(tree.candidates(), vec!["a", "b", "c", "d"]);
    assert_eq!(tree.assign_votes(&["c"]), (3, vec![("a", 0), ("b", 0), ("d", 2)]));
    let mut names = vec!["d", "z"];
    tree.gather(&mut names);
    assert_eq!(names, vec!["d", "z", "a", "b", "c"]);
}

#[test]
fn vote_tree_helpers() {
    let weights = [("a", 5u64), ("b", 7), ("a", 9)];
    assert_eq!(find_entry(&weights, &"a"), Some(0));
    assert_eq!(find_entry(&weights, &"b"), Some(1));
    assert_eq!(find_entry(&weights, &"c"), None);
    let mut points = vec![(("a", 0usize), 1u64)];
    count_rank(&mut points, "a", 1, 2);
    count_rank(&mut points, "a", 0, 3);
    count_rank(&mut points, "b", 0, 4);
    assert_eq!(points, vec![(("a", 0), 4), (("a", 1), 2), (("b", 0), 4)]);
    // Meek keeps the weight times what is left; Warren the weight or what is left.
    let x = tree_of(vec![(1, vec![0, 1])]);
    let (excess, scores) = x.transfer_votes_fp(&[(0, 30), (1, 50)], 100, Transfer::Meek);
    assert_eq!(scores, vec![(0, 30), (1, 35)]);
    assert_eq!(excess, 35);
    let (excess, scores) = x.transfer_votes_fp(&[(0, 30), (1, 50)], 100, Transfer::Warren);
    assert_eq!(scores, vec![(0, 30), (1, 50)]);
    assert_eq!(excess, 20);
}
