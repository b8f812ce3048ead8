use tallystick::result::{CountedCandidates, RankedCandidate, RankedWinners};

#[test]
fn from_ranked_keeps_a_tie_for_the_last_seat() {
    let ranked = vec![("a", 0usize), ("b", 1), ("c", 1), ("d", 2)];
    let winners = RankedWinners::from_ranked(ranked, 2);
    assert_eq!(winners.len(), 3);
    assert!(winners.check_overflow());
    assert_eq!(winners.overflow(), Some(vec!["b", "c"]));
    assert_eq!(winners.into_vec(), vec![("a", 0), ("b", 1), ("c", 1)]);
}

#[test]
fn from_ranked_without_a_tie_fills_the_seats() {
    let ranked = vec![("a", 0usize), ("b", 1), ("c", 2), ("d", 2)];
    let winners = RankedWinners::from_ranked(ranked, 2);
    assert_eq!(winners.len(), 2);
    assert!(!winners.check_overflow());
    assert_eq!(winners.overflow(), None);
    assert_eq!(winners.all(), vec!["a", "b"]);
}

#[test]
fn from_ranked_with_fewer_candidates_than_seats() {
    let ranked = vec![("a", 0usize), ("b", 0)];
    let winners = RankedWinners::from_ranked(ranked, 5);
    assert_eq!(winners.len(), 2);
    assert!(!winners.check_overflow());
    assert_eq!(winners.num_winners, 5);
}

#[test]
fn from_ranked_with_zero_seats_returns_everybody() {
    let ranked = vec![("a", 0usize), ("b", 1), ("c", 2)];
    let winners = RankedWinners::from_ranked(ranked, 0);
    assert_eq!(winners.len(), 3);
    assert_eq!(winners.into_vec(), vec![("a", 0), ("b", 1), ("c", 2)]);
    let nobody = RankedWinners::<&str>::from_ranked(vec![], 0);
    assert!(nobody.is_empty());
    assert!(!nobody.check_overflow());
}

#[test]
fn from_ranked_sorts_by_rank_and_keeps_the_order_of_ties() {
    let ranked = vec![("d", 2usize), ("b", 1), ("a", 0), ("c", 1), ("e", 2)];
    let winners = RankedWinners::from_ranked(ranked, 4);
    assert_eq!(winners.into_vec(), vec![("a", 0), ("b", 1), ("c", 1), ("d", 2), ("e", 2)]);
}

#[test]
fn winners_queries() {
    let mut winners = RankedWinners::new(2);
    winners.push("x", 1);
    winners.push("y", 0);
    winners.push("z", 1);
    winners.sort();
    assert_eq!(winners.len(), 3);
    assert!(winners.contains(&"x"));
    assert!(!winners.contains(&"w"));
    assert_eq!(winners.rank(&"y"), Some(0));
    assert_eq!(winners.rank(&"z"), Some(1));
    assert_eq!(winners.rank(&"w"), None);
    assert_eq!(winners.all(), vec!["y", "x", "z"]);
    assert_eq!(winners.overflow(), Some(vec!["x", "z"]));
    let mut walk = winners.iter();
    assert_eq!(walk.next().unwrap().candidate, "y");
    assert_eq!(walk.next().unwrap().rank, 1);
    assert!(walk.next().is_some());
    assert!(walk.next().is_none());
    assert!(walk.next().is_none());
    let mut drained = RankedWinners::from_ranked(vec![(1u8, 0usize), (2, 1), (3, 2), (4, 3)], 0);
    let middle = drained.drain(1, 3);
    assert_eq!(middle, vec![(2, 1), (3, 2)]);
    assert_eq!(drained.winners, vec![(1, 0), (4, 3)]);
    assert_eq!(drained.into_unranked(), vec![1, 4]);
    let empty: RankedWinners<u8> = Default::default();
    assert!(empty.is_empty());
    assert_eq!(empty.num_winners, 0);
}

#[test]
fn ranked_candidate_compares_with_itself_and_with_pairs() {
    let ranked = RankedCandidate::from(("a", 3usize));
    assert_eq!(ranked.candidate, "a");
    assert_eq!(ranked.rank, 3);
    assert!(ranked == ("a", 3));
    assert!(ranked != ("a", 4));
    assert!(ranked != ("b", 3));
    assert!(ranked == RankedCandidate { candidate: "a", rank: 3 });
}

#[test]
fn counted_candidates_rank_by_count() {
    let mut counted = CountedCandidates::new();
    counted.push("a", 2);
    counted.push("b", 7);
    counted.push("c", 2);
    counted.push("d", 5);
    assert_eq!(counted.len(), 4);
    let winners = counted.into_ranked(3);
    assert_eq!(winners.into_vec(), vec![("b", 0), ("d", 1), ("a", 2), ("c", 2)]);

    let mut counted = CountedCandidates::new();
    counted.push("a", 2);
    counted.push("b", 7);
    counted.push("c", 2);
    counted.push("d", 5);
    assert_eq!(counted.into_vec(), vec![("b", 7), ("d", 5), ("a", 2), ("c", 2)]);

    let mut counted = CountedCandidates::new();
    counted.push("a", 1);
    counted.push("b", 1);
    counted.push("c", 0);
    let winners = counted.into_ranked(1);
    assert_eq!(winners.into_vec(), vec![("a", 0), ("b", 0)]);

    let mut counted = CountedCandidates::new();
    counted.push("a", 3);
    counted.push("b", 2);
    counted.push("c", 1);
    assert_eq!(counted.into_ranked(0).len(), 3);
    assert!(CountedCandidates::<u8>::new().into_ranked(2).is_empty());
}
