use tallystick::irv::{
    candidates_with_score, is_tied, lowest_score, names_of, rank_rounds, scores_of_round,
    DefaultTally, Tally,
};
use tallystick::votetree::Transfer;
use tallystick::TallyError;

#[test]
fn irv_wikipedia_1() -> Result<(), TallyError> {
    // See: https://en.wikipedia.org/wiki/Instant-runoff_voting

    let mut tally = DefaultTally::new(Transfer::Meek);
    tally.add_weighted(vec!["Memphis", "Nashville", "Chattanooga", "Chattanooga"], 42);
    tally.add_weighted(vec!["Nashville", "Chattanooga", "Knoxville", "Memphis"], 26);
    tally.add_weighted(vec!["Chattanooga", "Knoxville", "Nashville", "Nashville"], 15);
    tally.add_weighted(vec!["Knoxville", "Chattanooga", "Nashville", "Memphis"], 17);

    // Verify winners
    let winners = tally.tally_winners();
    assert!(winners.contains(&"Knoxville"));

    // Verify ranking
    let ranked = tally.tally_ranked();
    assert_eq!(ranked[0].candidate, "Knoxville");
    assert_eq!(ranked[0].rank, 0);
    assert_eq!(ranked[1].candidate, "Memphis");
    assert_eq!(ranked[1].rank, 1);
    assert_eq!(ranked[2].candidate, "Nashville");
    assert_eq!(ranked[2].rank, 2);
    assert_eq!(ranked[3].candidate, "Chattanooga");
    assert_eq!(ranked[3].rank, 3);

    Ok(())
}

#[test]
fn irv_ties_leave_together_and_ranks_have_no_gaps() {
    let mut tally = Tally::new(Transfer::Warren);
    tally.add_weighted(vec!["a", "b"], 5);
    tally.add_weighted(vec!["b", "a"], 3);
    tally.add_weighted(vec!["c", "a"], 3);
    tally.add(vec!["d"]);
    tally.add_ref(&["d", "c"]);
    assert_eq!(tally.total_weight(), 13);
    // d leaves with 2 votes, of which one goes on to c; then b leaves with 3 votes, and
    // then c with 4.
    let ranked = tally.tally_ranked();
    assert_eq!(ranked, vec![("a", 0), ("c", 1), ("b", 2), ("d", 3)]);
    assert_eq!(tally.tally_ranked(), ranked);

    let mut tied = Tally::new(Transfer::Meek);
    tied.add_weighted(vec![1, 9], 4);
    tied.add_weighted(vec![2, 9], 2);
    tied.add_weighted(vec![3, 9], 2);
    // 9 has no first votes and leaves first; then 2 and 3 leave together.
    assert_eq!(tied.tally_ranked(), vec![(1, 0), (3, 1), (2, 1), (9, 2)]);
    // Where all that are left are tied, the count ends with them.
    let mut even = Tally::new(Transfer::Meek);
    even.add(vec!["x"]);
    even.add(vec!["y"]);
    assert_eq!(even.tally_ranked(), vec![("y", 0), ("x", 0)]);
    let winners = even.tally_winners();
    assert_eq!(winners.len(), 2);
    assert!(winners.check_overflow());
}

#[test]
fn irv_without_votes() {
    let empty = Tally::<u8>::new(Transfer::Meek);
    assert!(empty.tally_ranked().is_empty());
    assert!(empty.tally_winners().is_empty());
    let listed = Tally::with_candidates(Transfer::Meek, vec!["a", "b", "a"]);
    assert_eq!(listed.tally_ranked(), vec![("b", 0), ("a", 0)]);
    let mut voted = Tally::with_candidates(Transfer::Meek, vec!["a", "b", "c"]);
    voted.add(vec!["c"]);
    assert_eq!(voted.tally_ranked(), vec![("c", 0), ("b", 1), ("a", 1)]);
    assert_eq!(voted.tally_winners().into_vec(), vec![("c", 0)]);
}

#[test]
fn irv_round_helpers() {
    let candidates = vec!["a", "b", "c", "d"];
    let scores = scores_of_round(&candidates, &["b"], &[("c", 4), ("a", 7), ("b", 9)]);
    assert_eq!(scores, vec![("a", 7), ("c", 4), ("d", 0)]);
    assert!(!is_tied(&scores));
    assert!(is_tied(&vec![("a", 3), ("b", 3)]));
    assert!(is_tied(&Vec::<(u8, u64)>::new()));
    assert_eq!(lowest_score(&scores), 0);
    assert_eq!(lowest_score(&vec![("a", 5), ("b", 2), ("c", 2), ("d", 8)]), 2);
    assert_eq!(candidates_with_score(&vec![("a", 5), ("b", 2), ("c", 2), ("d", 8)], 2), vec!["b", "c"]);
    assert_eq!(names_of(&scores), vec!["a", "c", "d"]);
    let ranking = rank_rounds(&vec![vec!["x"], vec!["y", "z"], vec!["w"]]);
    assert_eq!(ranking, vec![("w", 0), ("z", 1), ("y", 1), ("x", 2)]);
    assert!(rank_rounds(&Vec::<Vec<u8>>::new()).is_empty());
}
