use std::collections::HashSet;
use std::iter::FromIterator;
use tallystick::condorcet::{CondorcetTally, DefaultCondorcetTally};
use tallystick::TallyError;

#[test]
fn condorcet_basic() -> Result<(), TallyError> {
    // Election between Alice, Bob, and Carol
    let mut tally = DefaultCondorcetTally::with_candidates(2, vec!["Alice", "Bob", "Carol"]);
    tally.add(&vec!["Alice", "Bob", "Carol"])?;
    tally.add(&vec!["Alice", "Bob", "Carol"])?;
    tally.add(&vec!["Alice", "Bob", "Carol"])?;

    let totals = tally.totals();
    let totals: HashSet<((&str, &str), u64)> = HashSet::from_iter(totals.iter().cloned()); // As a hashset.
    let mut expected = HashSet::new();
    expected.insert((("Alice", "Bob"), 3));
    expected.insert((("Bob", "Carol"), 3));
    expected.insert((("Alice", "Carol"), 3));
    assert_eq!(totals, expected);

    let winners = tally.winners();
    assert_eq!(winners.into_vec(), vec! {("Alice", 0), ("Bob", 1)});

    // Test a non-transitive voting paradox
    let mut tally = DefaultCondorcetTally::with_candidates(2, vec!["Alice", "Bob", "Carol"]);
    tally.add(&vec!["Alice", "Bob", "Carol"])?;
    tally.add(&vec!["Bob", "Carol", "Alice"])?;
    tally.add(&vec!["Carol", "Alice", "Bob"])?;

    let winners = tally.winners();
    assert_eq!(winners.is_empty(), false);
    assert_eq!(winners.check_overflow(), true);
    assert_eq!(winners.all().len(), 3);
    assert_eq!(winners.overflow().unwrap().len(), 3);
    assert_eq!(winners.rank(&"Alice").unwrap(), 0);
    assert_eq!(winners.rank(&"Bob").unwrap(), 0);
    assert_eq!(winners.rank(&"Carol").unwrap(), 0);

    Ok(())
}

#[test]
fn condorcet_wikipedia() -> Result<(), TallyError> {
    // From: https://en.wikipedia.org/wiki/Condorcet_method
    let mut tally = DefaultCondorcetTally::with_candidates(4, vec!["Memphis", "Nashville", "Chattanooga", "Knoxville"]);
    tally.add_weighted(&vec!["Memphis", "Nashville", "Chattanooga", "Knoxville"], 42)?;
    tally.add_weighted(&vec!["Nashville", "Chattanooga", "Knoxville", "Memphis"], 26)?;
    tally.add_weighted(&vec!["Chattanooga", "Knoxville", "Nashville", "Memphis"], 15)?;
    tally.add_weighted(&vec!["Knoxville", "Chattanooga", "Nashville", "Memphis"], 17)?;

    let candidates = tally.candidates();
    let candidates: HashSet<&str> = HashSet::from_iter(candidates.iter().cloned()); // As a hashset
    let mut expected = HashSet::new();
    expected.insert("Memphis");
    expected.insert("Nashville");
    expected.insert("Chattanooga");
    expected.insert("Knoxville");
    assert_eq!(candidates, expected);

    let totals = tally.totals();
    let totals: HashSet<((&str, &str), u64)> = HashSet::from_iter(totals.iter().cloned()); // As a hashset
    let mut expected = HashSet::new();
    expected.insert((("Memphis", "Nashville"), 42));
    expected.insert((("Nashville", "Memphis"), 58));
    expected.insert((("Memphis", "Chattanooga"), 42));
    expected.insert((("Chattanooga", "Memphis"), 58));
    expected.insert((("Memphis", "Knoxville"), 42));
    expected.insert((("Knoxville", "Memphis"), 58));
    expected.insert((("Nashville", "Chattanooga"), 68));
    expected.insert((("Chattanooga", "Nashville"), 32));
    expected.insert((("Nashville", "Knoxville"), 68));
    expected.insert((("Knoxville", "Nashville"), 32));
    expected.insert((("Chattanooga", "Knoxville"), 83));
    expected.insert((("Knoxville", "Chattanooga"), 17));
    assert_eq!(totals, expected);

    let winners = tally.winners();
    assert_eq!(
        winners.into_vec(),
        vec! {("Nashville", 0), ("Chattanooga", 1), ("Knoxville", 2), ("Memphis", 3)}
    );

    Ok(())
}

#[test]
fn condorcet_graph() -> Result<(), TallyError> {
    // From: https://arxiv.org/pdf/1804.02973.pdf

    // Example 1:
    let mut tally = DefaultCondorcetTally::with_candidates(1, vec!["a", "b", "c", "d"]);
    tally.add_weighted(&vec!["a", "c", "d", "b"], 8)?;
    tally.add_weighted(&vec!["b", "a", "d", "c"], 2)?;
    tally.add_weighted(&vec!["c", "d", "b", "a"], 4)?;
    tally.add_weighted(&vec!["d", "b", "a", "c"], 4)?;
    tally.add_weighted(&vec!["d", "c", "b", "a"], 3)?;

    let graph = tally.build_graph();
    assert_eq!(graph.node_count(), 4);
    assert_eq!(graph.edge_count(), 6);

    for index in 0..graph.node_count() {
        let candidate = *graph.node_weight(index).unwrap();
        for edge in graph.edges(index).iter().map(|e| e.weight()) {
            match candidate {
                "a" => assert!(edge == (13, 8) || edge == (11, 10) || edge == (14, 7)),
                "b" => assert!(edge == (13, 8) || edge == (15, 6) || edge == (19, 2)),
                "c" => assert!(edge == (12, 9) || edge == (15, 6) || edge == (14, 7)),
                "d" => assert!(edge == (12, 9) || edge == (11, 10) || edge == (19, 2)),
                _ => panic!("Invalid candidate"),
            }
        }
    }

    Ok(())
}

#[test]
fn condorcet_ranked_is_the_same_on_every_call() {
    let mut tally = CondorcetTally::with_candidates(2, vec![10u32, 20, 30, 40]);
    tally.add_weighted(&[10, 20, 30, 40], 3).unwrap();
    tally.add_weighted(&[40, 30, 20, 10], 2).unwrap();
    tally.add_weighted(&[20, 40, 10, 30], 4).unwrap();
    let first = tally.ranked();
    let second = tally.ranked();
    assert_eq!(first, second);
    let winners = tally.winners().into_vec();
    let again = tally.winners().into_vec();
    assert_eq!(winners, again);
}

#[test]
fn condorcet_duplicate_vote_is_rejected_and_counts_nothing() {
    let mut tally = CondorcetTally::with_candidates(1, vec!["A", "B", "C"]);
    tally.add(&["A", "B", "C"]).unwrap();
    let before = tally.totals();
    let weight = tally.total_weight();
    let added = tally.add(&["A", "B", "A"]);
    assert!(matches!(added, Err(TallyError::VoteHasDuplicateCandidates)));
    assert_eq!(tally.totals(), before);
    assert_eq!(tally.total_weight(), weight);
    let added = tally.ranked_add(&[("A", 0), ("B", 1), ("A", 2)]);
    assert!(matches!(added, Err(TallyError::VoteHasDuplicateCandidates)));
    assert_eq!(tally.totals(), before);
}

#[test]
fn condorcet_unknown_candidate_is_rejected_before_duplicates() {
    let mut tally = CondorcetTally::with_candidates(1, vec!["A", "B"]);
    assert!(matches!(tally.add(&["A", "X"]), Err(TallyError::UnknownCandidate)));
    assert!(matches!(tally.add(&["A", "A", "X"]), Err(TallyError::UnknownCandidate)));
    assert!(matches!(tally.check_vote(&["B", "B"]), Err(TallyError::VoteHasDuplicateCandidates)));
    assert!(matches!(tally.check_ranked_vote(&[("B", 0), ("Y", 0)]), Err(TallyError::UnknownCandidate)));
    assert!(tally.check_vote(&["B", "A"]).is_ok());
    assert!(tally.totals().is_empty());
    // A vote of no candidates is taken and counts for no pair.
    assert!(tally.add(&[]).is_ok());
    assert!(tally.totals().is_empty());
    assert_eq!(tally.total_weight(), 1);
    assert_eq!(tally.candidates(), vec!["A", "B"]);
}

#[test]
fn condorcet_open_tally_registers_the_candidates_of_a_vote() {
    let mut tally = DefaultCondorcetTally::<&str>::new(1);
    assert!(tally.candidates().is_empty());
    assert!(tally.add(&["A", "B"]).is_ok());
    assert_eq!(tally.totals(), vec![(("A", "B"), 1)]);
    assert_eq!(tally.candidates(), vec!["A", "B"]);
    assert_eq!(tally.total_weight(), 1);
    // New candidates follow the known ones, in the order of the vote.
    assert!(tally.add_weighted(&["D", "A", "C"], 2).is_ok());
    assert_eq!(tally.candidates(), vec!["A", "B", "D", "C"]);
    assert_eq!(tally.total_weight(), 3);
    let totals: HashSet<((&str, &str), u64)> = HashSet::from_iter(tally.totals().iter().cloned());
    let mut expected = HashSet::new();
    expected.insert((("A", "B"), 3));
    expected.insert((("D", "A"), 2));
    expected.insert((("D", "B"), 2));
    expected.insert((("D", "C"), 2));
    expected.insert((("A", "C"), 2));
    expected.insert((("C", "B"), 2));
    assert_eq!(totals, expected);
    assert_eq!(tally.winners().into_vec(), vec![("D", 0)]);
}

#[test]
fn condorcet_open_tally_registers_the_candidates_of_a_ranked_vote() {
    let mut tally = CondorcetTally::<&str>::new(1);
    assert!(tally.ranked_add(&[("B", 1), ("A", 0), ("C", 1)]).is_ok());
    assert_eq!(tally.candidates(), vec!["B", "A", "C"]);
    let totals: HashSet<((&str, &str), u64)> = HashSet::from_iter(tally.totals().iter().cloned());
    let mut expected = HashSet::new();
    expected.insert((("A", "B"), 1));
    expected.insert((("A", "C"), 1));
    assert_eq!(totals, expected);
    assert!(tally.ranked_add_weighted(&[("E", 0)], 4).is_ok());
    assert_eq!(tally.candidates(), vec!["B", "A", "C", "E"]);
    assert_eq!(tally.total_weight(), 5);
}

#[test]
fn condorcet_open_tally_rejects_only_duplicates() {
    let mut tally = CondorcetTally::<&str>::new(1);
    tally.add(&["A", "B"]).unwrap();
    let before = tally.totals();
    // The duplicate is found before anything is registered: "X" stays unknown.
    let added = tally.add(&["X", "B", "A", "B"]);
    assert!(matches!(added, Err(TallyError::VoteHasDuplicateCandidates)));
    let added = tally.ranked_add(&[("Y", 0), ("Y", 1)]);
    assert!(matches!(added, Err(TallyError::VoteHasDuplicateCandidates)));
    assert_eq!(tally.totals(), before);
    assert_eq!(tally.candidates(), vec!["A", "B"]);
    assert_eq!(tally.total_weight(), 1);
    // A vote of no candidates is taken.
    assert!(tally.add(&[]).is_ok());
    assert_eq!(tally.total_weight(), 2);
    assert_eq!(tally.totals(), before);
}

#[test]
fn condorcet_open_tally_without_checks_registers_and_counts() {
    let mut tally = CondorcetTally::<&str>::new(1).unchecked();
    // Of the duplicate the first place counts; the new candidates are registered once.
    assert!(tally.add(&["X", "B", "X", "A"]).is_ok());
    assert_eq!(tally.candidates(), vec!["X", "B", "A"]);
    let totals: HashSet<((&str, &str), u64)> = HashSet::from_iter(tally.totals().iter().cloned());
    let mut expected = HashSet::new();
    expected.insert((("X", "B"), 1));
    expected.insert((("X", "A"), 1));
    expected.insert((("B", "A"), 1));
    assert_eq!(totals, expected);
}

#[test]
fn condorcet_closed_tally_stays_closed() {
    let mut tally = CondorcetTally::with_candidates(1, vec!["A", "B"]);
    assert!(matches!(tally.add(&["C", "A"]), Err(TallyError::UnknownCandidate)));
    assert_eq!(tally.candidates(), vec!["A", "B"]);
    // A candidate that is added by hand is known from then on.
    assert_eq!(tally.add_candidate("C"), 2);
    assert!(tally.add(&["C", "A"]).is_ok());
    assert!(matches!(tally.add(&["D"]), Err(TallyError::UnknownCandidate)));
    assert_eq!(tally.candidates(), vec!["A", "B", "C"]);
    assert_eq!(tally.total_weight(), 1);
}

#[test]
fn condorcet_unchecked_tally_counts_every_vote() {
    let mut tally = CondorcetTally::with_candidates(1, vec!["A", "B", "C"]).unchecked();
    // The unknown candidate is passed over; of the duplicate the first place counts.
    assert!(tally.add(&["X", "B", "A", "B"]).is_ok());
    let totals: HashSet<((&str, &str), u64)> = HashSet::from_iter(tally.totals().iter().cloned());
    let mut expected = HashSet::new();
    expected.insert((("B", "A"), 1));
    expected.insert((("B", "C"), 1));
    expected.insert((("A", "C"), 1));
    assert_eq!(totals, expected);
}

#[test]
fn condorcet_candidates_keep_their_ids() {
    let mut tally = CondorcetTally::<&str>::new(1);
    assert_eq!(tally.add_candidate("A"), 0);
    assert_eq!(tally.add_candidate("B"), 1);
    assert_eq!(tally.add_candidate("A"), 0);
    assert_eq!(tally.add_candidate("C"), 2);
    tally.add_candidates(vec!["B", "D", "D"]);
    assert_eq!(tally.candidates(), vec!["A", "B", "C", "D"]);
    let listed = CondorcetTally::with_candidates(1, vec!["x", "y", "x", "z"]);
    assert_eq!(listed.candidates(), vec!["x", "y", "z"]);
}

#[test]
fn condorcet_ranked_vote_ties_and_omissions() {
    let mut tally = CondorcetTally::with_candidates(1, vec!["A", "B", "C", "D"]);
    // A and B are tied above C; D is left out and comes behind all.
    tally.ranked_add_weighted(&[("A", 0), ("B", 0), ("C", 5)], 7).unwrap();
    let totals = tally.totals();
    assert_eq!(
        totals,
        vec![
            (("A", "C"), 7),
            (("A", "D"), 7),
            (("B", "C"), 7),
            (("B", "D"), 7),
            (("C", "D"), 7),
        ]
    );
    assert_eq!(tally.total_weight(), 7);
    let ranked = tally.ranked();
    assert_eq!(ranked.len(), 4);
    let rank_of = |name: &str| ranked.iter().find(|(c, _)| *c == name).unwrap().1;
    // No vote prefers A to B or B to A, so no edge joins them: each is a set of its own.
    assert!(rank_of("A") < rank_of("C"));
    assert!(rank_of("B") < rank_of("C"));
    assert!(rank_of("C") < rank_of("D"));
    assert_eq!(rank_of("D"), 3);
}

#[test]
fn condorcet_winner_is_alone_at_rank_zero() {
    let mut tally = CondorcetTally::with_candidates(1, vec!["A", "B", "C", "D"]);
    tally.add_weighted(&["D", "A", "B", "C"], 5).unwrap();
    tally.add_weighted(&["D", "B", "C", "A"], 4).unwrap();
    tally.add_weighted(&["C", "D", "A", "B"], 3).unwrap();
    let ranked = tally.ranked();
    assert_eq!(ranked[0], ("D", 0));
    assert!(ranked[1..].iter().all(|(_, rank)| *rank > 0));
    let winners = tally.winners();
    assert_eq!(winners.into_vec(), vec![("D", 0)]);
}

#[test]
fn condorcet_cycle_of_three_is_a_tie_at_rank_zero() {
    let mut tally = CondorcetTally::with_candidates(1, vec!["A", "B", "C"]);
    tally.add_weighted(&["A", "B", "C"], 4).unwrap();
    tally.add_weighted(&["B", "C", "A"], 4).unwrap();
    tally.add_weighted(&["C", "A", "B"], 4).unwrap();
    let ranked = tally.ranked();
    assert_eq!(ranked.len(), 3);
    assert!(ranked.iter().all(|(_, rank)| *rank == 0));
    let winners = tally.winners();
    assert_eq!(winners.len(), 3);
    assert!(winners.check_overflow());
}

#[test]
fn condorcet_ranks_have_no_gaps() {
    let mut tally = CondorcetTally::with_candidates(0, vec![1u8, 2, 3, 4, 5]);
    tally.add_weighted(&[1, 2, 3, 4, 5], 3).unwrap();
    tally.add_weighted(&[2, 3, 1, 5, 4], 3).unwrap();
    tally.add_weighted(&[3, 1, 2, 4, 5], 3).unwrap();
    let ranked = tally.ranked();
    let ranks: HashSet<usize> = ranked.iter().map(|(_, rank)| *rank).collect();
    let top = *ranks.iter().max().unwrap();
    assert!(top <= 4);
    for rank in 0..=top {
        assert!(ranks.contains(&rank));
    }
    // 1, 2 and 3 beat each other in a circle, and all beat 4 and 5.
    assert_eq!(ranks.len(), 3);
    // With no seats asked for, everybody is returned.
    assert_eq!(tally.winners().len(), 5);
}
