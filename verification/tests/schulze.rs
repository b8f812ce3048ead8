use tallystick::schulze::{DefaultSchulzeTally, SchulzeTally, Variant};
use tallystick::util;
use tallystick::TallyError;

#[test]
fn schulze_basic() -> Result<(), TallyError> {
    let mut tally = DefaultSchulzeTally::<&str>::new(1, Variant::Winning);
    tally.add_candidates(vec!["Notorious RBG", "Judge Judy", "Judge Dredd", "Abe Vigoda"]);

    tally.add(&vec!["Notorious RBG", "Judge Judy"])?;
    tally.add(&vec!["Judge Dredd"])?;
    tally.add(&vec!["Abe Vigoda", "Notorious RBG"])?;
    tally.add(&vec!["Notorious RBG", "Judge Dredd"])?;

    assert_eq!(tally.winners().into_unranked()[0], "Notorious RBG");

    Ok(())
}

#[test]
fn schulze_wikipedia() -> Result<(), TallyError> {
    // See: https://en.wikipedia.org/wiki/Schulze_method

    let mut tally = DefaultSchulzeTally::with_candidates(1, Variant::Winning, vec!["A", "B", "C", "D", "E"]);
    tally.add_weighted(&vec!["A", "C", "B", "E", "D"], 5)?;
    tally.add_weighted(&vec!["A", "D", "E", "C", "B"], 5)?;
    tally.add_weighted(&vec!["B", "E", "D", "A", "C"], 8)?;
    tally.add_weighted(&vec!["C", "A", "B", "E", "D"], 3)?;
    tally.add_weighted(&vec!["C", "A", "E", "B", "D"], 7)?;
    tally.add_weighted(&vec!["C", "B", "A", "D", "E"], 2)?;
    tally.add_weighted(&vec!["D", "C", "E", "B", "A"], 7)?;
    tally.add_weighted(&vec!["E", "B", "A", "D", "C"], 8)?;

    // Verify totals
    let totals = tally.totals();
    for (pairwise, total) in totals.iter() {
        match pairwise {
            ("A", "B") => assert_eq!(*total, 20),
            ("A", "C") => assert_eq!(*total, 26),
            ("A", "D") => assert_eq!(*total, 30),
            ("A", "E") => assert_eq!(*total, 22),

            ("B", "A") => assert_eq!(*total, 25),
            ("B", "C") => assert_eq!(*total, 16),
            ("B", "D") => assert_eq!(*total, 33),
            ("B", "E") => assert_eq!(*total, 18),

            ("C", "A") => assert_eq!(*total, 19),
            ("C", "B") => assert_eq!(*total, 29),
            ("C", "D") => assert_eq!(*total, 17),
            ("C", "E") => assert_eq!(*total, 24),

            ("D", "A") => assert_eq!(*total, 15),
            ("D", "B") => assert_eq!(*total, 12),
            ("D", "C") => assert_eq!(*total, 28),
            ("D", "E") => assert_eq!(*total, 14),

            ("E", "A") => assert_eq!(*total, 23),
            ("E", "B") => assert_eq!(*total, 27),
            ("E", "C") => assert_eq!(*total, 21),
            ("E", "D") => assert_eq!(*total, 31),

            _ => panic!("Invalid schulze total pairwise"),
        }
    }

    // Verify strongest paths:
    let strongest = tally.strongest_paths();
    for (pairwise, strength) in strongest.iter() {
        match pairwise {
            ("A", "B") => assert_eq!(*strength, 28),
            ("A", "C") => assert_eq!(*strength, 28),
            ("A", "D") => assert_eq!(*strength, 30),
            ("A", "E") => assert_eq!(*strength, 24),

            ("B", "A") => assert_eq!(*strength, 25),
            ("B", "C") => assert_eq!(*strength, 28),
            ("B", "D") => assert_eq!(*strength, 33),
            ("B", "E") => assert_eq!(*strength, 24),

            ("C", "A") => assert_eq!(*strength, 25),
            ("C", "B") => assert_eq!(*strength, 29),
            ("C", "D") => assert_eq!(*strength, 29),
            ("C", "E") => assert_eq!(*strength, 24),

            ("D", "A") => assert_eq!(*strength, 25),
            ("D", "B") => assert_eq!(*strength, 28),
            ("D", "C") => assert_eq!(*strength, 28),
            ("D", "E") => assert_eq!(*strength, 24),

            ("E", "A") => assert_eq!(*strength, 25),
            ("E", "B") => assert_eq!(*strength, 28),
            ("E", "C") => assert_eq!(*strength, 28),
            ("E", "D") => assert_eq!(*strength, 31),

            _ => panic!("Invalid schulze strength pairwise"),
        }
    }

    // Verify ranking
    let ranked = tally.ranked();
    assert_eq!(ranked, vec![("E", 0), ("A", 1), ("C", 2), ("B", 3), ("D", 4)]);

    Ok(())
}

#[test]
fn schulze_favorite_betrayal() -> Result<(), TallyError> {
    // See: https://rangevoting.org/WinningVotes.html

    // The scenario before any vote is changed
    let mut tally = DefaultSchulzeTally::with_candidates(1, Variant::Winning, vec!["A", "B", "C"]);
    tally.add_weighted(&vec!["B", "C", "A"], 9)?;
    tally.add_weighted(&vec!["C", "A", "B"], 6)?;
    tally.add_weighted(&vec!["A", "B", "C"], 5)?;
    assert_eq!(tally.winners().into_unranked()[0], "B");

    // Strategic vote change fully-betraying C with winning variant - betrayal works
    let mut tally = DefaultSchulzeTally::with_candidates(1, Variant::Winning, vec!["A", "B", "C"]);
    tally.add_weighted(&vec!["B", "C", "A"], 9)?;
    tally.add_weighted(&vec!["A", "C", "B"], 6)?;
    tally.add_weighted(&vec!["A", "B", "C"], 5)?;
    assert_eq!(tally.winners().into_unranked()[0], "A");

    // Strategic vote change fully-betraying C with margin variant - betrayal works
    let mut tally = DefaultSchulzeTally::with_candidates(1, Variant::Margin, vec!["A", "B", "C"]);
    tally.add_weighted(&vec!["B", "C", "A"], 9)?;
    tally.add_weighted(&vec!["A", "C", "B"], 6)?;
    tally.add_weighted(&vec!["A", "B", "C"], 5)?;
    assert_eq!(tally.winners().into_unranked()[0], "A");

    // Strategic vote change partly-betraying C with winning - betrayal works
    let mut tally = DefaultSchulzeTally::with_candidates(1, Variant::Winning, vec!["A", "B", "C"]);
    tally.add_weighted(&vec!["B", "C", "A"], 9)?;
    tally.ranked_add_weighted(&vec![("A", 0), ("C", 0), ("B", 1)], 6)?;
    tally.add_weighted(&vec!["A", "B", "C"], 5)?;
    assert_eq!(tally.winners().into_unranked()[0], "A");

    // Strategic vote change partly-betraying C with margin - betrayal fails
    let mut tally = DefaultSchulzeTally::with_candidates(1, Variant::Margin, vec!["A", "B", "C"]);
    tally.add_weighted(&vec!["B", "C", "A"], 9)?;
    tally.ranked_add_weighted(&vec![("A", 0), ("C", 0), ("B", 1)], 6)?;
    tally.add_weighted(&vec!["A", "B", "C"], 5)?;
    assert_eq!(tally.winners().into_unranked()[0], "B");

    Ok(())
}

#[test]
fn schulze_example_1() -> Result<(), TallyError> {
    // See: https://arxiv.org/pdf/1804.02973.pdf (example 1)
    let candidates = vec!["A".to_string(), "B".to_string(), "C".to_string(), "D".to_string()];

    let votes_raw = "
    A > C > D > B * 8
    B > A > D > C * 2
    C > D > B > A * 4
    D > B > A > C * 4
    D > C > B > A * 3
    ";

    let mut votes = util::read_votes(votes_raw).unwrap();

    let mut tally = DefaultSchulzeTally::with_candidates(1, Variant::Winning, candidates.clone());
    for (vote, weight) in votes.drain(..) {
        let vote = vote.into_ranked();
        tally.ranked_add_weighted(&vote, weight)?;
    }

    assert_eq!(tally.winners().into_unranked()[0], "D".to_string());

    Ok(())
}

#[test]
fn schulze_example_2() -> Result<(), TallyError> {
    // See: https://arxiv.org/pdf/1804.02973.pdf (example 2)
    let candidates = vec!["A".to_string(), "B".to_string(), "C".to_string(), "D".to_string()];

    let votes_raw = "
    A > C > D > B * 3
    B > A > C > D * 9
    C > D > A > B * 8
    D > A > B > C * 5
    D > B > C > A * 5
    ";

    let mut votes = util::read_votes(votes_raw).unwrap();

    let mut tally = DefaultSchulzeTally::with_candidates(1, Variant::Winning, candidates.clone());
    for (vote, weight) in votes.drain(..) {
        let vote = vote.into_ranked();
        tally.ranked_add_weighted(&vote, weight)?;
    }

    assert_eq!(tally.winners().into_unranked()[0], "C".to_string());

    Ok(())
}

#[test]
fn schulze_example_3() -> Result<(), TallyError> {
    // See: https://arxiv.org/pdf/1804.02973.pdf (example 3)
    let candidates = vec!["A".to_string(), "B".to_string(), "C".to_string(), "D".to_string(), "E".to_string()];

    let votes_raw = "
    A > C > B > E > D * 5
    A > D > E > C > B * 5
    B > E > D > A > C * 8
    C > A > B > E > D * 3
    C > A > E > B > D * 7
    C > B > A > D > E * 2
    D > C > E > B > A * 7
    E > B > A > D > C * 8
    ";

    let mut votes = util::read_votes(votes_raw).unwrap();

    let mut tally = DefaultSchulzeTally::with_candidates(1, Variant::Winning, candidates.clone());
    for (vote, weight) in votes.drain(..) {
        let vote = vote.into_ranked();
        tally.ranked_add_weighted(&vote, weight)?;
    }

    assert_eq!(tally.winners().into_unranked()[0], "E".to_string());

    Ok(())
}

#[test]
fn schulze_example_4() -> Result<(), TallyError> {
    // See: https://arxiv.org/pdf/1804.02973.pdf (example 4)
    let candidates = vec!["A".to_string(), "B".to_string(), "C".to_string(), "D".to_string()];

    let votes_raw = "
    A > B > C > D * 3
    C > B > D > A * 2
    D > A > B > C * 2
    D > B > C > A * 2
    ";

    let mut votes = util::read_votes(votes_raw).unwrap();

    let mut tally = DefaultSchulzeTally::with_candidates(1, Variant::Winning, candidates.clone());
    for (vote, weight) in votes.drain(..) {
        let vote = vote.into_ranked();
        tally.ranked_add_weighted(&vote, weight)?;
    }

    // Verify winners - "B" and "D" are tied.
    let winners = tally.winners().into_unranked();
    assert!(winners.contains(&"B".to_owned()) && winners.contains(&"D".to_owned()));
    assert!(winners.len() == 2);

    Ok(())
}

#[test]
fn schulze_example_5() -> Result<(), TallyError> {
    // See Example 5: https://arxiv.org/pdf/1804.02973.pdf

    let mut tally = DefaultSchulzeTally::with_candidates(1, Variant::Winning, vec!["a", "b", "c", "d"]);
    tally.add_weighted(&vec!["a", "b", "c", "d"], 12)?;
    tally.add_weighted(&vec!["a", "d", "b", "c"], 6)?;
    tally.add_weighted(&vec!["b", "c", "d", "a"], 9)?;
    tally.add_weighted(&vec!["c", "d", "a", "b"], 15)?;
    tally.add_weighted(&vec!["d", "b", "a", "c"], 21)?;

    // Verify ranking - "a" and "b" are tied.
    let ranked = tally.ranked();
    assert!(ranked == vec![("d", 0), ("a", 1), ("b", 1), ("c", 2)] || ranked == vec![("d", 0), ("b", 1), ("a", 1), ("c", 2)]);

    Ok(())
}

#[test]
fn schulze_example_6() -> Result<(), TallyError> {
    // See: https://arxiv.org/pdf/1804.02973.pdf (example 6)
    let candidates = vec!["A".to_string(), "B".to_string(), "C".to_string(), "D".to_string()];

    let votes_raw = "
    A > C > D * 6
    B > A > D
    C > B > D * 3
    D > B > A * 3
    D > C > B * 2
    ";

    let mut votes = util::read_votes(votes_raw).unwrap();

    let mut tally = DefaultSchulzeTally::with_candidates(1, Variant::Winning, candidates.clone());
    for (vote, weight) in votes.drain(..) {
        let vote = vote.into_ranked();
        tally.ranked_add_weighted(&vote, weight)?;
    }

    // Verify winners - "A" and "D" are tied.
    let winners = tally.winners().into_unranked();
    assert!(winners.contains(&"A".to_owned()) && winners.contains(&"D".to_owned()));
    assert!(winners.len() == 2);

    Ok(())
}

#[test]
fn schulze_example_7() -> Result<(), TallyError> {
    // See: https://arxiv.org/pdf/1804.02973.pdf (example 7)
    let candidates = vec![
        "A".to_string(),
        "B".to_string(),
        "C".to_string(),
        "D".to_string(),
        "E".to_string(),
        "F".to_string(),
    ];

    let votes_raw = "
    A > D > E > B > C > F * 3
    B > F > E > C > D > A * 3
    C > A > B > F > D > E * 4
    D > B > C > E > F > A * 1
    D > E > F > A > B > C * 4
    E > C > B > D > F > A * 2
    F > A > C > D > B > E * 2
    ";

    let mut votes = util::read_votes(votes_raw).unwrap();

    let mut tally = DefaultSchulzeTally::with_candidates(1, Variant::Winning, candidates.clone());
    for (vote, weight) in votes.drain(..) {
        let vote = vote.into_ranked();
        tally.ranked_add_weighted(&vote, weight)?;
    }

    // Verify winners - "A"
    assert_eq!(tally.winners().into_unranked()[0], "A".to_string());

    // Add additional votes
    tally.add_weighted(
        &vec![
            "A".to_string(),
            "E".to_string(),
            "F".to_string(),
            "C".to_string(),
            "B".to_string(),
            "D".to_string(),
        ],
        2,
    )?;

    // Verify winners - "D"
    assert_eq!(tally.winners().into_unranked()[0], "D".to_string());

    Ok(())
}

#[test]
fn schulze_example_10() -> Result<(), TallyError> {
    // See: https://github.com/julien-boudry/Condorcet/blob/master/Tests/lib/Algo/Methods/SchulzeTest.php#L219-L252
    // See: https://arxiv.org/pdf/1804.02973.pdf (Example 10)

    let candidates = vec!["A".to_string(), "B".to_string(), "C".to_string(), "D".to_string()];

    let votes_raw = "
    A > B > C > D * 6
    A = B * 8
    A = C * 8
    A = C > D * 18
    A = C = D * 8
    B * 40
    C > B > D * 4
    C > D > A * 9
    C = D * 8
    D > A > B * 14
    D > B > C * 11
    D > C > A * 4";

    let votes = util::read_votes(votes_raw).unwrap();

    // Margin
    let mut tally = DefaultSchulzeTally::with_candidates(1, Variant::Margin, candidates.clone());
    for (vote, weight) in votes.iter() {
        match vote {
            util::ParsedVote::Ranked(v) => tally.ranked_add_weighted(v, *weight)?,
            util::ParsedVote::Unranked(v) => tally.add_weighted(v, *weight)?,
        }
    }
    assert_eq!(tally.winners().into_unranked()[0], "A".to_string());

    // Winning
    let mut tally = DefaultSchulzeTally::with_candidates(1, Variant::Winning, candidates.clone());
    for (vote, weight) in votes.iter() {
        match vote {
            util::ParsedVote::Ranked(v) => tally.ranked_add_weighted(v, *weight)?,
            util::ParsedVote::Unranked(v) => tally.add_weighted(v, *weight)?,
        }
    }
    assert_eq!(tally.winners().into_unranked()[0], "D".to_string());

    Ok(())
}

#[test]
fn schulze_strongest_paths_of_three() {
    // A beats B 3 to 1, B beats C 3 to 1, A beats C 4 to 0.
    let mut tally = SchulzeTally::with_candidates(1, Variant::Margin, vec!["A", "B", "C"]);
    tally.add_weighted(&["A", "B", "C"], 3).unwrap();
    tally.add_weighted(&["B", "A", "C"], 0).unwrap();
    tally.add_weighted(&["C", "A", "B"], 0).unwrap();
    tally.add_weighted(&["A", "C", "B"], 0).unwrap();
    tally.add_weighted(&["B", "C", "A"], 0).unwrap();
    tally.ranked_add_weighted(&[("A", 0), ("C", 0), ("B", 1)], 1).unwrap();
    assert_eq!(
        tally.totals(),
        vec![
            (("A", "B"), 4),
            (("A", "C"), 3),
            (("B", "A"), 0),
            (("B", "C"), 3),
            (("C", "A"), 0),
            (("C", "B"), 1),
        ]
    );
    assert_eq!(
        tally.strongest_paths(),
        vec![
            (("A", "B"), 4),
            (("A", "C"), 3),
            (("B", "A"), 0),
            (("B", "C"), 2),
            (("C", "A"), 0),
            (("C", "B"), 0),
        ]
    );
    assert_eq!(tally.ranked(), vec![("A", 0), ("B", 1), ("C", 2)]);

    let mut winning = SchulzeTally::with_candidates(1, Variant::Winning, vec!["A", "B", "C"]);
    winning.add_weighted(&["A", "B", "C"], 3).unwrap();
    winning.ranked_add_weighted(&[("A", 0), ("C", 0), ("B", 1)], 1).unwrap();
    assert_eq!(
        winning.strongest_paths(),
        vec![
            (("A", "B"), 4),
            (("A", "C"), 3),
            (("B", "A"), 0),
            (("B", "C"), 3),
            (("C", "A"), 0),
            (("C", "B"), 0),
        ]
    );
}

#[test]
fn schulze_path_by_way_of_a_third_candidate() {
    // A beats B, B beats C, and C beats A: a circle in which the weakest link loses.
    let mut tally = SchulzeTally::with_candidates(0, Variant::Winning, vec!["A", "B", "C"]);
    tally.add_weighted(&["A", "B", "C"], 5).unwrap();
    tally.add_weighted(&["B", "C", "A"], 4).unwrap();
    tally.add_weighted(&["C", "A", "B"], 3).unwrap();
    // A over B 8, B over C 9, C over A 7.
    let strongest = tally.strongest_paths();
    let path = |from: &str, to: &str| strongest.iter().find(|((a, b), _)| *a == from && *b == to).unwrap().1;
    assert_eq!(path("A", "B"), 8);
    assert_eq!(path("B", "C"), 9);
    assert_eq!(path("C", "A"), 7);
    assert_eq!(path("A", "C"), 8);
    assert_eq!(path("B", "A"), 7);
    assert_eq!(path("C", "B"), 7);
    assert_eq!(tally.ranked(), vec![("A", 0), ("B", 1), ("C", 2)]);
}

#[test]
fn schulze_condorcet_winner_is_alone_at_rank_zero() {
    for variant in [Variant::Winning, Variant::Margin] {
        let mut tally = SchulzeTally::with_candidates(1, variant, vec!["A", "B", "C", "D"]);
        tally.add_weighted(&["D", "A", "B", "C"], 5).unwrap();
        tally.add_weighted(&["D", "B", "C", "A"], 4).unwrap();
        tally.add_weighted(&["C", "D", "A", "B"], 3).unwrap();
        let ranked = tally.ranked();
        assert_eq!(ranked[0], ("D", 0));
        assert!(ranked[1..].iter().all(|(_, rank)| *rank > 0));
        assert_eq!(tally.winners().into_vec(), vec![("D", 0)]);
    }
}

#[test]
fn schulze_ranked_is_the_same_on_every_call_and_has_no_gaps() {
    let mut tally = SchulzeTally::with_candidates(2, Variant::Margin, vec![1u32, 2, 3, 4, 5]);
    tally.add_weighted(&[1, 2, 3, 4, 5], 3).unwrap();
    tally.add_weighted(&[2, 3, 1, 5, 4], 3).unwrap();
    tally.add_weighted(&[3, 1, 2, 4, 5], 3).unwrap();
    let first = tally.ranked();
    assert_eq!(first, tally.ranked());
    assert_eq!(tally.winners().into_vec(), tally.winners().into_vec());
    assert_eq!(first, vec![(1, 0), (2, 0), (3, 0), (4, 1), (5, 2)]);
    let winners = tally.winners();
    assert_eq!(winners.len(), 3);
    assert!(winners.check_overflow());
}

#[test]
fn schulze_of_one_candidate_and_of_none() {
    let mut tally = SchulzeTally::with_candidates(1, Variant::Winning, vec!["A"]);
    tally.add(&["A"]).unwrap();
    assert_eq!(tally.ranked(), vec![("A", 0)]);
    assert!(tally.strongest_paths().is_empty());
    let empty = SchulzeTally::<&str>::new(1, Variant::Margin);
    assert!(empty.ranked().is_empty());
    assert!(empty.winners().is_empty());
}

#[test]
fn schulze_forwards_to_the_pairwise_tally() {
    let mut tally = SchulzeTally::<&str>::new(1, Variant::Winning);
    assert_eq!(tally.add_candidate("A"), 0);
    assert_eq!(tally.add_candidate("B"), 1);
    assert_eq!(tally.add_candidate("A"), 0);
    assert!(matches!(tally.add(&["A", "A"]), Err(TallyError::VoteHasDuplicateCandidates)));
    assert!(tally.totals().is_empty());
    assert_eq!(tally.total_weight(), 0);
    tally.ranked_add(&[("B", 0), ("A", 1)]).unwrap();
    assert_eq!(tally.total_weight(), 1);
    assert_eq!(tally.candidates(), vec!["A", "B"]);
    let graph = tally.build_graph();
    assert_eq!(graph.node_count(), 2);
    assert_eq!(graph.edge_count(), 1);
    assert_eq!(graph.edges(0)[0].weight(), (1, 0));
    let mut free = tally.unchecked();
    assert!(free.add(&["A", "A", "Z"]).is_ok());
    assert!(SchulzeTally::<u8>::check_types(&Variant::Winning));
    assert!(SchulzeTally::<u8>::check_types(&Variant::Margin));
    assert!(!SchulzeTally::<u8>::check_types(&Variant::Ratio));
}

#[test]
fn schulze_open_tally_registers_the_candidates_of_a_vote() {
    let mut tally = DefaultSchulzeTally::<&str>::new(1, Variant::Winning);
    assert!(tally.add(&["A", "B"]).is_ok());
    assert!(tally.ranked_add_weighted(&[("C", 0), ("B", 1)], 2).is_ok());
    assert_eq!(tally.candidates(), vec!["A", "B", "C"]);
    assert_eq!(tally.total_weight(), 3);
    let mut totals = tally.totals();
    totals.sort();
    assert_eq!(totals, vec![(("A", "B"), 1), (("B", "A"), 2), (("C", "A"), 2), (("C", "B"), 2)]);
    assert_eq!(tally.ranked(), vec![("C", 0), ("B", 1), ("A", 2)]);
    assert_eq!(tally.winners().into_vec(), vec![("C", 0)]);
    // Only a duplicate is rejected, and it leaves the tally as it was.
    let added = tally.add(&["Z", "A", "Z"]);
    assert!(matches!(added, Err(TallyError::VoteHasDuplicateCandidates)));
    assert_eq!(tally.candidates(), vec!["A", "B", "C"]);
    assert_eq!(tally.total_weight(), 3);
}

#[test]
fn schulze_closed_tally_rejects_an_unknown_candidate() {
    let mut tally = SchulzeTally::with_candidates(1, Variant::Winning, vec!["A", "B"]);
    assert!(matches!(tally.ranked_add(&[("C", 0)]), Err(TallyError::UnknownCandidate)));
    assert!(matches!(tally.add(&["A", "C", "A"]), Err(TallyError::UnknownCandidate)));
    assert!(matches!(tally.add(&["A", "B", "A"]), Err(TallyError::VoteHasDuplicateCandidates)));
    assert!(tally.totals().is_empty());
    assert_eq!(tally.total_weight(), 0);
    assert_eq!(tally.candidates(), vec!["A", "B"]);
}
