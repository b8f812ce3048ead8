use tallystick::approval::DefaultApprovalTally;
use tallystick::plurality::{DefaultPluralityTally, PluralityTally};
use tallystick::score::ScoreTally;

#[test]
fn plurality_test() {
    // Election between Alice, Bob, and Cir
    let mut tally = PluralityTally::new(2);
    tally.add("Alice");
    tally.add("Cir");
    tally.add("Bob");
    tally.add("Alice");
    tally.add("Alice");
    tally.add("Bob");

    assert_eq!(tally.candidates().len(), 3);
    assert_eq!(tally.totals(), vec![("Alice", 3), ("Bob", 2), ("Cir", 1)]);
    assert_eq!(tally.ranked(), vec![("Alice", 0), ("Bob", 1), ("Cir", 2)]);

    let winners = tally.winners();
    assert_eq!(winners.contains(&"Alice"), true);
    assert_eq!(winners.contains(&"Bob"), true);
    assert_eq!(winners.contains(&"Cir"), false);
    assert_eq!(winners.contains(&"Rando"), false);

    // Election for the most popular integer
    let mut tally = DefaultPluralityTally::new(1);
    tally.add(99);
    tally.add(100);
    tally.add(99);
    tally.add(99);
    tally.add(1);
    tally.add(1);
    tally.add(2);
    tally.add(0);

    let winners = tally.winners();

    assert_eq!(winners.contains(&99), true);
    assert_eq!(winners.contains(&100), false);
    assert_eq!(winners.contains(&1), false);
    assert_eq!(winners.contains(&2), false);
    assert_eq!(winners.contains(&1000), false);

    // Create an election with capacity
    let mut tally = DefaultPluralityTally::with_capacity(1, 2);
    let candidate_id_1 = 123;
    let candidate_id_2 = 456;
    tally.add_ref(&candidate_id_1);
    tally.add_ref(&candidate_id_2);

    let winners = tally.winners();
    assert_eq!(winners.contains(&candidate_id_1), true);
    assert_eq!(winners.contains(&candidate_id_2), true);
}

#[test]
fn approval_lumen() {
    // From: https://courses.lumenlearning.com/wmopen-mathforliberalarts/chapter/introduction-approval-voting/

    let matrix = "The Matrix";
    let scream = "Scream";
    let titanic = "Titanic";

    let mut tally = DefaultApprovalTally::new(1);
    tally.add_weighted(vec![scream, matrix], 3);
    tally.add_weighted(vec![titanic, matrix], 2);
    tally.add(vec![titanic, scream, matrix]);
    tally.add(vec![matrix]);
    tally.add(vec![titanic, scream]);
    tally.add(vec![titanic]);
    tally.add(vec![scream]);

    let totals = tally.totals();
    assert_eq!(totals, vec![(matrix, 7), (scream, 6), (titanic, 5)]);

    let ranked = tally.ranked();
    assert_eq!(ranked, vec![(matrix, 0), (scream, 1), (titanic, 2)]);

    let winners = tally.winners();
    assert_eq!(winners.contains(&matrix), true);
    assert_eq!(winners.contains(&scream), false);
    assert_eq!(winners.contains(&titanic), false);
}

#[test]
fn score_basic() {
    let mut tally = ScoreTally::new(1);
    tally.add(vec![("Alice", 10), ("Bob", 4)]);
    tally.add_ref(&vec![("Alice", 2), ("Bob", 2)]);
    tally.add_weighted_ref(&vec![("Alice", 1), ("Bob", 1)], 5);

    let candidates = tally.candidates();
    assert_eq!(candidates.len(), 2);

    let totals = tally.totals();
    assert_eq!(totals, vec![("Alice", 17), ("Bob", 11)]);

    let ranked = tally.ranked();
    assert_eq!(ranked, vec![("Alice", 0), ("Bob", 1)]);

    let winners = tally.winners();
    assert_eq!(winners.is_empty(), false);
    assert_eq!(winners.check_overflow(), false);
    assert_eq!(winners.overflow(), Option::None);
    assert_eq!(winners.all(), vec!["Alice"]);
}

#[test]
fn score_wikipedia() {
    // From: https://en.wikipedia.org/wiki/Score_voting

    let mut tally = ScoreTally::with_capacity(1, 4);
    tally.add_weighted(vec![("Memphis", 10), ("Nashville", 4), ("Chattanooga", 2), ("Knoxville", 0)], 42);
    tally.add_weighted(vec![("Memphis", 0), ("Nashville", 10), ("Chattanooga", 4), ("Knoxville", 2)], 26);
    tally.add_weighted(vec![("Memphis", 0), ("Nashville", 6), ("Chattanooga", 10), ("Knoxville", 6)], 15);
    tally.add_weighted(vec![("Memphis", 0), ("Nashville", 5), ("Chattanooga", 7), ("Knoxville", 10)], 17);

    let candidates = tally.candidates();
    assert_eq!(candidates.len(), 4);

    let totals = tally.totals();
    assert_eq!(
        totals,
        vec![("Nashville", 603), ("Chattanooga", 457), ("Memphis", 420), ("Knoxville", 312)]
    );

    let ranked = tally.ranked();
    assert_eq!(ranked, vec![("Nashville", 0), ("Chattanooga", 1), ("Memphis", 2), ("Knoxville", 3)]);

    let winners = tally.winners();
    assert_eq!(winners.is_empty(), false);
    assert_eq!(winners.check_overflow(), false);
    assert_eq!(winners.overflow(), Option::None);
    assert_eq!(winners.all(), vec!["Nashville"]);
}

#[test]
fn plurality_ties_keep_the_order_of_first_votes() {
    let mut tally = PluralityTally::new(2);
    tally.add_weighted("late", 2);
    tally.add_weighted("first", 5);
    tally.add_weighted("second", 5);
    tally.add_weighted_ref(&"late", 3);
    tally.add_weighted("zero", 0);
    assert_eq!(tally.total_weight(), 15);
    assert_eq!(tally.candidates(), vec!["late", "first", "second", "zero"]);
    assert_eq!(tally.totals(), vec![("late", 5), ("first", 5), ("second", 5), ("zero", 0)]);
    assert_eq!(tally.ranked(), vec![("late", 0), ("first", 0), ("second", 0), ("zero", 1)]);
    let winners = tally.winners();
    assert_eq!(winners.len(), 3);
    assert!(winners.check_overflow());
    assert_eq!(winners.overflow(), Some(vec!["late", "first", "second"]));
    assert_eq!(tally.get_counted().len(), 4);
    assert!(PluralityTally::<u8>::new(1).winners().is_empty());
}

#[test]
fn approval_counts_each_candidate_of_a_vote() {
    let mut tally = DefaultApprovalTally::with_capacity(0, 3);
    tally.add_weighted_ref(&["a", "b"], 4);
    tally.add_ref(&["b", "c", "b"]);
    assert_eq!(tally.total_weight(), 11);
    assert_eq!(tally.candidates(), vec!["a", "b", "c"]);
    assert_eq!(tally.totals(), vec![("b", 6), ("a", 4), ("c", 1)]);
    assert_eq!(tally.winners().len(), 3);
}

#[test]
fn score_multiplies_scores_by_the_weight() {
    let mut tally = ScoreTally::new(2);
    tally.add_weighted(vec![("a", 3), ("b", 0)], 7);
    tally.add_weighted_ref(&[("b", 21)], 1);
    tally.add(vec![("c", 5)]);
    assert_eq!(tally.total_weight(), 47);
    assert_eq!(tally.totals(), vec![("a", 21), ("b", 21), ("c", 5)]);
    let ranked = tally.ranked();
    assert_eq!(ranked, vec![("a", 0), ("b", 0), ("c", 1)]);
    assert_eq!(tally.winners().into_vec(), vec![("a", 0), ("b", 0)]);
}
