use tallystick::borda::{BordaTally, DefaultBordaTally, Variant};
use tallystick::TallyError;

#[test]
fn borda_test() -> Result<(), TallyError> {
    // From: https://en.wikipedia.org/wiki/Borda_count
    let mut borda_tally = DefaultBordaTally::new(1, Variant::Borda);
    borda_tally.add_weighted(vec!["Andrew", "Catherine", "Brian", "David"], 51)?;
    borda_tally.add_weighted(vec!["Catherine", "Brian", "David", "Andrew"], 5)?;
    borda_tally.add_weighted(vec!["Brian", "Catherine", "David", "Andrew"], 23)?;
    borda_tally.add_weighted(vec!["David", "Catherine", "Brian", "Andrew"], 21)?;

    assert!(borda_tally.totals() == vec![("Catherine", 205), ("Andrew", 153), ("Brian", 151), ("David", 91)]);
    assert!(borda_tally.winners().into_unranked() == vec!["Catherine"]);

    let mut classic_tally = DefaultBordaTally::new(1, Variant::ClassicBorda);
    classic_tally.add_weighted(vec!["Andrew", "Catherine", "Brian", "David"], 51)?;
    classic_tally.add_weighted(vec!["Catherine", "Brian", "David", "Andrew"], 5)?;
    classic_tally.add_weighted(vec!["Brian", "Catherine", "David", "Andrew"], 23)?;
    classic_tally.add_weighted(vec!["David", "Catherine", "Brian", "Andrew"], 21)?;

    assert!(classic_tally.totals() == vec![("Catherine", 305), ("Andrew", 253), ("Brian", 251), ("David", 191)]);
    assert!(classic_tally.winners().into_unranked() == vec!["Catherine"]);

    let mut tally = DefaultBordaTally::new(1, Variant::Borda);
    tally.add_weighted(vec!["Memphis", "Nashville", "Chattanooga", "Knoxville"], 42)?;
    tally.add_weighted(vec!["Nashville", "Chattanooga", "Knoxville", "Memphis"], 26)?;
    tally.add_weighted(vec!["Chattanooga", "Knoxville", "Nashville", "Memphis"], 15)?;
    tally.add_weighted(vec!["Knoxville", "Chattanooga", "Nashville", "Memphis"], 17)?;
    assert!(tally.totals() == vec![("Nashville", 194), ("Chattanooga", 173), ("Memphis", 126), ("Knoxville", 107)]);
    assert!(tally.winners().into_unranked() == vec!["Nashville"]);

    // Testing Modified Borda
    let mut tally = DefaultBordaTally::new(1, Variant::ModifiedClassicBorda);
    tally.add(vec!["Alice", "Bob", "Carlos"])?;
    tally.add(vec!["Alice", "Bob"])?;
    tally.add(vec!["Bob", "Carlos"])?;
    assert!(tally.totals() == vec![("Alice", 5), ("Bob", 5), ("Carlos", 2)]);
    assert!(tally.ranked() == vec![("Alice", 0), ("Bob", 0), ("Carlos", 1)]);
    assert!(tally.candidates().len() == 3);

    // Points of one's own: every candidate on a vote gets 1 point, which makes the count an
    // approval count.
    let ones: Vec<Vec<u64>> = vec![vec![], vec![1], vec![1, 1], vec![1, 1, 1]];
    let mut tally = DefaultBordaTally::new(1, Variant::Borda);
    tally.add(vec!["Alice", "Bob", "Carlos"])?;
    tally.add(vec!["Alice", "Bob"])?;
    tally.add(vec!["Bob", "Carlos"])?;
    let counted = tally.get_counted_by(&ones).unwrap();
    assert!(counted.into_vec() == vec![("Bob", 3), ("Alice", 2), ("Carlos", 2)]);
    let counted = tally.get_counted_by(&ones).unwrap();
    assert!(counted.into_ranked(0).into_vec() == vec![("Bob", 0), ("Alice", 1), ("Carlos", 1)]);
    assert!(tally.candidates().len() == 3);

    // Testin adding ref
    let vote_1 = vec!["Alice", "Bob", "Carlos"];
    let vote_2 = vec!["Alice", "Bob"];
    let mut tally = DefaultBordaTally::with_capacity(1, Variant::Borda, 3);
    tally.add_ref(&vote_1)?;
    tally.add_ref(&vote_2)?;
    assert!(tally.totals() == vec![("Alice", 4), ("Bob", 2), ("Carlos", 0)]);
    assert!(tally.ranked() == vec![("Alice", 0), ("Bob", 1), ("Carlos", 2)]);
    assert!(tally.candidates().len() == 3);

    Ok(())
}

#[test]
#[should_panic]
fn borda_panic_test() {
    // Dowdall should panic when using integers
    let _points: u64 = Variant::Dowdall.points(0, 4, 4);
}

#[test]
fn borda_points_by_variant() {
    assert_eq!(Variant::Borda.points(0, 4, 2), 3);
    assert_eq!(Variant::Borda.points(3, 4, 4), 0);
    assert_eq!(Variant::ClassicBorda.points(0, 4, 2), 4);
    assert_eq!(Variant::ClassicBorda.points(3, 4, 4), 1);
    assert_eq!(Variant::ClassicBorda.points(4, 4, 4), 0);
    assert_eq!(Variant::ModifiedClassicBorda.points(0, 4, 2), 2);
    assert_eq!(Variant::ModifiedClassicBorda.points(1, 4, 2), 1);
    assert!(Variant::Borda.is_defined(3, 4, 4));
    assert!(!Variant::Borda.is_defined(4, 4, 4));
    assert!(Variant::ClassicBorda.is_defined(4, 4, 4));
    assert!(!Variant::ClassicBorda.is_defined(5, 4, 4));
    assert!(Variant::ModifiedClassicBorda.is_defined(2, 4, 2));
    assert!(!Variant::ModifiedClassicBorda.is_defined(3, 4, 2));
    assert!(!Variant::Dowdall.is_defined(0, 4, 4));
}

#[test]
fn borda_rejects_a_duplicate_and_keeps_its_state() {
    let mut tally = BordaTally::new(2, Variant::Borda);
    tally.add_weighted(vec!["a", "b"], 3).unwrap();
    let before = tally.totals();
    assert!(matches!(tally.add(vec!["a", "c", "a"]), Err(TallyError::VoteHasDuplicateCandidates)));
    assert!(matches!(tally.add_ref(&["c", "c"]), Err(TallyError::VoteHasDuplicateCandidates)));
    assert_eq!(tally.totals(), before);
    assert_eq!(tally.candidates(), vec!["a", "b"]);
    assert_eq!(tally.total_weight(), 3);
}

#[test]
fn borda_points_follow_the_number_of_candidates() {
    let mut tally = BordaTally::new(0, Variant::Borda);
    tally.add_weighted(vec!["a", "b"], 2).unwrap();
    assert_eq!(tally.totals(), vec![("a", 2), ("b", 0)]);
    // A third candidate raises the points of the places on the votes cast before.
    tally.add_weighted_ref(&["c"], 1).unwrap();
    assert_eq!(tally.totals(), vec![("a", 4), ("b", 2), ("c", 2)]);
    // The same vote again adds to its weight.
    tally.add_weighted(vec!["a", "b"], 5).unwrap();
    assert_eq!(tally.total_weight(), 8);
    assert_eq!(tally.totals(), vec![("a", 14), ("b", 7), ("c", 2)]);
    assert_eq!(tally.ranked(), vec![("a", 0), ("b", 1), ("c", 2)]);
    assert_eq!(tally.winners().len(), 3);
    assert!(tally.can_count());
    assert_eq!(tally.get_counted().len(), 3);
    let empty = BordaTally::<u8>::new(1, Variant::ClassicBorda);
    assert!(empty.can_count());
    assert!(empty.totals().is_empty());
    let mut heavy = BordaTally::new(1, Variant::Borda);
    heavy.add_weighted(vec![1u8, 2], u64::MAX / 2 + 1).unwrap();
    assert!(!heavy.can_count());
}

#[test]
fn borda_points_by_a_table() {
    let mut tally = BordaTally::new(2, Variant::ClassicBorda);
    tally.add_weighted(vec![1u8, 2, 3], 10).unwrap();
    tally.add_weighted(vec![3u8, 1], 4).unwrap();
    tally.add_weighted(vec![2u8], 1).unwrap();
    // The row of a number of marked candidates holds the points of the places.
    let table: Vec<Vec<u64>> = vec![vec![], vec![7], vec![5, 2], vec![9, 3, 1]];
    let counted = tally.get_counted_by(&table).unwrap();
    // 1: 10 * 9 + 4 * 2. 2: 10 * 3 + 1 * 7. 3: 10 * 1 + 4 * 5.
    assert_eq!(counted.0, vec![(1, 98), (2, 37), (3, 30)]);
    let winners = counted.into_ranked(2);
    assert_eq!(winners.into_vec(), vec![(1, 0), (2, 1)]);
    // A place that the table leaves out gets no points.
    let short: Vec<Vec<u64>> = vec![vec![], vec![7], vec![5]];
    let counted = tally.get_counted_by(&short).unwrap();
    assert_eq!(counted.0, vec![(1, 0), (2, 7), (3, 20)]);
    let counted = tally.get_counted_by(&[]).unwrap();
    assert_eq!(counted.0, vec![(1, 0), (2, 0), (3, 0)]);
    // Points beyond `u64` give no result.
    let large: Vec<Vec<u64>> = vec![vec![], vec![0], vec![0, 0], vec![u64::MAX / 2, 0, 0]];
    assert!(tally.get_counted_by(&large).is_none());
    let fits: Vec<Vec<u64>> = vec![vec![], vec![0], vec![0, 3], vec![(u64::MAX - 12) / 10, 0, 0]];
    let counted = tally.get_counted_by(&fits).unwrap();
    assert_eq!(counted.0[0], (1, (u64::MAX - 12) / 10 * 10 + 12));
    // The variant's own points are as before.
    assert_eq!(tally.totals(), vec![(1, 38), (2, 23), (3, 22)]);
}
