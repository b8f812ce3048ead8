use tallystick::condorcet::CondorcetTally;
use tallystick::names::{add_names, add_parsed, add_ranked_names, find_name, intern, intern_names, intern_ranked};
use tallystick::util::{parse_line_into_vote, read_votes, ParsedVote};
use tallystick::TallyError;

fn owned(names: &[&str]) -> Vec<String> {
    names.iter().map(|name| name.to_string()).collect()
}

#[test]
fn names_get_ids_in_the_order_of_first_sight() {
    let mut names: Vec<String> = Vec::new();
    assert_eq!(intern(&mut names, &"Alice".to_string()), 0);
    assert_eq!(intern(&mut names, &"Bob".to_string()), 1);
    assert_eq!(intern(&mut names, &"Alice".to_string()), 0);
    assert_eq!(names, owned(&["Alice", "Bob"]));
    assert_eq!(find_name(&names, &"Bob".to_string()), Some(1));
    assert_eq!(find_name(&names, &"Carol".to_string()), None);
    assert_eq!(find_name(&Vec::new(), &"".to_string()), None);
    // Names differ by their text: case and spaces count.
    assert_eq!(intern(&mut names, &"alice".to_string()), 2);
    assert_eq!(intern(&mut names, &"".to_string()), 3);
    assert_eq!(intern(&mut names, &"".to_string()), 3);
}

#[test]
fn names_of_a_list_get_their_ids() {
    let mut names = owned(&["A", "B"]);
    let ids = intern_names(&mut names, &owned(&["C", "A", "C", "D"]));
    assert_eq!(ids, vec![2, 0, 2, 3]);
    assert_eq!(names, owned(&["A", "B", "C", "D"]));
    let ids = intern_names(&mut names, &[]);
    assert!(ids.is_empty());
    assert_eq!(names.len(), 4);
    let ranked = vec![("E".to_string(), 5), ("B".to_string(), 0), ("E".to_string(), 7)];
    let ids = intern_ranked(&mut names, &ranked);
    assert_eq!(ids, vec![(4, 5), (1, 0), (4, 7)]);
    assert_eq!(names, owned(&["A", "B", "C", "D", "E"]));
}

#[test]
fn integers_are_counted_as_candidates() {
    let mut tally = CondorcetTally::<u32>::new(1);
    tally.add(&[30, 10, 20]).unwrap();
    tally.add(&[10, 30]).unwrap();
    tally.add(&[10, 20, 30]).unwrap();
    assert_eq!(tally.candidates(), vec![30, 10, 20]);
    assert_eq!(tally.winners().into_vec(), vec![(10, 0)]);
    assert!(matches!(tally.add(&[10, 10]), Err(TallyError::VoteHasDuplicateCandidates)));
}

#[test]
fn votes_of_names_are_counted_by_their_ids() {
    let mut names: Vec<String> = Vec::new();
    let mut tally = CondorcetTally::<usize>::new(1);
    add_names(&mut tally, &mut names, &owned(&["Bob", "Alice"]), 3).unwrap();
    add_ranked_names(&mut tally, &mut names, &[("Carol".to_string(), 0), ("Bob".to_string(), 1)], 2).unwrap();
    assert_eq!(names, owned(&["Bob", "Alice", "Carol"]));
    assert_eq!(tally.candidates(), vec![0, 1, 2]);
    assert_eq!(tally.total_weight(), 5);
    let mut totals = tally.totals();
    totals.sort();
    // Bob over Alice 3 + 2, Carol over Bob 2, Carol over Alice 2.
    assert_eq!(totals, vec![((0, 1), 5), ((2, 0), 2), ((2, 1), 2)]);
    // A name twice is the same id twice.
    let added = add_names(&mut tally, &mut names, &owned(&["Dan", "Alice", "Dan"]), 1);
    assert!(matches!(added, Err(TallyError::VoteHasDuplicateCandidates)));
    assert_eq!(tally.total_weight(), 5);
    assert_eq!(tally.candidates(), vec![0, 1, 2]);
    // Carol is ahead of both of the others on every vote that knew her.
    let winners = tally.winners().into_vec();
    assert_eq!(winners.len(), 1);
    assert_eq!(names[winners[0].candidate], "Carol");
    assert_eq!(winners[0].rank, 0);
}

#[test]
fn a_closed_tally_of_ids_rejects_a_new_name() {
    let mut names = owned(&["A", "B"]);
    let mut tally = CondorcetTally::with_candidates(1, vec![0usize, 1]);
    add_names(&mut tally, &mut names, &owned(&["B", "A"]), 1).unwrap();
    let added = add_names(&mut tally, &mut names, &owned(&["A", "C"]), 1);
    assert!(matches!(added, Err(TallyError::UnknownCandidate)));
    assert_eq!(tally.totals(), vec![((1, 0), 1)]);
    assert_eq!(tally.total_weight(), 1);
}

#[test]
fn parsed_votes_are_counted() {
    let mut names: Vec<String> = Vec::new();
    let mut tally = CondorcetTally::<usize>::new(1);
    let votes = read_votes("A > B > C * 2\nB = C > A\n\nC > A * 3\n").unwrap();
    assert_eq!(votes.len(), 3);
    for (vote, weight) in votes.iter() {
        add_parsed(&mut tally, &mut names, vote, *weight).unwrap();
    }
    assert_eq!(names, owned(&["A", "B", "C"]));
    assert_eq!(tally.total_weight(), 6);
    let mut totals = tally.totals();
    totals.sort();
    // A over B: 2 + 3. A over C: 2. B over A: 1. B over C: 2. C over A: 1 + 3. C over B: 3.
    assert_eq!(
        totals,
        vec![((0, 1), 5), ((0, 2), 2), ((1, 0), 1), ((1, 2), 2), ((2, 0), 4), ((2, 1), 3)]
    );
    let (vote, weight) = parse_line_into_vote("D > D").unwrap();
    assert!(matches!(vote, ParsedVote::Unranked(_)));
    let added = add_parsed(&mut tally, &mut names, &vote, weight);
    assert!(matches!(added, Err(TallyError::VoteHasDuplicateCandidates)));
    assert_eq!(tally.total_weight(), 6);
    assert_eq!(tally.candidates(), vec![0, 1, 2]);
}
