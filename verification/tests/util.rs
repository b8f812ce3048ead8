use tallystick::errors::ParseError;
use tallystick::util::{
    check_duplicates_ranked_vote, check_duplicates_transitive_vote, chars_of, find_char,
    is_whitespace, parse_line_into_vote, read_votes, string_of, trim_range, ParsedVote,
};
use tallystick::TallyError;

#[test]
fn duplicates_in_votes_are_found() {
    assert!(check_duplicates_transitive_vote(&["a", "b", "c"]).is_ok());
    assert!(check_duplicates_transitive_vote::<u8>(&[]).is_ok());
    assert!(matches!(
        check_duplicates_transitive_vote(&["a", "b", "a"]),
        Err(TallyError::VoteHasDuplicateCandidates)
    ));
    assert!(matches!(
        check_duplicates_transitive_vote(&[1, 2, 3, 3]),
        Err(TallyError::VoteHasDuplicateCandidates)
    ));
    assert!(check_duplicates_ranked_vote(&[("a", 0), ("b", 0)]).is_ok());
    assert!(matches!(
        check_duplicates_ranked_vote(&[("a", 0), ("b", 1), ("b", 2)]),
        Err(TallyError::VoteHasDuplicateCandidates)
    ));
    assert!(matches!(tallystick::check_duplicate(&[7, 8, 7]), Err(TallyError::VoteHasDuplicateCandidates)));
    assert!(tallystick::check_duplicate(&[7, 8, 9]).is_ok());
}

#[test]
fn parse_unranked_line_with_weight() {
    let (vote, weight) = parse_line_into_vote("  Alice > Bob>Carol * 12 ").unwrap();
    assert_eq!(weight, 12);
    match vote {
        ParsedVote::Unranked(names) => assert_eq!(names, vec!["Alice", "Bob", "Carol"]),
        ParsedVote::Ranked(_) => panic!("the vote has no tie"),
    }
}

#[test]
fn parse_ranked_line_without_weight() {
    let (vote, weight) = parse_line_into_vote("A = B > C = D > E").unwrap();
    assert_eq!(weight, 1);
    match vote {
        ParsedVote::Ranked(names) => assert_eq!(
            names,
            vec![
                ("A".to_string(), 0),
                ("B".to_string(), 0),
                ("C".to_string(), 1),
                ("D".to_string(), 1),
                ("E".to_string(), 2),
            ]
        ),
        ParsedVote::Unranked(_) => panic!("the vote has ties"),
    }
}

#[test]
fn parse_line_edge_cases() {
    // Only what stands between the first and the second star is the weight.
    let (_, weight) = parse_line_into_vote("A > B * +7 * junk").unwrap();
    assert_eq!(weight, 7);
    // A name may be empty where a separator ends it, not at the end of the line.
    let (vote, _) = parse_line_into_vote("A > > B >").unwrap();
    assert_eq!(
        vote.into_ranked(),
        vec![("A".to_string(), 0), ("".to_string(), 1), ("B".to_string(), 2)]
    );
    // An empty line is an unranked vote for nobody.
    let (vote, weight) = parse_line_into_vote("").unwrap();
    assert_eq!(weight, 1);
    assert!(vote.into_ranked().is_empty());
    // Names keep the white space inside them.
    let (vote, _) = parse_line_into_vote("Judge  Judy\t> Abe Vigoda").unwrap();
    assert_eq!(
        vote.into_ranked(),
        vec![("Judge  Judy".to_string(), 0), ("Abe Vigoda".to_string(), 1)]
    );
    let (vote, weight) = parse_line_into_vote("B * 40").unwrap();
    assert_eq!(weight, 40);
    assert_eq!(vote.into_ranked(), vec![("B".to_string(), 0)]);
    let (vote, weight) = parse_line_into_vote("A * 18446744073709551615").unwrap();
    assert_eq!(weight, u64::MAX);
    assert!(matches!(vote, ParsedVote::Unranked(_)));
}

#[test]
fn parse_line_with_a_bad_weight() {
    for (line, bad) in [
        ("A > B * x1", "x1"),
        ("A > B *", ""),
        ("A > B * 1 2", "1 2"),
        ("A > B * -3", "-3"),
        ("A > B * 1.5", "1.5"),
        ("A > B * +", "+"),
        ("A > B * 18446744073709551616", "18446744073709551616"),
        ("A > B ** 4", ""),
    ] {
        match parse_line_into_vote(line) {
            Err(ParseError::ParseError(text)) => assert_eq!(text, bad),
            other => panic!("{:?} was parsed as {:?}", line, other),
        }
    }
    let error = parse_line_into_vote("A * many").unwrap_err();
    assert_eq!(error.message(), "tallystick: error parsing numeric value many");
    assert_eq!(
        TallyError::UnknownCandidate.message(),
        "tallystick: vote contains unknown candidate"
    );
    assert_eq!(
        TallyError::VoteHasDuplicateCandidates.message(),
        "tallystick: vote contains duplicate candidates"
    );
}

#[test]
fn read_error_comes_from_an_io_error() {
    let cause = std::io::Error::new(std::io::ErrorKind::Other, "broken pipe");
    let error = ParseError::from(cause);
    assert!(matches!(error, ParseError::ReadError(_)));
    assert_eq!(error.message(), "tallystick: error reading vote data: broken pipe");
}

#[test]
fn read_votes_line_by_line() {
    let votes = read_votes("\n  A > B * 2\r\n\n \t \nB = A\nC").unwrap();
    assert_eq!(votes.len(), 3);
    assert_eq!(votes[0].1, 2);
    assert!(matches!(&votes[0].0, ParsedVote::Unranked(names) if names == &vec!["A", "B"]));
    assert!(matches!(&votes[1].0, ParsedVote::Ranked(names) if names == &vec![("B".to_string(), 0), ("A".to_string(), 0)]));
    assert!(matches!(&votes[2].0, ParsedVote::Unranked(names) if names == &vec!["C"]));
    assert!(read_votes("").unwrap().is_empty());
    assert!(read_votes("\n\n").unwrap().is_empty());
    match read_votes("A > B\nB > A * two\nC * three") {
        Err(ParseError::ParseError(text)) => assert_eq!(text, "two"),
        other => panic!("parsed as {:?}", other),
    }
}

#[test]
fn text_helpers() {
    let chars = chars_of(" \u{a0}a*b\u{3000}\n");
    assert_eq!(chars.len(), 7);
    assert_eq!(trim_range(&chars, 0, 7), (2, 5));
    assert_eq!(trim_range(&chars, 0, 2), (2, 2));
    assert_eq!(trim_range(&chars, 5, 7), (7, 7));
    assert_eq!(find_char(&chars, 0, 7, '*'), 3);
    assert_eq!(find_char(&chars, 4, 7, '*'), 7);
    assert_eq!(string_of(&chars, 2, 5), "a*b");
    assert_eq!(string_of(&chars, 3, 3), "");
    for c in ['\t', '\n', '\u{b}', '\u{c}', '\r', ' ', '\u{85}', '\u{a0}', '\u{1680}', '\u{2000}', '\u{200a}', '\u{2028}', '\u{2029}', '\u{202f}', '\u{205f}', '\u{3000}'] {
        assert!(is_whitespace(c));
        assert!(c.is_whitespace());
    }
    for c in ['a', '0', '*', '\u{8}', '\u{e}', '\u{200b}', '\u{180e}', '\u{feff}'] {
        assert!(!is_whitespace(c));
        assert!(!c.is_whitespace());
    }
}

#[test]
fn whitespace_is_what_the_standard_library_says() {
    let mut code = 0u32;
    while code <= 0x10ffff {
        if let Some(c) = char::from_u32(code) {
            assert_eq!(is_whitespace(c), c.is_whitespace());
        }
        code += 1;
    }
}
