//! Checks on votes, and the parsing of votes written as text.

use crate::candidate::{distinct, lawful_eq, position, same_candidate};
use crate::errors::{ParseError, TallyError};
use vstd::prelude::*;

verus! {

/// The candidates of a ranked vote, in the vote's order.
pub open spec fn voted<T>(vote: Seq<(T, u32)>) -> Seq<T> {
    Seq::new(vote.len(), |i: int| vote[i].0)
}

/// Checks that no candidate occurs twice in a vote that lists candidates in the order of
/// preference.
pub fn check_duplicates_transitive_vote<T: Eq>(vote: &[T]) -> (checked: Result<(), TallyError>)
    requires
        lawful_eq::<T>(),
    ensures
        checked == if distinct(vote@) {
            Ok::<(), TallyError>(())
        } else {
            Err::<(), TallyError>(TallyError::VoteHasDuplicateCandidates)
        },
{
    let mut i: usize = 0;
    while i < vote.len()
        invariant
            lawful_eq::<T>(),
            0 <= i <= vote@.len(),
            forall|a: int, b: int| 0 <= a < i && a < b < vote@.len() ==> vote@[a] != vote@[b],
        decreases vote@.len() - i,
    {
        let mut j: usize = i + 1;
        while j < vote.len()
            invariant
                lawful_eq::<T>(),
                0 <= i < j <= vote@.len(),
                forall|b: int| i < b < j ==> vote@[i as int] != vote@[b],
            decreases vote@.len() - j,
        {
            if same_candidate(&vote[j], &vote[i]) {
                return Err(TallyError::VoteHasDuplicateCandidates);
            }
            j += 1;
        }
        i += 1;
    }
    Ok(())
}

/// Checks that no candidate occurs twice in a vote that gives each candidate a rank.
pub fn check_duplicates_ranked_vote<T: Eq>(vote: &[(T, u32)]) -> (checked: Result<
    (),
    TallyError,
>)
    requires
        lawful_eq::<T>(),
    ensures
        checked == if distinct(voted(vote@)) {
            Ok::<(), TallyError>(())
        } else {
            Err::<(), TallyError>(TallyError::VoteHasDuplicateCandidates)
        },
{
    let ghost names = voted(vote@);
    let mut i: usize = 0;
    while i < vote.len()
        invariant
            lawful_eq::<T>(),
            names == voted(vote@),
            0 <= i <= vote@.len(),
            forall|a: int, b: int| 0 <= a < i && a < b < names.len() ==> names[a] != names[b],
        decreases vote@.len() - i,
    {
        let mut j: usize = i + 1;
        while j < vote.len()
            invariant
                lawful_eq::<T>(),
                names == voted(vote@),
                0 <= i < j <= vote@.len(),
                forall|b: int| i < b < j ==> names[i as int] != names[b],
            decreases vote@.len() - j,
        {
            if same_candidate(&vote[j].0, &vote[i].0) {
                assert(names[j as int] == names[i as int]);
                return Err(TallyError::VoteHasDuplicateCandidates);
            }
            j += 1;
        }
        i += 1;
    }
    Ok(())
}

/// Whether a character is white space: one that Unicode gives the property White_Space.
pub open spec fn is_space(c: char) -> bool {
    let code = c as u32;
    ||| 0x09 <= code <= 0x0D
    ||| code == 0x20
    ||| code == 0x85
    ||| code == 0xA0
    ||| code == 0x1680
    ||| 0x2000 <= code <= 0x200A
    ||| code == 0x2028
    ||| code == 0x2029
    ||| code == 0x202F
    ||| code == 0x205F
    ||| code == 0x3000
}

/// Whether a character is white space.
pub fn is_whitespace(c: char) -> (space: bool)
    ensures
        space == is_space(c),
{
    let code = c as u32;
    (0x09 <= code && code <= 0x0D) || code == 0x20 || code == 0x85 || code == 0xA0 || code
        == 0x1680 || (0x2000 <= code && code <= 0x200A) || code == 0x2028 || code == 0x2029
        || code == 0x202F || code == 0x205F || code == 0x3000
}

/// The number of white-space characters at the start of a text.
pub open spec fn leading_spaces(text: Seq<char>) -> nat
    decreases text.len(),
{
    if text.len() > 0 && is_space(text[0]) {
        1 + leading_spaces(text.skip(1))
    } else {
        0
    }
}

/// The number of white-space characters at the end of a text.
pub open spec fn trailing_spaces(text: Seq<char>) -> nat
    decreases text.len(),
{
    if text.len() > 0 && is_space(text.last()) {
        1 + trailing_spaces(text.drop_last())
    } else {
        0
    }
}

/// A text without the white space at its start and at its end.
pub open spec fn trimmed(text: Seq<char>) -> Seq<char> {
    let rest = text.skip(leading_spaces(text) as int);
    rest.take(rest.len() - trailing_spaces(rest))
}

/// Where the white space at the start of a text ends: in a text that starts with `count`
/// white-space characters and goes on with another character, or ends there.
pub proof fn lemma_leading_spaces_is(text: Seq<char>, count: nat)
    requires
        count <= text.len(),
        forall|k: int| 0 <= k < count ==> is_space(#[trigger] text[k]),
        count < text.len() ==> !is_space(text[count as int]),
    ensures
        leading_spaces(text) == count,
    decreases count,
{
    if count > 0 {
        let rest = text.skip(1);
        assert forall|k: int| 0 <= k < count - 1 implies is_space(#[trigger] rest[k]) by {
            assert(rest[k] == text[k + 1]);
        }
        if count - 1 < rest.len() {
            assert(rest[count - 1] == text[count as int]);
        }
        lemma_leading_spaces_is(rest, (count - 1) as nat);
    }
}

/// Where the white space at the end of a text starts: in a text that ends with `count`
/// white-space characters behind another character, or consists of them.
pub proof fn lemma_trailing_spaces_is(text: Seq<char>, count: nat)
    requires
        count <= text.len(),
        forall|k: int| text.len() - count <= k < text.len() ==> is_space(#[trigger] text[k]),
        count < text.len() ==> !is_space(text[text.len() - count - 1]),
    ensures
        trailing_spaces(text) == count,
    decreases count,
{
    if count > 0 {
        let rest = text.drop_last();
        assert forall|k: int| rest.len() - (count - 1) <= k < rest.len() implies is_space(
            #[trigger] rest[k],
        ) by {
            assert(rest[k] == text[k]);
        }
        if count - 1 < rest.len() {
            assert(rest[rest.len() - (count - 1) - 1] == text[text.len() - count - 1]);
        }
        lemma_trailing_spaces_is(rest, (count - 1) as nat);
    }
}

/// The part of `chars[from..to]` that is left when the white space at its start and at its
/// end is taken away, as a range of positions.
pub fn trim_range(chars: &Vec<char>, from: usize, to: usize) -> (range: (usize, usize))
    requires
        from <= to <= chars@.len(),
    ensures
        from <= range.0 <= range.1 <= to,
        chars@.subrange(range.0 as int, range.1 as int) == trimmed(
            chars@.subrange(from as int, to as int),
        ),
{
    let ghost text = chars@.subrange(from as int, to as int);
    let mut start: usize = from;
    while start < to && is_whitespace(chars[start])
        invariant
            from <= start <= to <= chars@.len(),
            forall|k: int| from <= k < start ==> is_space(#[trigger] chars@[k]),
        decreases to - start,
    {
        start += 1;
    }
    let mut end: usize = to;
    while end > start && is_whitespace(chars[end - 1])
        invariant
            from <= start <= end <= to <= chars@.len(),
            forall|k: int| end <= k < to ==> is_space(#[trigger] chars@[k]),
        decreases end - start,
    {
        end -= 1;
    }
    proof {
        assert forall|k: int| 0 <= k < start - from implies is_space(#[trigger] text[k]) by {
            assert(text[k] == chars@[from + k]);
        }
        lemma_leading_spaces_is(text, (start - from) as nat);
        let rest = text.skip(start - from);
        assert(rest =~= chars@.subrange(start as int, to as int));
        assert forall|k: int| rest.len() - (to - end) <= k < rest.len() implies is_space(
            #[trigger] rest[k],
        ) by {
            assert(rest[k] == chars@[start + k]);
        }
        lemma_trailing_spaces_is(rest, (to - end) as nat);
        assert(chars@.subrange(start as int, end as int) =~= rest.take(
            rest.len() - trailing_spaces(rest),
        ));
    }
    (start, end)
}

/// `String::push`, which appends the character to the end of the string.
pub assume_specification[ String::push ](text: &mut String, c: char)
    ensures
        final(text)@ == old(text)@.push(c),
;

/// The characters `chars[from..to]` as a string.
pub fn string_of(chars: &Vec<char>, from: usize, to: usize) -> (text: String)
    requires
        from <= to <= chars@.len(),
    ensures
        text@ == chars@.subrange(from as int, to as int),
{
    let mut text = String::new();
    let mut k: usize = from;
    while k < to
        invariant
            from <= k <= to <= chars@.len(),
            text@ == chars@.subrange(from as int, k as int),
        decreases to - k,
    {
        text.push(chars[k]);
        proof {
            assert(text@ =~= chars@.subrange(from as int, k + 1));
        }
        k += 1;
    }
    text
}

/// The number that a sequence of decimal digits stands for; of a sequence that holds
/// another character, nothing is said.
pub open spec fn digits_value(digits: Seq<char>) -> nat
    decreases digits.len(),
{
    if digits.len() == 0 {
        0
    } else {
        10 * digits_value(digits.drop_last()) + (digits.last() as u32 - 0x30) as nat
    }
}

/// Whether a character is one of the decimal digits `0` to `9`.
pub open spec fn is_digit(c: char) -> bool {
    0x30 <= c as u32 <= 0x39
}

/// The number that a text stands for: the text is one or more decimal digits, with or
/// without a `+` before them, and the number does not exceed `u64::MAX`. Of any other
/// text, `None`.
pub open spec fn decimal(text: Seq<char>) -> Option<u64> {
    let digits = if text.len() > 0 && text[0] == '+' {
        text.skip(1)
    } else {
        text
    };
    if digits.len() > 0 && (forall|k: int| 0 <= k < digits.len() ==> is_digit(#[trigger] digits[k]))
        && digits_value(digits) <= u64::MAX {
        Some(digits_value(digits) as u64)
    } else {
        None
    }
}

/// Reads a decimal number with `num_traits::Num::from_str_radix`, radix 10, which for `u64`
/// is the function of that name of the standard library. That function takes an optional
/// `+` sign followed by digits only, and fails on an empty text, on any other character,
/// white space included, and on a number that does not fit.
#[verifier::external_body]
fn parse_decimal(text: &str) -> (number: Option<u64>)
    ensures
        number == decimal(text@),
{
    <u64 as num_traits::Num>::from_str_radix(text, 10).ok()
}

/// The first position of `wanted` in `chars[from..to]`, or `to` where it does not occur
/// there.
pub fn find_char(chars: &Vec<char>, from: usize, to: usize, wanted: char) -> (at: usize)
    requires
        from <= to <= chars@.len(),
    ensures
        from <= at <= to,
        at - from == position(chars@.subrange(from as int, to as int), wanted),
{
    let ghost text = chars@.subrange(from as int, to as int);
    let mut at: usize = from;
    while at < to && chars[at] != wanted
        invariant
            from <= at <= to <= chars@.len(),
            forall|k: int| from <= k < at ==> chars@[k] != wanted,
        decreases to - at,
    {
        at += 1;
    }
    proof {
        crate::candidate::lemma_position(text, wanted);
        let found = position(text, wanted);
        if found < at - from {
            assert(text[found] == chars@[from + found]);
        }
        if at < to {
            assert(text[at - from] == wanted);
        }
    }
    at
}

/// What reading the names of a vote leaves when it has come to the end of `chars`: the
/// names read so far with their ranks; the characters read since the last `>` or `=`; the
/// rank of the name that is being read; and whether there was an `=`. A `>` ends a name
/// and goes on to the next rank; an `=` ends a name and stays at the rank.
pub open spec fn scan(chars: Seq<char>) -> (Seq<(Seq<char>, u32)>, Seq<char>, nat, bool)
    decreases chars.len(),
{
    if chars.len() == 0 {
        (Seq::empty(), Seq::empty(), 0, false)
    } else {
        let (names, buffer, rank, ranked) = scan(chars.drop_last());
        if chars.last() == '>' {
            (names.push((trimmed(buffer), rank as u32)), Seq::empty(), rank + 1, ranked)
        } else if chars.last() == '=' {
            (names.push((trimmed(buffer), rank as u32)), Seq::empty(), rank, true)
        } else {
            (names, buffer.push(chars.last()), rank, ranked)
        }
    }
}

/// The names of a vote with their ranks: those that a `>` or `=` ends, and the last one
/// unless it is empty. Each name is trimmed.
pub open spec fn listed(chars: Seq<char>) -> Seq<(Seq<char>, u32)> {
    let (names, buffer, rank, ranked) = scan(chars);
    if trimmed(buffer).len() > 0 {
        names.push((trimmed(buffer), rank as u32))
    } else {
        names
    }
}

/// What a line of vote text holds: the names with their ranks, whether the vote is ranked,
/// which an `=` makes it, and the weight; or, where the weight is no number, its text.
///
/// The line is trimmed. What stands before the first `*` are the names; what stands
/// between the first `*` and the second, or the end, is the weight, which is 1 where the
/// line has no `*`.
pub open spec fn parse_line(line: Seq<char>) -> Result<(Seq<(Seq<char>, u32)>, bool, u64), Seq<char>> {
    let body = trimmed(line);
    let star = position(body, '*');
    let names = trimmed(body.take(star));
    if star < body.len() {
        let rest = body.skip(star + 1);
        let text = trimmed(rest.take(position(rest, '*')));
        match decimal(text) {
            Some(weight) => Ok((listed(names), scan(names).3, weight)),
            None => Err(text),
        }
    } else {
        Ok((listed(names), scan(names).3, 1))
    }
}

/// A parsed vote: a list of candidates in the order of preference, or a list of candidates
/// with ranks.
#[derive(Debug)]
pub enum ParsedVote {
    /// An unranked vote: the candidates in the order of preference, the most preferred
    /// first.
    Unranked(Vec<String>),
    /// A ranked vote: pairs of a candidate and its rank. Rank 0 is the best, and two
    /// candidates of equal rank are tied.
    Ranked(Vec<(String, u32)>),
}

/// Names with ranks as texts with ranks.
pub open spec fn ranked_texts(names: Seq<(String, u32)>) -> Seq<(Seq<char>, u32)> {
    Seq::new(names.len(), |i: int| (names[i].0@, names[i].1))
}

/// Names in the order of preference as texts with ranks: the rank of a name is its place.
pub open spec fn unranked_texts(names: Seq<String>) -> Seq<(Seq<char>, u32)> {
    Seq::new(names.len(), |i: int| (names[i]@, i as u32))
}

impl ParsedVote {
    /// The candidates of the vote as texts, each with its rank; in an unranked vote the rank
    /// of a candidate is its place.
    pub open spec fn entries(self) -> Seq<(Seq<char>, u32)> {
        match self {
            ParsedVote::Unranked(names) => unranked_texts(names@),
            ParsedVote::Ranked(names) => ranked_texts(names@),
        }
    }

    /// Turns the vote into a ranked vote; an unranked vote gives each candidate its place
    /// as its rank. A vote with more candidates than `u32` can count is not taken.
    pub fn into_ranked(self) -> (ranked: Vec<(String, u32)>)
        requires
            self.entries().len() <= u32::MAX,
        ensures
            ranked_texts(ranked@) == self.entries(),
    {
        match self {
            ParsedVote::Ranked(ranked) => ranked,
            ParsedVote::Unranked(unranked) => {
                let ghost names = unranked@;
                let mut back = crate::result::reversed(unranked);
                let mut ranked: Vec<(String, u32)> = Vec::with_capacity(back.len());
                let mut rank: u32 = 0;
                while back.len() > 0
                    invariant
                        names.len() <= u32::MAX,
                        back@.len() <= names.len(),
                        rank == names.len() - back@.len(),
                        ranked@.len() == rank,
                        forall|k: int|
                            0 <= k < back@.len() ==> back@[k] == names[names.len() - 1 - k],
                        forall|k: int|
                            0 <= k < ranked@.len() ==> ranked@[k] == (names[k], k as u32),
                    decreases back@.len(),
                {
                    let name = back.pop().unwrap();
                    ranked.push((name, rank));
                    rank += 1;
                }
                proof {
                    assert(ranked_texts(ranked@) =~= unranked_texts(names));
                }
                ranked
            },
        }
    }
}

/// Parses `chars[from..to]` as one line of vote text; see `parse_line`.
pub fn parse_chars(chars: &Vec<char>, from: usize, to: usize) -> (parsed: Result<
    (ParsedVote, u64),
    ParseError,
>)
    requires
        from <= to <= chars@.len(),
        to - from <= u32::MAX,
    ensures
        match parse_line(chars@.subrange(from as int, to as int)) {
            Ok((names, ranked, weight)) => parsed matches Ok((vote, counted)) && vote.entries()
                == names && (vote is Ranked) == ranked && counted == weight,
            Err(text) => parsed matches Err(ParseError::ParseError(bad)) && bad@ == text,
        },
{
    let ghost line = chars@.subrange(from as int, to as int);
    let (a, b) = trim_range(chars, from, to);
    let ghost body = chars@.subrange(a as int, b as int);
    let star = find_char(chars, a, b, '*');
    let weight: u64 = if star < b {
        let next = find_char(chars, star + 1, b, '*');
        let (wa, wb) = trim_range(chars, star + 1, next);
        let text = string_of(chars, wa, wb);
        proof {
            let rest = body.skip(star - a + 1);
            assert(rest =~= chars@.subrange(star + 1, b as int));
            assert(rest.take(next - star - 1) =~= chars@.subrange(star + 1, next as int));
        }
        match parse_decimal(text.as_str()) {
            Some(number) => number,
            None => {
                return Err(ParseError::ParseError(text));
            },
        }
    } else {
        1
    };
    let (c, d) = trim_range(chars, a, star);
    let ghost zone = chars@.subrange(c as int, d as int);
    proof {
        assert(body.take(star - a) =~= chars@.subrange(a as int, star as int));
    }
    let mut vote: Vec<(String, u32)> = Vec::new();
    let mut start: usize = c;
    let mut rank: u32 = 0;
    let mut is_ranked = false;
    let mut i: usize = c;
    proof {
        assert(zone.take(0) =~= Seq::<char>::empty());
        assert(ranked_texts(vote@) =~= scan(zone.take(0)).0);
        assert(chars@.subrange(start as int, i as int) =~= scan(zone.take(0)).1);
    }
    while i < d
        invariant
            c <= start <= i <= d <= chars@.len(),
            d - c <= u32::MAX,
            zone == chars@.subrange(c as int, d as int),
            ranked_texts(vote@) == scan(zone.take(i - c)).0,
            chars@.subrange(start as int, i as int) == scan(zone.take(i - c)).1,
            rank == scan(zone.take(i - c)).2,
            is_ranked == scan(zone.take(i - c)).3,
            rank <= i - c,
            !is_ranked ==> rank == vote@.len() && forall|m: int|
                0 <= m < vote@.len() ==> (#[trigger] vote@[m]).1 == m,
        decreases d - i,
    {
        let ghost before = zone.take(i - c);
        let ghost after = zone.take(i - c + 1);
        proof {
            assert(after.drop_last() =~= before);
            assert(after.last() == chars@[i as int]);
        }
        let ghost names = vote@;
        if chars[i] == '>' {
            let (ta, tb) = trim_range(chars, start, i);
            let name = string_of(chars, ta, tb);
            vote.push((name, rank));
            start = i + 1;
            rank += 1;
            proof {
                assert(ranked_texts(vote@) =~= ranked_texts(names).push((name@, (rank - 1) as u32)));
                assert(chars@.subrange(start as int, i + 1) =~= Seq::<char>::empty());
            }
        } else if chars[i] == '=' {
            let (ta, tb) = trim_range(chars, start, i);
            let name = string_of(chars, ta, tb);
            vote.push((name, rank));
            start = i + 1;
            is_ranked = true;
            proof {
                assert(ranked_texts(vote@) =~= ranked_texts(names).push((name@, rank)));
                assert(chars@.subrange(start as int, i + 1) =~= Seq::<char>::empty());
            }
        } else {
            proof {
                assert(chars@.subrange(start as int, i + 1) =~= chars@.subrange(
                    start as int,
                    i as int,
                ).push(chars@[i as int]));
            }
        }
        i += 1;
    }
    proof {
        assert(zone.take(d - c) =~= zone);
    }
    let (ta, tb) = trim_range(chars, start, d);
    if tb > ta {
        let ghost names = vote@;
        let name = string_of(chars, ta, tb);
        vote.push((name, rank));
        proof {
            assert(ranked_texts(vote@) =~= ranked_texts(names).push((name@, rank)));
        }
    }
    if is_ranked {
        Ok((ParsedVote::Ranked(vote), weight))
    } else {
        let ghost names = vote@;
        let mut back = crate::result::reversed(vote);
        let mut unranked: Vec<String> = Vec::with_capacity(back.len());
        while back.len() > 0
            invariant
                back@.len() <= names.len(),
                unranked@.len() == names.len() - back@.len(),
                forall|k: int| 0 <= k < back@.len() ==> back@[k] == names[names.len() - 1 - k],
                forall|k: int| 0 <= k < unranked@.len() ==> unranked@[k] == names[k].0,
            decreases back@.len(),
        {
            let (name, _rank) = back.pop().unwrap();
            unranked.push(name);
        }
        proof {
            assert(unranked_texts(unranked@) =~= ranked_texts(names));
        }
        Ok((ParsedVote::Unranked(unranked), weight))
    }
}

/// Parses one line of vote text: names between `>` and `=`, and behind a `*` the weight;
/// see `parse_line`. A line of more characters than `u32` can count is not taken.
pub fn parse_line_into_vote(line: &str) -> (parsed: Result<(ParsedVote, u64), ParseError>)
    requires
        line@.len() <= u32::MAX,
    ensures
        match parse_line(line@) {
            Ok((names, ranked, weight)) => parsed matches Ok((vote, counted)) && vote.entries()
                == names && (vote is Ranked) == ranked && counted == weight,
            Err(text) => parsed matches Err(ParseError::ParseError(bad)) && bad@ == text,
        },
{
    let chars = chars_of(line);
    proof {
        assert(chars@.subrange(0, chars@.len() as int) =~= line@);
    }
    parse_chars(&chars, 0, chars.len())
}

/// What a parsed vote with its weight holds: the names with their ranks, whether the vote
/// is ranked, and the weight.
pub open spec fn vote_texts(votes: Seq<(ParsedVote, u64)>) -> Seq<
    (Seq<(Seq<char>, u32)>, bool, u64),
> {
    Seq::new(votes.len(), |i: int| (votes[i].0.entries(), votes[i].0 is Ranked, votes[i].1))
}

/// What a text of votes holds, line by line: for each line that is not blank what
/// `parse_line` finds in it; or the text of the first weight that is no number. Lines end
/// at a line feed.
pub open spec fn parse_lines(text: Seq<char>) -> Result<
    Seq<(Seq<(Seq<char>, u32)>, bool, u64)>,
    Seq<char>,
>
    decreases text.len(),
{
    let end = position(text, '\n');
    let line = text.take(end);
    if end < 0 || end > text.len() {
        Ok(Seq::empty())
    } else {
        let rest = if end < text.len() {
            parse_lines(text.skip(end + 1))
        } else {
            Ok(Seq::empty())
        };
        if trimmed(line).len() == 0 {
            rest
        } else {
            match parse_line(line) {
                Err(bad) => Err(bad),
                Ok(vote) => match rest {
                    Ok(votes) => Ok(seq![vote] + votes),
                    Err(bad) => Err(bad),
                },
            }
        }
    }
}

/// The votes found so far, followed by what the rest of the text holds.
pub open spec fn followed_by(
    found: Seq<(Seq<(Seq<char>, u32)>, bool, u64)>,
    rest: Result<Seq<(Seq<(Seq<char>, u32)>, bool, u64)>, Seq<char>>,
) -> Result<Seq<(Seq<(Seq<char>, u32)>, bool, u64)>, Seq<char>> {
    match rest {
        Ok(votes) => Ok(found + votes),
        Err(bad) => Err(bad),
    }
}

/// Parses a text of votes, one vote on a line, and returns the votes with their weights;
/// see `parse_line` for the form of a line. Blank lines are passed over. The first weight
/// that is no number ends the parsing with an error that holds its text. A text of more
/// characters than `u32` can count is not taken.
pub fn read_votes(votes: &str) -> (parsed: Result<Vec<(ParsedVote, u64)>, ParseError>)
    requires
        votes@.len() <= u32::MAX,
    ensures
        match parse_lines(votes@) {
            Ok(found) => parsed matches Ok(list) && vote_texts(list@) == found,
            Err(text) => parsed matches Err(ParseError::ParseError(bad)) && bad@ == text,
        },
{
    let chars = chars_of(votes);
    let total = chars.len();
    let mut list: Vec<(ParsedVote, u64)> = Vec::new();
    let mut from: usize = 0;
    let mut done = false;
    proof {
        assert(chars@.skip(0) =~= chars@);
        assert(vote_texts(list@) =~= Seq::empty());
        assert(followed_by(vote_texts(list@), parse_lines(chars@.skip(0))) == parse_lines(
            chars@,
        )) by {
            match parse_lines(chars@) {
                Ok(found) => {
                    assert(Seq::empty() + found =~= found);
                },
                Err(_) => {},
            }
        }
    }
    while !done
        invariant
            chars@ == votes@,
            total == chars@.len(),
            total <= u32::MAX,
            0 <= from <= total,
            !done ==> parse_lines(chars@) == followed_by(
                vote_texts(list@),
                parse_lines(chars@.skip(from as int)),
            ),
            done ==> parse_lines(chars@) == Ok::<
                Seq<(Seq<(Seq<char>, u32)>, bool, u64)>,
                Seq<char>,
            >(vote_texts(list@)),
        decreases total - from + if done { 0int } else { 1int },
    {
        let ghost rest_text = chars@.skip(from as int);
        let end = find_char(&chars, from, total, '\n');
        proof {
            assert(chars@.subrange(from as int, total as int) =~= rest_text);
            assert(rest_text.take(end - from) =~= chars@.subrange(from as int, end as int));
            if end < total {
                assert(rest_text.skip(end - from + 1) =~= chars@.skip(end + 1));
            }
        }
        let (a, b) = trim_range(&chars, from, end);
        let ghost found = vote_texts(list@);
        if b > a {
            match parse_chars(&chars, from, end) {
                Err(error) => {
                    return Err(error);
                },
                Ok(vote) => {
                    list.push(vote);
                    proof {
                        let one = (vote.0.entries(), vote.0 is Ranked, vote.1);
                        assert(vote_texts(list@) =~= found.push(one));
                        match parse_lines(chars@.skip(end + 1)) {
                            Ok(votes) => {
                                assert(found + (seq![one] + votes) =~= found.push(one) + votes);
                            },
                            Err(_) => {},
                        }
                        assert(found + seq![one] =~= found.push(one));
                        assert(found.push(one) + Seq::empty() =~= found.push(one));
                    }
                },
            }
        } else {
            proof {
                assert(found + Seq::empty() =~= found);
            }
        }
        if end < total {
            from = end + 1;
        } else {
            from = total;
            done = true;
        }
    }
    Ok(list)
}

/// The characters of a text.
pub fn chars_of(text: &str) -> (chars: Vec<char>)
    ensures
        chars@ == text@,
{
    let mut chars: Vec<char> = Vec::new();
    for c in it: text.chars()
        invariant
            it.seq() == text@,
            chars@ == it.seq().take(it.index() as int),
    {
        chars.push(c);
        proof {
            assert(chars@ =~= it.seq().take(it.index() + 1));
        }
    }
    proof {
        assert(chars@ =~= text@);
    }
    chars
}

} // verus!
