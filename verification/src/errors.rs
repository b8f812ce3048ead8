//! The errors that adding a vote or parsing vote text can give.

use vstd::prelude::*;
use vstd::string::StringExecFns;

verus! {

/// Declares `std::io::Error` so that `ParseError` can carry one; nothing is known of its
/// contents.
#[verifier::external_type_specification]
#[verifier::external_body]
pub struct ExIoError(std::io::Error);

/// An error that may occur while a vote is added to a tally.
#[derive(Debug, Clone, Copy, PartialEq, Eq, Structural)]
pub enum TallyError {
    /// A vote contains duplicate candidates.
    VoteHasDuplicateCandidates,
    /// A vote contains an unknown candidate.
    UnknownCandidate,
}

impl TallyError {
    /// The text that describes this error.
    pub open spec fn spec_message(self) -> Seq<char> {
        match self {
            TallyError::VoteHasDuplicateCandidates => "tallystick: vote contains duplicate candidates"@,
            TallyError::UnknownCandidate => "tallystick: vote contains unknown candidate"@,
        }
    }

    /// Describes this error in words.
    pub fn message(&self) -> (text: String)
        ensures
            text@ == self.spec_message(),
    {
        match self {
            TallyError::VoteHasDuplicateCandidates => String::from_str(
                "tallystick: vote contains duplicate candidates",
            ),
            TallyError::UnknownCandidate => String::from_str(
                "tallystick: vote contains unknown candidate",
            ),
        }
    }
}

/// An error that may occur while vote text is parsed.
#[derive(Debug)]
pub enum ParseError {
    /// This text is not a numeric value.
    ParseError(String),
    /// The vote data could not be read.
    ReadError(std::io::Error),
}

/// The text that `std::fmt::Display` gives for an I/O error. It comes from the error and
/// from the system, so nothing is said of it.
#[verifier::external_body]
fn io_error_text(error: &std::io::Error) -> (text: String) {
    format!("{}", error)
}

impl ParseError {
    /// Describes this error in words; a read error with the words of its cause behind it.
    pub fn message(&self) -> (text: String)
        ensures
            self matches ParseError::ParseError(value) ==> text@
                == "tallystick: error parsing numeric value "@ + value@,
            self is ReadError ==> exists|cause: Seq<char>|
                text@ == "tallystick: error reading vote data: "@ + cause,
    {
        match self {
            ParseError::ParseError(value) => {
                String::from_str("tallystick: error parsing numeric value ").concat(
                    value.as_str(),
                )
            },
            ParseError::ReadError(error) => {
                let cause = io_error_text(error);
                String::from_str("tallystick: error reading vote data: ").concat(cause.as_str())
            },
        }
    }
}

impl From<std::io::Error> for ParseError {
    fn from(error: std::io::Error) -> (r: ParseError) {
        ParseError::ReadError(error)
    }
}

impl vstd::std_specs::convert::FromSpecImpl<std::io::Error> for ParseError {
    open spec fn obeys_from_spec() -> bool {
        true
    }

    open spec fn from_spec(error: std::io::Error) -> ParseError {
        ParseError::ReadError(error)
    }
}

} // verus!
