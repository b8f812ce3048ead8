//! Quotas: the number of votes that elects a candidate.

use crate::traits::Numeric;
use vstd::prelude::*;

verus! {

/// A quota says how many votes elect a candidate, given the votes cast and the seats.
#[derive(Debug)]
pub enum Quota<C> {
    /// The Droop quota: the votes divided by one more than the seats, rounded down, and
    /// one more. With one seat, "fifty percent plus one".
    Droop,
    /// The Hagenbach-Bischoff quota: the votes divided by one more than the seats, as a
    /// fraction. It cannot be taken in whole numbers.
    Hagenbach,
    /// The Hare quota: the votes divided by the seats.
    Hare,
    /// The Imperiali quota: the votes divided by two more than the seats.
    Imperiali,
    /// A fixed quota, whatever the votes and the seats.
    Static(C),
}

impl Quota<u64> {
    /// Whether the quota has a threshold in `u64` for the given votes and seats. The
    /// Hagenbach-Bischoff quota has none; the Hare quota has none without seats; and the
    /// others have none where the seats, or the threshold, would pass `u64::MAX`.
    pub open spec fn defined(self, total_votes: u64, num_winners: u64) -> bool {
        match self {
            Quota::Droop => num_winners < u64::MAX && total_votes / ((num_winners + 1) as u64)
                < u64::MAX,
            Quota::Hagenbach => false,
            Quota::Hare => num_winners > 0,
            Quota::Imperiali => num_winners < u64::MAX - 1,
            Quota::Static(_) => true,
        }
    }

    /// The threshold of the quota for the given votes and seats; divisions round down.
    pub open spec fn spec_threshold(self, total_votes: u64, num_winners: u64) -> int {
        match self {
            Quota::Droop => total_votes as int / (num_winners + 1) + 1,
            Quota::Hagenbach => total_votes as int / (num_winners + 1),
            Quota::Hare => total_votes as int / (num_winners as int),
            Quota::Imperiali => total_votes as int / (num_winners + 2),
            Quota::Static(fixed) => fixed as int,
        }
    }

    /// Whether `threshold` can be called with the given votes and seats.
    pub fn is_defined(&self, total_votes: u64, num_winners: u64) -> (defined: bool)
        ensures
            defined == self.defined(total_votes, num_winners),
    {
        match self {
            Quota::Droop => num_winners < u64::MAX && total_votes / (num_winners + 1) < u64::MAX,
            Quota::Hagenbach => <u64 as Numeric>::fraction(),
            Quota::Hare => num_winners > 0,
            Quota::Imperiali => num_winners < u64::MAX - 1,
            Quota::Static(_) => true,
        }
    }

    /// The number of votes that elects a candidate. `total_votes` is the weight of all
    /// votes counted, `num_winners` the number of seats.
    pub fn threshold(&self, total_votes: u64, num_winners: u64) -> (threshold: u64)
        requires
            self.defined(total_votes, num_winners),
        ensures
            threshold == self.spec_threshold(total_votes, num_winners),
    {
        match self {
            Quota::Droop => (total_votes / (num_winners + 1)).floor() + 1,
            Quota::Hagenbach => vstd::pervasive::unreached(),
            Quota::Hare => total_votes / num_winners,
            Quota::Imperiali => total_votes / (num_winners + 1 + 1),
            Quota::Static(fixed) => *fixed,
        }
    }
}

} // verus!
