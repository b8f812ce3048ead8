//! Tallystick tallies votes: plurality, approval, score, Borda, instant-runoff, Condorcet
//! and Schulze counts, each giving a ranking in which equal ranks are ties.
//!
//! The tallies count in `u64`. A candidate can be of any type whose `==` and `clone` are
//! lawful, see `candidate::lawful`; candidates get ids in the order in which a tally
//! first sees them, and the results come in an order that the ids fix.

pub mod approval;
pub mod borda;
pub mod candidate;
pub mod condorcet;
pub mod errors;
pub mod graph;
pub mod irv;
pub mod names;
pub mod pairwise;
pub mod paths;
pub mod plurality;
pub mod quota;
pub mod result;
pub mod schulze;
pub mod score;
pub mod sorting;
pub mod traits;
pub mod util;
pub mod votetree;

pub use crate::errors::TallyError;
pub use crate::quota::Quota;
pub use crate::result::RankedWinners;
pub use crate::traits::Numeric;

use crate::candidate::{distinct, lawful_eq, same_candidate};
use vstd::prelude::*;

verus! {

/// Checks that no value occurs twice in a list.
pub fn check_duplicate<T: PartialEq>(slice: &[T]) -> (checked: Result<(), TallyError>)
    requires
        lawful_eq::<T>(),
    ensures
        checked == if distinct(slice@) {
            Ok::<(), TallyError>(())
        } else {
            Err::<(), TallyError>(TallyError::VoteHasDuplicateCandidates)
        },
{
    let mut i: usize = 1;
    while i < slice.len()
        invariant
            lawful_eq::<T>(),
            1 <= i,
            forall|a: int, b: int|
                0 <= a < i - 1 && a < b < slice@.len() ==> slice@[a] != slice@[b],
        decreases slice@.len() - i,
    {
        let mut j: usize = i;
        while j < slice.len()
            invariant
                lawful_eq::<T>(),
                1 <= i <= j,
                i < slice@.len(),
                forall|b: int| i <= b < j ==> slice@[i - 1] != #[trigger] slice@[b],
            decreases slice@.len() - j,
        {
            if same_candidate(&slice[j], &slice[i - 1]) {
                return Err(TallyError::VoteHasDuplicateCandidates);
            }
            j += 1;
        }
        i += 1;
    }
    Ok(())
}

} // verus!
