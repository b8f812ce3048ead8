//! What the tallies ask of a type in which votes are counted.

use vstd::prelude::*;

verus! {

/// A numeric type in which votes can be counted. The tallies of this crate count in whole
/// numbers, and ask a count type whether it can hold fractions before they divide.
pub trait Numeric: Sized {
    /// The largest whole number that is not above this number. For a type without
    /// fractions, the number itself.
    fn floor(self) -> Self;

    /// Whether the type can hold fractions. Integer types cannot.
    fn fraction() -> bool;

    /// The largest value of the type as far as the tallies need it: zero for a type
    /// without fractions, which never stands for an unbounded ratio.
    fn max_value() -> Self;
}

impl Numeric for u64 {
    fn floor(self) -> (whole: u64)
        ensures
            whole == self,
    {
        self
    }

    fn fraction() -> (fractional: bool)
        ensures
            !fractional,
    {
        false
    }

    fn max_value() -> (max: u64)
        ensures
            max == 0,
    {
        0
    }
}

impl Numeric for u32 {
    fn floor(self) -> (whole: u32)
        ensures
            whole == self,
    {
        self
    }

    fn fraction() -> (fractional: bool)
        ensures
            !fractional,
    {
        false
    }

    fn max_value() -> (max: u32)
        ensures
            max == 0,
    {
        0
    }
}

impl Numeric for usize {
    fn floor(self) -> (whole: usize)
        ensures
            whole == self,
    {
        self
    }

    fn fraction() -> (fractional: bool)
        ensures
            !fractional,
    {
        false
    }

    fn max_value() -> (max: usize)
        ensures
            max == 0,
    {
        0
    }
}

} // verus!
