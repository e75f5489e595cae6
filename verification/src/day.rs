//! The day counter, the only unit of time the scheduler knows.

use vstd::prelude::*;

verus! {

/// A day, counted from a fixed first day.
#[derive(Clone, Copy, Debug, PartialEq, Eq, Structural, PartialOrd, Ord, Hash)]
pub struct Day(pub u64);

impl Day {
    /// How many days `self` lies after `earlier`; negative if it lies before.
    pub open spec fn days_since(self, earlier: Day) -> int {
        self.0 as int - earlier.0 as int
    }

    /// The day with the given number.
    pub fn new(number: u64) -> (day: Day)
        ensures
            day == Day(number),
    {
        Day(number)
    }

    /// The day's number.
    pub fn number(&self) -> (number: u64)
        ensures
            number == self.0,
    {
        self.0
    }
}

} // verus!
