//! The learning ladder: the ordered rungs that every pair climbs.
//!
//! A rung says how long to wait since the last successful practice, how many
//! correct answers clear it, and whether the answer is shown while typing.
//! The ladder is configuration: it is handed to every query and never stored
//! in a record.

use vstd::prelude::*;
use crate::day::Day;

verus! {

/// One rung: how long to wait since the last practice, how many correct
/// answers it takes, and whether the word is shown while it is typed.
#[derive(Clone, Copy, Debug, PartialEq, Eq, Structural)]
pub struct LearnType {
    /// How many days to wait since the last practice.
    pub wait_days: u8,
    /// How many correct answers clear the rung.
    pub count: u8,
    /// True: the answer is shown as a hint. False: it has to be recalled.
    pub show_word: bool,
}

impl LearnType {
    /// The rung's waiting period has passed on `today`.
    pub open spec fn is_due(self, last_learn: Day, today: Day) -> bool {
        today.days_since(last_learn) >= self.wait_days as int
    }

    /// A rung on which the answer is shown.
    pub fn show(wait_days: u8, count: u8) -> (rung: LearnType)
        ensures
            rung == (LearnType { wait_days, count, show_word: true }),
    {
        LearnType { wait_days, count, show_word: true }
    }

    /// A rung on which the answer has to be recalled.
    pub fn guess(wait_days: u8, count: u8) -> (rung: LearnType)
        ensures
            rung == (LearnType { wait_days, count, show_word: false }),
    {
        LearnType { wait_days, count, show_word: false }
    }

    /// Whether a pair last practised on `last_learn` may be practised on
    /// this rung on `today`. A day before `last_learn` is never due.
    pub fn can_learn_today(&self, last_learn: Day, today: Day) -> (due: bool)
        ensures
            due == self.is_due(last_learn, today),
    {
        today.0 >= last_learn.0 && today.0 - last_learn.0 >= self.wait_days as u64
    }
}

/// Every rung asks for at least one correct answer.
pub open spec fn rungs_positive(ladder: Seq<LearnType>) -> bool {
    forall|i: int| 0 <= i < ladder.len() ==> (#[trigger] ladder[i]).count >= 1
}

/// A ladder that records can climb: its length fits the level counter of a
/// record and every rung asks for at least one correct answer.
pub open spec fn valid_ladder(ladder: Seq<LearnType>) -> bool {
    ladder.len() <= u8::MAX && rungs_positive(ladder)
}

/// Decides [`valid_ladder`].
pub fn is_valid_ladder(ladder: &[LearnType]) -> (valid: bool)
    ensures
        valid == valid_ladder(ladder@),
{
    if ladder.len() > 255 {
        return false;
    }
    let mut i: usize = 0;
    while i < ladder.len()
        invariant
            i <= ladder@.len(),
            forall|j: int| 0 <= j < i ==> (#[trigger] ladder@[j]).count >= 1,
        decreases ladder@.len() - i,
    {
        if ladder[i].count == 0 {
            return false;
        }
        i += 1;
    }
    true
}

} // verus!
