//! Attempt counters and the statistics of one day.

use vstd::prelude::*;
use crate::counts::WordCounts;

verus! {

/// How often something was typed right and wrong: for a pair, a day, or
/// everything.
#[derive(Clone, Copy, Debug, PartialEq, Eq, Structural)]
pub struct TypingStats {
    /// Correct attempts.
    pub right: u64,
    /// Incorrect attempts.
    pub wrong: u64,
}

impl TypingStats {
    /// The counters after one more attempt.
    pub open spec fn count(self, correct: bool) -> TypingStats {
        if correct {
            TypingStats { right: (self.right + 1) as u64, wrong: self.wrong }
        } else {
            TypingStats { right: self.right, wrong: (self.wrong + 1) as u64 }
        }
    }

    /// The counter that an attempt raises can still be raised.
    pub open spec fn has_room(self, correct: bool) -> bool {
        if correct {
            self.right < u64::MAX
        } else {
            self.wrong < u64::MAX
        }
    }

    /// Computes [`TypingStats::has_room`].
    pub fn can_count(&self, correct: bool) -> (room: bool)
        ensures
            room == self.has_room(correct),
    {
        if correct {
            self.right < u64::MAX
        } else {
            self.wrong < u64::MAX
        }
    }

    /// Counts one attempt.
    pub fn register(&mut self, correct: bool)
        requires
            old(self).has_room(correct),
        ensures
            *final(self) == old(self).count(correct),
    {
        if correct {
            self.right += 1;
        } else {
            self.wrong += 1;
        }
    }
}

impl Default for TypingStats {
    fn default() -> (stats: TypingStats)
        ensures
            stats == (TypingStats { right: 0, wrong: 0 }),
    {
        TypingStats { right: 0, wrong: 0 }
    }
}

/// What happened on one day.
#[derive(Debug)]
pub struct DayStatistics {
    /// The attempts registered on that day.
    pub attempts: TypingStats,
    /// How many translations were added for learning on that day.
    pub new_unknown_words_count: u64,
    /// The number of records of each kind, as last counted on that day.
    pub word_count_by_level: WordCounts,
}

impl Default for DayStatistics {
    fn default() -> (stats: DayStatistics)
        ensures
            stats.attempts == (TypingStats { right: 0, wrong: 0 }),
            stats.new_unknown_words_count == 0,
            stats.word_count_by_level.wf(),
            stats.word_count_by_level@ =~= Map::<crate::counts::WordType, nat>::empty(),
    {
        DayStatistics {
            attempts: TypingStats { right: 0, wrong: 0 },
            new_unknown_words_count: 0,
            word_count_by_level: WordCounts::new(),
        }
    }
}

} // verus!
