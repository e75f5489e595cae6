//! Choosing the state of a record by its number, as a selection box does.

use vstd::prelude::*;
use crate::day::Day;
use crate::stats::TypingStats;
use crate::status::{WordStatus, WordStatusView};

verus! {

/// A value whose variant can be read and set by number.
pub trait ComboBoxChoosable {
    /// How many variants there are.
    spec fn variant_count() -> nat;

    /// The number of the variant of a value.
    spec fn number(&self) -> nat;

    /// The names of the variants, in the order of their numbers.
    fn variants() -> (names: Vec<&'static str>)
        ensures
            names@.len() == Self::variant_count(),
    ;

    /// The number of the value's variant.
    fn get_number(&self) -> (number: usize)
        ensures
            number == self.number(),
            number < Self::variant_count(),
    ;

    /// Makes the value one of the variant with the given number.
    fn set_number(&mut self, number: usize)
        requires
            number < Self::variant_count(),
        ensures
            final(self).number() == number,
    ;
}

/// The record that choosing the variant `number` makes of a record.
///
/// Choosing an inert variant drops everything. Choosing to learn a learned
/// pair keeps its translation and its counters and starts at the foot of the
/// ladder, on day zero; choosing to have learned a pair that is being
/// learned keeps its translation and its counters. From any other record
/// the chosen one starts empty.
pub open spec fn chosen(r: WordStatusView, number: nat) -> WordStatusView {
    let none = TypingStats { right: 0, wrong: 0 };
    if number == 0 {
        WordStatusView::KnowPreviously
    } else if number == 1 {
        WordStatusView::TrashWord
    } else if number == 2 {
        match r {
            WordStatusView::Learned { translation, stats } => WordStatusView::ToLearn {
                translation,
                last_learn: Day(0),
                current_level: 0,
                current_count: 0,
                stats,
            },
            _ => WordStatusView::ToLearn {
                translation: Seq::empty(),
                last_learn: Day(0),
                current_level: 0,
                current_count: 0,
                stats: none,
            },
        }
    } else {
        match r {
            WordStatusView::ToLearn { translation, stats, .. } => WordStatusView::Learned { translation, stats },
            _ => WordStatusView::Learned { translation: Seq::empty(), stats: none },
        }
    }
}

impl ComboBoxChoosable for WordStatus {
    open spec fn variant_count() -> nat {
        4
    }

    open spec fn number(&self) -> nat {
        match self@ {
            WordStatusView::KnowPreviously => 0,
            WordStatusView::TrashWord => 1,
            WordStatusView::ToLearn { .. } => 2,
            WordStatusView::Learned { .. } => 3,
        }
    }

    fn variants() -> (names: Vec<&'static str>)
        ensures
            names@ == seq!["Known", "Trash", "To learn", "Learned."],
    {
        let mut names: Vec<&'static str> = Vec::new();
        names.push("Known");
        names.push("Trash");
        names.push("To learn");
        names.push("Learned.");
        assert(names@ =~= seq!["Known", "Trash", "To learn", "Learned."]);
        names
    }

    fn get_number(&self) -> (number: usize) {
        match self {
            WordStatus::KnowPreviously => 0,
            WordStatus::TrashWord => 1,
            WordStatus::ToLearn { .. } => 2,
            WordStatus::Learned { .. } => 3,
        }
    }

    fn set_number(&mut self, number: usize)
        ensures
            final(self)@ == chosen(old(self)@, number as nat),
    {
        let mut taken = WordStatus::TrashWord;
        core::mem::swap(self, &mut taken);
        let none = TypingStats { right: 0, wrong: 0 };
        *self = if number == 0 {
            WordStatus::KnowPreviously
        } else if number == 1 {
            WordStatus::TrashWord
        } else if number == 2 {
            match taken {
                WordStatus::Learned { translation, stats } => WordStatus::ToLearn {
                    translation,
                    last_learn: Day(0),
                    current_level: 0,
                    current_count: 0,
                    stats,
                },
                _ => WordStatus::ToLearn {
                    translation: String::new(),
                    last_learn: Day(0),
                    current_level: 0,
                    current_count: 0,
                    stats: none,
                },
            }
        } else {
            match taken {
                WordStatus::ToLearn { translation, stats, .. } => WordStatus::Learned { translation, stats },
                _ => WordStatus::Learned { translation: String::new(), stats: none },
            }
        };
    }
}

} // verus!
