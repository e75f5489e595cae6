//! Equality of records: two records are equal if they are the same value,
//! text for text and number for number.

use vstd::prelude::*;
use vstd::std_specs::cmp::PartialEqSpecImpl;
use crate::status::WordStatus;

verus! {

impl PartialEq for WordStatus {
    fn eq(&self, other: &WordStatus) -> (equal: bool) {
        match (self, other) {
            (WordStatus::KnowPreviously, WordStatus::KnowPreviously) => true,
            (WordStatus::TrashWord, WordStatus::TrashWord) => true,
            (
                WordStatus::ToLearn { translation, last_learn, current_level, current_count, stats },
                WordStatus::ToLearn {
                    translation: translation2,
                    last_learn: last_learn2,
                    current_level: current_level2,
                    current_count: current_count2,
                    stats: stats2,
                },
            ) => *translation == *translation2 && last_learn.0 == last_learn2.0 && *current_level
                == *current_level2 && *current_count == *current_count2 && stats.right == stats2.right
                && stats.wrong == stats2.wrong,
            (
                WordStatus::Learned { translation, stats },
                WordStatus::Learned { translation: translation2, stats: stats2 },
            ) => *translation == *translation2 && stats.right == stats2.right && stats.wrong == stats2.wrong,
            _ => false,
        }
    }
}

impl PartialEqSpecImpl for WordStatus {
    open spec fn obeys_eq_spec() -> bool {
        true
    }

    open spec fn eq_spec(&self, other: &WordStatus) -> bool {
        self@ == other@
    }
}

} // verus!
