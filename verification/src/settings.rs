//! What the user has set: the ladder and the keyboard layout.

use vstd::prelude::*;
use crate::keyboard::KeyboardLayout;
use crate::ladder::{LearnType, valid_ladder};

verus! {

/// The settings of the program.
#[derive(Debug)]
pub struct Settings {
    /// The ladder that every pair climbs.
    pub type_count: Vec<LearnType>,
    /// Whether text typed in the wrong language is put right.
    pub use_keyboard_layout: bool,
    /// The layout that puts it right.
    pub keyboard_layout: KeyboardLayout,
}

/// The ladder of the default settings: two answers with the word shown,
/// three from memory on the same day, then five each after two, seven and
/// twenty days.
pub open spec fn default_ladder() -> Seq<LearnType> {
    seq![
        LearnType { wait_days: 0, count: 2, show_word: true },
        LearnType { wait_days: 0, count: 3, show_word: false },
        LearnType { wait_days: 2, count: 5, show_word: false },
        LearnType { wait_days: 7, count: 5, show_word: false },
        LearnType { wait_days: 20, count: 5, show_word: false },
    ]
}

impl Default for Settings {
    fn default() -> (settings: Settings)
        ensures
            settings.type_count@ == default_ladder(),
            valid_ladder(settings.type_count@),
            !settings.use_keyboard_layout,
            settings.keyboard_layout.wf(),
            settings.keyboard_layout.first() =~= Map::<char, char>::empty(),
            settings.keyboard_layout.second() =~= Map::<char, char>::empty(),
    {
        let mut type_count: Vec<LearnType> = Vec::new();
        type_count.push(LearnType::show(0, 2));
        type_count.push(LearnType::guess(0, 3));
        type_count.push(LearnType::guess(2, 5));
        type_count.push(LearnType::guess(7, 5));
        type_count.push(LearnType::guess(20, 5));
        assert(type_count@ =~= default_ladder());
        Settings { type_count, use_keyboard_layout: false, keyboard_layout: KeyboardLayout::empty() }
    }
}

} // verus!
