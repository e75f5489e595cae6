//! One directed pair of a word and a translation, and its learning state.
//!
//! A record is inert (`KnowPreviously`, `TrashWord`), active (`ToLearn`) or
//! finished (`Learned`). Only a correct attempt on a due rung moves an active
//! record; clearing the last rung finishes it. Nothing here moves a record
//! back.

use vstd::prelude::*;
use crate::day::Day;
use crate::ladder::{LearnType, rungs_positive};
use crate::stats::{DayStatistics, TypingStats};

verus! {

/// The state of one word–translation pair.
#[derive(Debug)]
pub enum WordStatus {
    /// The word was known before; it is never practised.
    KnowPreviously,
    /// A noise entry; it is never practised.
    TrashWord,
    /// The pair is being learned.
    ToLearn {
        /// The translation this record points at.
        translation: String,
        /// The day of the last cleared rung, or the day the pair was added.
        last_learn: Day,
        /// The number of rungs cleared so far: the index of the current rung.
        current_level: u8,
        /// The number of correct answers given on the current rung.
        current_count: u8,
        /// All attempts made on this pair.
        stats: TypingStats,
    },
    /// The pair has cleared every rung.
    Learned {
        /// The translation this record points at.
        translation: String,
        /// The attempts made while the pair was being learned.
        stats: TypingStats,
    },
}

/// A record as a mathematical value: its texts are sequences of characters.
pub enum WordStatusView {
    KnowPreviously,
    TrashWord,
    ToLearn {
        translation: Seq<char>,
        last_learn: Day,
        current_level: u8,
        current_count: u8,
        stats: TypingStats,
    },
    Learned { translation: Seq<char>, stats: TypingStats },
}

impl View for WordStatus {
    type V = WordStatusView;

    open spec fn view(&self) -> WordStatusView {
        match *self {
            WordStatus::KnowPreviously => WordStatusView::KnowPreviously,
            WordStatus::TrashWord => WordStatusView::TrashWord,
            WordStatus::ToLearn { translation, last_learn, current_level, current_count, stats } =>
                WordStatusView::ToLearn {
                    translation: translation@,
                    last_learn,
                    current_level,
                    current_count,
                    stats,
                },
            WordStatus::Learned { translation, stats } => WordStatusView::Learned {
                translation: translation@,
                stats,
            },
        }
    }
}

impl WordStatusView {
    /// The translation an active or finished record points at.
    pub open spec fn translation(self) -> Option<Seq<char>> {
        match self {
            WordStatusView::ToLearn { translation, .. } => Some(translation),
            WordStatusView::Learned { translation, .. } => Some(translation),
            _ => None,
        }
    }

    /// The record points at `translation`.
    pub open spec fn has_translation(self, translation: Seq<char>) -> bool {
        self.translation() == Some(translation)
    }

    /// The position of an active record lies on the ladder or just past its
    /// end, and its progress is short of what its current rung asks for.
    /// Other records are always well-formed.
    pub open spec fn wf(self, ladder: Seq<LearnType>) -> bool {
        match self {
            WordStatusView::ToLearn { current_level, current_count, .. } => {
                &&& current_level <= ladder.len()
                &&& current_level < ladder.len() ==> current_count < ladder[current_level as int].count
            },
            _ => true,
        }
    }

    /// The record is active, and the waiting period of the rung it stands on
    /// has passed on `today`. A record past the end of the ladder is never
    /// due.
    pub open spec fn is_due(self, today: Day, ladder: Seq<LearnType>) -> bool {
        match self {
            WordStatusView::ToLearn { last_learn, current_level, .. } => {
                &&& current_level < ladder.len()
                &&& ladder[current_level as int].is_due(last_learn, today)
            },
            _ => false,
        }
    }

    /// An attempt may be registered: the record is active and well-formed,
    /// the ladder's length fits the level counter, and the attempt counter
    /// has room.
    pub open spec fn accepts_attempt(self, correct: bool, ladder: Seq<LearnType>) -> bool {
        match self {
            WordStatusView::ToLearn { stats, .. } => {
                &&& self.wf(ladder)
                &&& ladder.len() <= u8::MAX
                &&& stats.has_room(correct)
            },
            _ => false,
        }
    }

    /// The record after one attempt made on `today`.
    ///
    /// The attempt is counted. A wrong answer changes nothing else. A correct
    /// answer on a rung that is not due changes nothing else either. A
    /// correct answer on a due rung adds to the progress on the rung; the
    /// answer that completes the rung resets the progress, dates the record
    /// `today` and moves it to the next rung, or finishes it if that was the
    /// last rung. Records that are not active stay as they are.
    pub open spec fn after_attempt(self, correct: bool, today: Day, ladder: Seq<LearnType>) -> WordStatusView {
        match self {
            WordStatusView::ToLearn { translation, last_learn, current_level, current_count, stats } => {
                let counted = stats.count(correct);
                if !correct || !self.is_due(today, ladder) {
                    WordStatusView::ToLearn {
                        translation,
                        last_learn,
                        current_level,
                        current_count,
                        stats: counted,
                    }
                } else if current_count + 1 != ladder[current_level as int].count {
                    WordStatusView::ToLearn {
                        translation,
                        last_learn,
                        current_level,
                        current_count: (current_count + 1) as u8,
                        stats: counted,
                    }
                } else if current_level + 1 == ladder.len() {
                    WordStatusView::Learned { translation, stats: counted }
                } else {
                    WordStatusView::ToLearn {
                        translation,
                        last_learn: today,
                        current_level: (current_level + 1) as u8,
                        current_count: 0,
                        stats: counted,
                    }
                }
            },
            _ => self,
        }
    }

    /// The record with `translation` in place of its own; an inert record
    /// stays as it is.
    pub open spec fn with_translation(self, translation: Seq<char>) -> WordStatusView {
        match self {
            WordStatusView::ToLearn { last_learn, current_level, current_count, stats, .. } =>
                WordStatusView::ToLearn { translation, last_learn, current_level, current_count, stats },
            WordStatusView::Learned { stats, .. } => WordStatusView::Learned { translation, stats },
            _ => self,
        }
    }

    /// The record pointing at `to` if it pointed at `from`, unchanged
    /// otherwise.
    pub open spec fn retargeted(self, from: Seq<char>, to: Seq<char>) -> WordStatusView {
        if self.has_translation(from) {
            self.with_translation(to)
        } else {
            self
        }
    }

    /// The attempt completes the current rung: it is correct, the rung is
    /// due, and it is the last answer the rung asks for.
    pub open spec fn clears_rung(self, correct: bool, today: Day, ladder: Seq<LearnType>) -> bool {
        match self {
            WordStatusView::ToLearn { current_level, current_count, .. } => {
                &&& correct
                &&& self.is_due(today, ladder)
                &&& current_count + 1 == ladder[current_level as int].count
            },
            _ => false,
        }
    }
}

/// A well-formed record stays well-formed under an attempt exactly if the
/// rung that the attempt moves it to, if it moves it to one, asks for at
/// least one correct answer; this holds on every ladder whose length fits
/// the level counter. So a record stays well-formed under any attempt on a
/// ladder whose rungs all ask for at least one correct answer.
pub proof fn lemma_attempt_keeps_wf(s: WordStatusView, correct: bool, today: Day, ladder: Seq<LearnType>)
    requires
        s.wf(ladder),
    ensures
        ladder.len() <= u8::MAX ==> (s.after_attempt(correct, today, ladder).wf(ladder) <==> (s.clears_rung(
            correct,
            today,
            ladder,
        ) && s->ToLearn_current_level + 1 < ladder.len() ==> ladder[s->ToLearn_current_level + 1].count >= 1)),
        rungs_positive(ladder) ==> s.after_attempt(correct, today, ladder).wf(ladder),
{
}

/// An active record becomes `Learned` exactly on the attempt that completes
/// the last rung of the ladder; a record that is `Learned` stays so.
pub proof fn lemma_learned_exactly_on_last_rung(
    s: WordStatusView,
    correct: bool,
    today: Day,
    ladder: Seq<LearnType>,
)
    ensures
        s is ToLearn ==> (s.after_attempt(correct, today, ladder) is Learned <==> s.clears_rung(
            correct,
            today,
            ladder,
        ) && s->ToLearn_current_level + 1 == ladder.len()),
        s is ToLearn && s.after_attempt(correct, today, ladder) is Learned ==> s.after_attempt(
            correct,
            today,
            ladder,
        ).translation() == s.translation(),
        s is Learned ==> s.after_attempt(correct, today, ladder) == s,
{
}

/// Only a record that is being learned takes attempts: any other record
/// accepts none and is left as it is by the rule for attempts. So no record
/// is ever turned back into one that is being learned.
pub proof fn lemma_only_active_records_move(
    s: WordStatusView,
    correct: bool,
    today: Day,
    ladder: Seq<LearnType>,
)
    ensures
        !(s is ToLearn) ==> !s.accepts_attempt(correct, ladder) && s.after_attempt(correct, today, ladder) == s,
        s.after_attempt(correct, today, ladder) is ToLearn ==> s is ToLearn,
        s.after_attempt(correct, today, ladder).translation() == s.translation(),
{
}

/// The correct answer that completes the last rung, on a day on which the
/// rung is due, makes the record `Learned`: it keeps its translation, and
/// its counters are those of the record with this one attempt counted.
pub proof fn lemma_last_rung_gives_learned(s: WordStatusView, today: Day, ladder: Seq<LearnType>)
    requires
        s is ToLearn,
        s->ToLearn_current_level + 1 == ladder.len(),
        s->ToLearn_current_count + 1 == ladder[s->ToLearn_current_level as int].count,
        ladder[s->ToLearn_current_level as int].is_due(s->ToLearn_last_learn, today),
    ensures
        s.after_attempt(true, today, ladder) == (WordStatusView::Learned {
            translation: s->ToLearn_translation,
            stats: s->ToLearn_stats.count(true),
        }),
        s->ToLearn_stats.has_room(true) ==> s->ToLearn_stats.count(true) == (TypingStats {
            right: (s->ToLearn_stats.right + 1) as u64,
            wrong: s->ToLearn_stats.wrong,
        }) && s->ToLearn_stats.count(true).right == s->ToLearn_stats.right + 1,
{
}

/// The record after `n` wrong answers in a row.
pub open spec fn after_wrong(s: WordStatusView, n: nat) -> WordStatusView
    decreases n,
{
    if n == 0 {
        s
    } else {
        after_wrong(s, (n - 1) as nat).after_attempt(false, Day(0), Seq::empty())
    }
}

/// What a wrong answer makes of a record depends neither on the day nor on
/// the ladder. After any number of wrong answers in a row, a record that is
/// being learned has its counter of wrong attempts raised by that number and
/// is otherwise the same; so it is due on the same days as before.
pub proof fn lemma_wrong_attempts_only_count(
    s: WordStatusView,
    n: nat,
    today: Day,
    ladder: Seq<LearnType>,
)
    requires
        s is ToLearn,
        s->ToLearn_stats.wrong + n <= u64::MAX,
    ensures
        s.after_attempt(false, today, ladder) == s.after_attempt(false, Day(0), Seq::empty()),
        after_wrong(s, n) == (WordStatusView::ToLearn {
            translation: s->ToLearn_translation,
            last_learn: s->ToLearn_last_learn,
            current_level: s->ToLearn_current_level,
            current_count: s->ToLearn_current_count,
            stats: TypingStats { right: s->ToLearn_stats.right, wrong: (s->ToLearn_stats.wrong + n) as u64 },
        }),
        after_wrong(s, n).is_due(today, ladder) == s.is_due(today, ladder),
    decreases n,
{
    if n > 0 {
        lemma_wrong_attempts_only_count(s, (n - 1) as nat, today, ladder);
    }
}

/// A wrong answer raises the counter of wrong attempts and changes nothing
/// else, however often it is repeated.
pub proof fn lemma_wrong_attempt_only_counts(s: WordStatusView, today: Day, ladder: Seq<LearnType>)
    requires
        s is ToLearn,
    ensures
        s.after_attempt(false, today, ladder) == (WordStatusView::ToLearn {
            translation: s->ToLearn_translation,
            last_learn: s->ToLearn_last_learn,
            current_level: s->ToLearn_current_level,
            current_count: s->ToLearn_current_count,
            stats: TypingStats {
                right: s->ToLearn_stats.right,
                wrong: (s->ToLearn_stats.wrong + 1) as u64,
            },
        }),
        s.after_attempt(false, today, ladder).is_due(today, ladder) == s.is_due(today, ladder),
{
}

/// After an attempt has moved a record to the next rung, the record is due
/// on a day exactly when that rung's waiting period, counted from the day of
/// the attempt, has passed. So on the day of the attempt itself it is due
/// only if the new rung asks for no wait.
pub proof fn lemma_due_again_after_wait(
    s: WordStatusView,
    today: Day,
    later: Day,
    ladder: Seq<LearnType>,
)
    requires
        s.wf(ladder),
        s.clears_rung(true, today, ladder),
        s->ToLearn_current_level + 1 < ladder.len(),
        ladder.len() <= u8::MAX,
    ensures
        s.after_attempt(true, today, ladder).is_due(later, ladder) <==> later.days_since(today)
            >= ladder[s->ToLearn_current_level + 1].wait_days,
        ladder[s->ToLearn_current_level + 1].wait_days > 0 ==> !s.after_attempt(
            true,
            today,
            ladder,
        ).is_due(today, ladder),
{
}

impl WordStatus {
    /// Registers one attempt made on `today`, in the record and in the
    /// statistics of the day.
    pub fn register_attempt(
        &mut self,
        correct: bool,
        today: Day,
        day_stats: &mut DayStatistics,
        type_count: &[LearnType],
    )
        requires
            old(self)@.accepts_attempt(correct, type_count@),
            old(day_stats).attempts.has_room(correct),
        ensures
            final(self)@ == old(self)@.after_attempt(correct, today, type_count@),
            rungs_positive(type_count@) ==> final(self)@.wf(type_count@),
            final(day_stats).attempts == old(day_stats).attempts.count(correct),
            final(day_stats).new_unknown_words_count == old(day_stats).new_unknown_words_count,
            final(day_stats).word_count_by_level == old(day_stats).word_count_by_level,
    {
        day_stats.attempts.register(correct);
        let mut finished: bool = false;
        match self {
            WordStatus::ToLearn { stats, last_learn, translation: _, current_level, current_count } => {
                stats.register(correct);
                if correct {
                    let level: usize = *current_level as usize;
                    if level < type_count.len() && type_count[level].can_learn_today(*last_learn, today) {
                        if *current_count + 1 != type_count[level].count {
                            *current_count += 1;
                        } else {
                            *last_learn = today;
                            *current_level += 1;
                            *current_count = 0;
                            finished = *current_level as usize == type_count.len();
                        }
                    }
                }
            },
            _ => {},
        }
        if finished {
            self.finish();
        }
    }

    /// Whether an attempt may be registered on this record: decides
    /// [`WordStatusView::accepts_attempt`].
    pub fn can_register(&self, correct: bool, type_count: &[LearnType]) -> (accepted: bool)
        ensures
            accepted == self@.accepts_attempt(correct, type_count@),
    {
        match self {
            WordStatus::ToLearn { current_level, current_count, stats, .. } => {
                let level: usize = *current_level as usize;
                type_count.len() <= 255 && level <= type_count.len() && (level == type_count.len()
                    || *current_count < type_count[level].count) && stats.can_count(correct)
            },
            _ => false,
        }
    }

    /// Turns an active record into a finished one, keeping its translation
    /// and its counters.
    fn finish(&mut self)
        requires
            old(self)@ is ToLearn,
        ensures
            final(self)@ == (WordStatusView::Learned {
                translation: old(self)@->ToLearn_translation,
                stats: old(self)@->ToLearn_stats,
            }),
    {
        let mut taken = WordStatus::TrashWord;
        core::mem::swap(self, &mut taken);
        match taken {
            WordStatus::ToLearn { translation, stats, .. } => {
                *self = WordStatus::Learned { translation, stats };
            },
            _ => {},
        }
    }

    /// Whether the record points at `translation2`.
    pub fn has_translation(&self, translation2: &str) -> (has: bool)
        ensures
            has == self@.has_translation(translation2@),
    {
        match self {
            WordStatus::KnowPreviously | WordStatus::TrashWord => false,
            WordStatus::ToLearn { translation, .. } | WordStatus::Learned { translation, .. } => {
                let wanted = translation2.to_owned();
                *translation == wanted
            },
        }
    }

    /// Whether the record is due on `today`.
    pub fn can_learn_today(&self, today: Day, type_count: &[LearnType]) -> (due: bool)
        ensures
            due == self@.is_due(today, type_count@),
    {
        match self {
            WordStatus::ToLearn { last_learn, current_level, .. } => {
                let level: usize = *current_level as usize;
                level < type_count.len() && type_count[level].can_learn_today(*last_learn, today)
            },
            _ => false,
        }
    }

    /// The translation the record points at, if it has one.
    pub fn translation(&self) -> (translation: Option<&str>)
        ensures
            match translation {
                Some(t) => self@.translation() == Some(t@),
                None => self@.translation() is None,
            },
    {
        match self {
            WordStatus::ToLearn { translation, .. } | WordStatus::Learned { translation, .. } => Some(
                translation.as_str(),
            ),
            _ => None,
        }
    }
}

impl WordStatus {
    /// The translation the record points at, for writing.
    pub fn translation_mut(&mut self) -> (translation: Option<&mut String>)
        ensures
            match translation {
                Some(t) => old(self)@.translation() == Some(t@)
                    && final(self)@ == old(self)@.with_translation(final(t)@),
                None => old(self)@.translation() is None && final(self)@ == old(self)@,
            },
    {
        match self {
            WordStatus::ToLearn { translation, .. } => Some(translation),
            WordStatus::Learned { translation, .. } => Some(translation),
            _ => None,
        }
    }

    /// Makes a record that points at `from` point at `to`.
    pub fn retarget(&mut self, from: &str, to: &str)
        ensures
            final(self)@ == old(self)@.retargeted(from@, to@),
    {
        if let Some(translation) = self.translation_mut() {
            if crate::text::same_text(translation.as_str(), from) {
                *translation = to.to_owned();
            }
        }
    }
}

impl Clone for WordStatus {
    fn clone(&self) -> (copy: WordStatus)
        ensures
            copy@ == self@,
    {
        match self {
            WordStatus::KnowPreviously => WordStatus::KnowPreviously,
            WordStatus::TrashWord => WordStatus::TrashWord,
            WordStatus::ToLearn { translation, last_learn, current_level, current_count, stats } =>
                WordStatus::ToLearn {
                    translation: translation.clone(),
                    last_learn: *last_learn,
                    current_level: *current_level,
                    current_count: *current_count,
                    stats: *stats,
                },
            WordStatus::Learned { translation, stats } => WordStatus::Learned {
                translation: translation.clone(),
                stats: *stats,
            },
        }
    }
}

} // verus!
