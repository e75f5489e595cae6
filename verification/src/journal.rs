//! The statistics of every day on which something happened.

use std::collections::BTreeMap;
use vstd::prelude::*;
use vstd::std_specs::iter::IteratorSpec;
use crate::aggregate::{length_all, tally_all};
use crate::counts::WordType;
use crate::day::Day;
use crate::stats::{DayStatistics, TypingStats};
use crate::words::Words;

verus! {

/// The statistics by day.
#[derive(Debug)]
pub struct Statistics {
    by_day: BTreeMap<u64, DayStatistics>,
}

impl View for Statistics {
    type V = Map<Day, DayStatistics>;

    /// The statistics of each day that has any.
    closed spec fn view(&self) -> Map<Day, DayStatistics> {
        Map::new(|d: Day| self.by_day@.contains_key(d.0), |d: Day| self.by_day@[d.0])
    }
}

impl Statistics {
    /// No day has statistics.
    pub fn new() -> (stats: Statistics)
        ensures
            stats@ =~= Map::<Day, DayStatistics>::empty(),
    {
        Statistics { by_day: BTreeMap::new() }
    }

    /// The statistics of `day`, if it has any.
    pub fn day(&self, day: Day) -> (stats: Option<&DayStatistics>)
        ensures
            match stats {
                Some(s) => self@.contains_key(day) && *s == self@[day],
                None => !self@.contains_key(day),
            },
    {
        broadcast use vstd::std_specs::btree::group_btree_axioms;

        self.by_day.get(&day.0)
    }

    /// Puts `stats` in place of the statistics of `day`.
    pub fn set_day(&mut self, day: Day, stats: DayStatistics)
        ensures
            final(self)@ =~= old(self)@.insert(day, stats),
    {
        broadcast use vstd::std_specs::btree::group_btree_axioms;

        self.by_day.insert(day.0, stats);
        assert forall|d: Day| #[trigger] self@.contains_key(d) <==> old(self)@.insert(day, stats).contains_key(d) by {
            assert(d == day <==> d.0 == day.0);
        }
    }

    /// Takes the statistics of `day` out; a day without statistics gives
    /// empty ones.
    pub fn take_day(&mut self, day: Day) -> (stats: DayStatistics)
        ensures
            final(self)@ =~= old(self)@.remove(day),
            old(self)@.contains_key(day) ==> stats == old(self)@[day],
            !old(self)@.contains_key(day) ==> stats.attempts == (TypingStats { right: 0, wrong: 0 })
                && stats.new_unknown_words_count == 0 && stats.word_count_by_level.wf()
                && stats.word_count_by_level@ =~= Map::<WordType, nat>::empty(),
    {
        broadcast use vstd::std_specs::btree::group_btree_axioms;

        let taken = self.by_day.remove(&day.0);
        assert forall|d: Day| #[trigger] self@.contains_key(d) <==> old(self)@.remove(day).contains_key(d) by {
            assert(d == day <==> d.0 == day.0);
        }
        match taken {
            Some(stats) => stats,
            None => DayStatistics::default(),
        }
    }

    /// Counts the records of `words` by kind and files the counts under
    /// `today`, whose other statistics stay.
    pub fn update_day_statistics(&mut self, today: Day, words: &Words)
        requires
            words.wf(),
            length_all(words.record_lists()) <= u64::MAX,
        ensures
            final(self)@.dom() =~= old(self)@.dom().insert(today),
            forall|d: Day| d != today && old(self)@.contains_key(d) ==> #[trigger] final(self)@[d] == old(self)@[d],
            final(self)@[today].word_count_by_level.wf(),
            forall|kind: WordType| #[trigger]
                final(self)@[today].word_count_by_level.count(kind) == tally_all(words.record_lists(), kind),
            forall|kind: WordType| #[trigger]
                final(self)@[today].word_count_by_level@.contains_key(kind) <==> tally_all(
                    words.record_lists(),
                    kind,
                ) > 0,
            old(self)@.contains_key(today) ==> final(self)@[today].attempts == old(self)@[today].attempts
                && final(self)@[today].new_unknown_words_count == old(self)@[today].new_unknown_words_count,
            !old(self)@.contains_key(today) ==> final(self)@[today].attempts == (TypingStats {
                right: 0,
                wrong: 0,
            }) && final(self)@[today].new_unknown_words_count == 0,
    {
        let mut stats = self.take_day(today);
        stats.word_count_by_level = words.calculate_word_statistics();
        self.set_day(today, stats);
    }
    /// The days that have statistics, each once.
    pub fn days(&self) -> (days: Vec<Day>)
        ensures
            days@.no_duplicates(),
            forall|d: Day| days@.contains(d) <==> self@.contains_key(d),
    {
        broadcast use vstd::std_specs::btree::group_btree_axioms;

        let mut days: Vec<Day> = Vec::new();
        let keys = self.by_day.keys();
        let ghost all = keys.remaining().unref();
        for key in it: keys
            invariant
                all == it.seq().unref(),
                all.to_set() == self.by_day@.dom(),
                all.no_duplicates(),
                days@.len() == it.index(),
                forall|j: int| 0 <= j < days@.len() ==> (#[trigger] days@[j]).0 == all[j],
        {
            days.push(Day(*key));
        }
        proof {
            assert forall|a: int, b: int| 0 <= a < days@.len() && 0 <= b < days@.len() && a != b implies days@[a]
                != days@[b] by {
                assert(all[a] != all[b]);
            }
            assert forall|d: Day| days@.contains(d) <==> self@.contains_key(d) by {
                if days@.contains(d) {
                    let j = choose|j: int| 0 <= j < days@.len() && days@[j] == d;
                    assert(all[j] == d.0);
                    assert(all.to_set().contains(d.0));
                }
                if self@.contains_key(d) {
                    assert(all.to_set().contains(d.0));
                    let j = choose|j: int| 0 <= j < all.len() && all[j] == d.0;
                    assert(days@[j] == d);
                }
            }
        }
        days
    }
}

} // verus!
