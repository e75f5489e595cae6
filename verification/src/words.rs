//! The word store: every word with the records of its translations.
//!
//! Each word is held once. Every mutating operation keeps the two sides of a
//! pair together: what it does to the record under a word it also does to
//! the mirrored record under the translation.

use vstd::prelude::*;
use crate::batch::points;
use crate::assoc::{
    built_map, has_key, keys_of, lemma_built_map, lemma_sorted_at, lemma_sorted_distinct,
    lemma_sorted_insert, lemma_sorted_remove, lemma_sorted_update, lemma_to_map_keys, to_map,
};
use crate::day::Day;
use crate::ladder::{LearnType, rungs_positive};
use crate::model::{
    added, added_with, attempt_fits, fresh_record, learned_record, lemma_forward_only,
    lemma_mirror_known, lemma_mirror_to_learn, lemma_remove_step, lemma_target_is,
    lemma_target_of, lemma_without, lemma_words_of, mirror_of, pointed, points_at, record_changed,
    record_put, record_removed, records_of, records_wf, registered, removed, removed_via,
    renamed, retarget, symmetric, takes, target_of, tried, without, words_of, WordsToAddView,
    WordsView,
};
use crate::stats::{DayStatistics, TypingStats};
use crate::status::{WordStatus, WordStatusView};
use crate::symmetry::{
    lemma_add_keeps_symmetry, lemma_attempt_keeps_records_wf, lemma_attempt_keeps_symmetry,
    lemma_put_record_keeps_symmetry, lemma_remove_keeps_symmetry,
    lemma_remove_record_keeps_symmetry, lemma_rename_keeps_symmetry,
    lemma_rename_leaves_no_trace, lemma_replace_record_keeps_symmetry,
};
use crate::text::{
    ascending, lemma_precedes_irreflexive, lemma_precedes_total, lemma_precedes_transitive, precedes,
    same_text, text_before, texts,
};

verus! {

/// How a word is to be filed when it is added.
#[derive(Debug)]
pub enum WordsToAdd {
    /// The word was known before.
    KnowPreviously,
    /// The word is noise.
    TrashWord,
    /// The word is to be learned.
    ToLearn {
        /// Translations that count as learned already.
        learned: Vec<String>,
        /// Translations to learn.
        translations: Vec<String>,
    },
}

impl View for WordsToAdd {
    type V = WordsToAddView;

    open spec fn view(&self) -> WordsToAddView {
        match *self {
            WordsToAdd::KnowPreviously => WordsToAddView::KnowPreviously,
            WordsToAdd::TrashWord => WordsToAddView::TrashWord,
            WordsToAdd::ToLearn { learned, translations } => WordsToAddView::ToLearn {
                learned: texts(learned@),
                translations: texts(translations@),
            },
        }
    }
}

/// What a caller asked for does not fit what the store holds.
#[derive(Clone, Copy, Debug, PartialEq, Eq, Structural)]
pub enum Inconsistency {
    /// The word is not in the store.
    UnknownWord,
    /// The word has no record that points at the translation.
    UnknownTranslation,
    /// The record that would take the attempt does not accept it: it is not
    /// being learned, it does not fit the ladder, or a counter is full.
    AttemptRefused,
}

/// The records of a list, each as a value.
pub open spec fn views(records: Seq<WordStatus>) -> Seq<WordStatusView> {
    Seq::new(records.len(), |i: int| records[i]@)
}

/// All words of the program.
#[derive(Debug)]
pub struct Words {
    entries: Vec<(String, Vec<WordStatus>)>,
}

impl View for Words {
    type V = WordsView;

    /// The records of each word.
    closed spec fn view(&self) -> WordsView {
        to_map(self.pairs())
    }
}

impl Words {
    /// The entries as values, in the rising order of their words.
    pub closed spec fn pairs(&self) -> Seq<(Seq<char>, Seq<WordStatusView>)> {
        Seq::new(self.entries@.len(), |i: int| (self.entries@[i].0@, views(self.entries@[i].1@)))
    }

    /// The words of the store, in the order in which it holds them and
    /// hands them out: the order of strings.
    pub open spec fn words(&self) -> Seq<Seq<char>> {
        words_of(self@)
    }

    /// The entries stand in the strictly rising order of their words, so no
    /// word is held twice.
    pub open spec fn wf(&self) -> bool {
        ascending(keys_of(self.pairs()))
    }

    /// The words of the list are the words of the view, each once and in
    /// rising order, and each entry of the list is an entry of the view.
    pub proof fn lemma_words(&self)
        requires
            self.wf(),
        ensures
            self.words() == keys_of(self.pairs()),
            ascending(self.words()),
            self.words().no_duplicates(),
            self.words().len() == self.pairs().len(),
            self@.dom() =~= self.words().to_set(),
            forall|i: int|
                0 <= i < self.pairs().len() ==> self@.contains_key(#[trigger] self.words()[i])
                    && self@[self.words()[i]] == self.pairs()[i].1,
    {
        lemma_sorted_distinct(self.pairs());
        lemma_to_map_keys(self.pairs());
        lemma_words_of(keys_of(self.pairs()), self@);
        assert forall|i: int| 0 <= i < self.pairs().len() implies self@.contains_key(
            #[trigger] self.words()[i],
        ) && self@[self.words()[i]] == self.pairs()[i].1 by {
            lemma_sorted_at(self.pairs(), i);
        }
    }

    /// A store without words.
    pub fn new() -> (store: Words)
        ensures
            store.wf(),
            store@ =~= WordsView::empty(),
            store.words() =~= Seq::<Seq<char>>::empty(),
            symmetric(store@),
    {
        let store = Words { entries: Vec::new() };
        proof {
            assert(store.pairs() =~= Seq::<(Seq<char>, Seq<WordStatusView>)>::empty());
            store.lemma_words();
        }
        store
    }

    /// The place of `word` in the entry list: `Ok` of its position if the
    /// store holds it, `Err` of the position at which it would have to be
    /// put if it does not.
    fn slot(&self, word: &str) -> (place: Result<usize, usize>)
        requires
            self.wf(),
        ensures
            self.pairs().len() == self.entries@.len(),
            match place {
                Ok(i) => i < self.entries@.len() && self.pairs()[i as int].0 == word@ && self@.contains_key(
                    word@,
                ) && self@[word@] == self.pairs()[i as int].1 && self@[word@] == views(
                    self.entries@[i as int].1@,
                ),
                Err(p) => p <= self.entries@.len() && !has_key(self.pairs(), word@) && !self@.contains_key(
                    word@,
                ) && (forall|a: int| 0 <= a < p ==> precedes(#[trigger] self.pairs()[a].0, word@)) && (p
                    < self.entries@.len() ==> precedes(word@, self.pairs()[p as int].0)),
            },
    {
        let wanted = word.to_owned();
        let mut low: usize = 0;
        let mut high: usize = self.entries.len();
        while low < high
            invariant
                self.wf(),
                wanted@ == word@,
                self.pairs().len() == self.entries@.len(),
                low <= high <= self.entries@.len(),
                forall|a: int| 0 <= a < low ==> precedes(#[trigger] self.pairs()[a].0, word@),
                forall|a: int| high <= a < self.entries@.len() ==> precedes(word@, #[trigger] self.pairs()[a].0),
            decreases high - low,
        {
            let middle: usize = low + (high - low) / 2;
            assert(self.pairs()[middle as int].0 == self.entries@[middle as int].0@);
            if self.entries[middle].0 == wanted {
                proof {
                    lemma_sorted_at(self.pairs(), middle as int);
                }
                return Ok(middle);
            }
            if text_before(self.entries[middle].0.as_str(), word) {
                proof {
                    assert forall|a: int| 0 <= a < middle + 1 implies precedes(
                        #[trigger] self.pairs()[a].0,
                        word@,
                    ) by {
                        if a < middle {
                            assert(precedes(keys_of(self.pairs())[a], keys_of(self.pairs())[middle as int]));
                            lemma_precedes_transitive(self.pairs()[a].0, self.pairs()[middle as int].0, word@);
                        }
                    }
                }
                low = middle + 1;
            } else {
                proof {
                    lemma_precedes_total(self.pairs()[middle as int].0, word@);
                    assert forall|a: int| middle <= a < self.entries@.len() implies precedes(
                        word@,
                        #[trigger] self.pairs()[a].0,
                    ) by {
                        if a > middle {
                            assert(precedes(keys_of(self.pairs())[middle as int], keys_of(self.pairs())[a]));
                            lemma_precedes_transitive(word@, self.pairs()[middle as int].0, self.pairs()[a].0);
                        }
                    }
                }
                high = middle;
            }
        }
        proof {
            if has_key(self.pairs(), word@) {
                let q = choose|q: int| 0 <= q < self.pairs().len() && #[trigger] self.pairs()[q].0 == word@;
                lemma_precedes_irreflexive(word@);
            }
        }
        Err(low)
    }

    /// The position of `word` in the entry list.
    fn find(&self, word: &str) -> (found: Option<usize>)
        requires
            self.wf(),
        ensures
            match found {
                Some(i) => i < self.pairs().len() && i < self.entries@.len() && self.pairs()[i as int].0
                    == word@ && self@.contains_key(word@) && self@[word@] == self.pairs()[i as int].1
                    && self@[word@] == views(self.entries@[i as int].1@),
                None => !has_key(self.pairs(), word@) && !self@.contains_key(word@),
            },
    {
        match self.slot(word) {
            Ok(i) => Some(i),
            Err(_) => None,
        }
    }

    /// Puts a new entry at the place that `slot` gave for its word.
    fn put_entry(&mut self, place: usize, word: String, records: Vec<WordStatus>)
        requires
            old(self).wf(),
            place <= old(self).pairs().len(),
            forall|a: int| 0 <= a < place ==> precedes(#[trigger] old(self).pairs()[a].0, word@),
            place < old(self).pairs().len() ==> precedes(word@, old(self).pairs()[place as int].0),
        ensures
            final(self).wf(),
            final(self)@ == old(self)@.insert(word@, views(records@)),
    {
        self.entries.insert(place, (word, records));
        proof {
            assert(self.pairs() =~= old(self).pairs().insert(place as int, (word@, views(records@))));
            lemma_sorted_insert(old(self).pairs(), place as int, word@, views(records@));
        }
    }

    /// Every word of the store, in rising order.
    pub fn calculate_known_words(&self) -> (known: Vec<String>)
        requires
            self.wf(),
        ensures
            texts(known@) == self.words(),
    {
        proof {
            self.lemma_words();
        }
        let mut known: Vec<String> = Vec::new();
        let mut i: usize = 0;
        while i < self.entries.len()
            invariant
                i <= self.entries@.len(),
                known@.len() == i,
                forall|k: int| 0 <= k < i ==> (#[trigger] known@[k])@ == self.entries@[k].0@,
            decreases self.entries@.len() - i,
        {
            known.push(self.entries[i].0.clone());
            i += 1;
        }
        assert(texts(known@) =~= keys_of(self.pairs()));
        known
    }

    /// The number of words.
    pub fn len(&self) -> (n: usize)
        requires
            self.wf(),
        ensures
            n == self.words().len(),
    {
        proof {
            self.lemma_words();
        }
        self.entries.len()
    }

    /// The word at a position of the order of strings.
    pub fn word_at(&self, pos: usize) -> (word: &str)
        requires
            self.wf(),
            pos < self.words().len(),
        ensures
            word@ == self.words()[pos as int],
    {
        proof {
            self.lemma_words();
        }
        self.entries[pos].0.as_str()
    }

    /// The position of `word` among the words, in the order of strings.
    pub fn position(&self, word: &str) -> (found: Option<usize>)
        requires
            self.wf(),
        ensures
            match found {
                Some(i) => i < self.words().len() && self.words()[i as int] == word@ && self@.contains_key(
                    word@,
                ),
                None => !self@.contains_key(word@),
            },
    {
        proof {
            self.lemma_words();
        }
        self.find(word)
    }

    /// The records of the word at a position of the order of strings.
    pub fn statuses_at(&self, pos: usize) -> (records: &Vec<WordStatus>)
        requires
            self.wf(),
            pos < self.words().len(),
        ensures
            self@.contains_key(self.words()[pos as int]),
            views(records@) == self@[self.words()[pos as int]],
    {
        proof {
            self.lemma_words();
            lemma_sorted_at(self.pairs(), pos as int);
        }
        &self.entries[pos].1
    }

    /// Whether `word` is in the store.
    pub fn contains_word(&self, word: &str) -> (held: bool)
        requires
            self.wf(),
        ensures
            held == self@.contains_key(word@),
    {
        self.find(word).is_some()
    }

    /// A copy of the records under `word`.
    pub fn statuses(&self, word: &str) -> (records: Option<Vec<WordStatus>>)
        requires
            self.wf(),
        ensures
            match records {
                Some(list) => self@.contains_key(word@) && views(list@) == self@[word@],
                None => !self@.contains_key(word@),
            },
    {
        match self.find(word) {
            Some(i) => {
                let list = &self.entries[i].1;
                let mut copy: Vec<WordStatus> = Vec::new();
                let mut j: usize = 0;
                while j < list.len()
                    invariant
                        j <= list@.len(),
                        copy@.len() == j,
                        forall|k: int| 0 <= k < j ==> copy@[k]@ == list@[k]@,
                    decreases list@.len() - j,
                {
                    copy.push(list[j].clone());
                    j += 1;
                }
                assert(views(copy@) =~= views(list@));
                Some(copy)
            },
            None => None,
        }
    }

    /// Puts `records` under `word`, in place of what the word had.
    pub(crate) fn set_statuses(&mut self, word: String, records: Vec<WordStatus>)
        requires
            old(self).wf(),
        ensures
            final(self).wf(),
            final(self)@ == old(self)@.insert(word@, views(records@)),
    {
        match self.slot(word.as_str()) {
            Ok(i) => {
                self.entries[i].1 = records;
                proof {
                    assert(self.pairs() =~= old(self).pairs().update(i as int, (word@, views(records@))));
                    lemma_sorted_update(old(self).pairs(), i as int, views(records@));
                }
            },
            Err(place) => {
                self.put_entry(place, word, records);
            },
        }
    }

    /// Appends `record` to the records of `word`, which becomes a word of
    /// the store if it was none.
    fn push_record(&mut self, word: &str, record: WordStatus)
        requires
            old(self).wf(),
        ensures
            final(self).wf(),
            final(self)@ == old(self)@.insert(word@, records_of(old(self)@, word@).push(record@)),
    {
        match self.slot(word) {
            Ok(i) => {
                self.entries[i].1.push(record);
                proof {
                    let list = records_of(old(self)@, word@).push(record@);
                    assert(views(self.entries@[i as int].1@) =~= list);
                    assert(self.pairs() =~= old(self).pairs().update(i as int, (word@, list)));
                    lemma_sorted_update(old(self).pairs(), i as int, list);
                }
            },
            Err(place) => {
                let mut list: Vec<WordStatus> = Vec::new();
                list.push(record);
                assert(views(list@) =~= records_of(old(self)@, word@).push(record@));
                self.put_entry(place, word.to_owned(), list);
            },
        }
    }

    /// Makes `word` a word of the store, without records if it was none.
    fn touch(&mut self, word: &str)
        requires
            old(self).wf(),
        ensures
            final(self).wf(),
            final(self)@ == old(self)@.insert(word@, records_of(old(self)@, word@)),
    {
        match self.slot(word) {
            Ok(_) => {
                assert(self@ =~= old(self)@.insert(word@, records_of(old(self)@, word@)));
            },
            Err(place) => {
                let list: Vec<WordStatus> = Vec::new();
                assert(views(list@) =~= Seq::<WordStatusView>::empty());
                self.put_entry(place, word.to_owned(), list);
            },
        }
    }

    /// Whether no record under `word` is still being learned.
    pub fn is_learned(&self, word: &str) -> (learned: Result<bool, Inconsistency>)
        requires
            self.wf(),
        ensures
            match learned {
                Ok(all) => self@.contains_key(word@) && (all <==> forall|i: int|
                    0 <= i < self@[word@].len() ==> !((#[trigger] self@[word@][i]) is ToLearn)),
                Err(e) => e == Inconsistency::UnknownWord && !self@.contains_key(word@),
            },
    {
        match self.find(word) {
            Some(i) => {
                let list = &self.entries[i].1;
                let mut j: usize = 0;
                while j < list.len()
                    invariant
                        j <= list@.len(),
                        self@.contains_key(word@),
                        self@[word@] == views(list@),
                        forall|k: int| 0 <= k < j ==> !(list@[k]@ is ToLearn),
                    decreases list@.len() - j,
                {
                    if let WordStatus::ToLearn { .. } = list[j] {
                        assert(self@[word@][j as int] is ToLearn);
                        return Ok(false);
                    }
                    j += 1;
                }
                assert forall|k: int| 0 <= k < self@[word@].len() implies !((#[trigger] self@[word@][k]) is ToLearn) by {
                    assert(self@[word@][k] == list@[k]@);
                }
                Ok(true)
            },
            None => Err(Inconsistency::UnknownWord),
        }
    }
    /// Adds `word`, filed as `info`, on `today`.
    ///
    /// A word to learn receives an active record for each translation to
    /// learn and a finished record for each translation that counts as
    /// learned, and each translation receives the record that points back at
    /// `word`. Every translation raises the day's count of new words by one.
    pub fn add_word(&mut self, word: String, info: WordsToAdd, today: Day, day_stats: &mut DayStatistics)
        requires
            old(self).wf(),
            old(day_stats).new_unknown_words_count + info@.to_learn().len() + info@.known().len()
                <= u64::MAX,
        ensures
            final(self).wf(),
            final(self)@ == added(old(self)@, word@, info@, today),
            symmetric(old(self)@) ==> symmetric(final(self)@),
            final(day_stats).new_unknown_words_count == old(day_stats).new_unknown_words_count
                + info@.to_learn().len() + info@.known().len(),
            final(day_stats).attempts == old(day_stats).attempts,
            final(day_stats).word_count_by_level == old(day_stats).word_count_by_level,
    {
        let ghost m = self@;
        let ghost iv = info@;
        let ghost fwd = iv.forward(today);
        let ghost none = Seq::<Seq<char>>::empty();
        proof {
            if symmetric(m) {
                lemma_add_keeps_symmetry(m, word@, iv, today);
            }
        }
        match info {
            WordsToAdd::KnowPreviously => {
                self.push_record(word.as_str(), WordStatus::KnowPreviously);
                proof {
                    assert(records_of(m, word@).push(WordStatusView::KnowPreviously) =~= records_of(m, word@) + fwd);
                    lemma_forward_only(m, word@, fwd, today);
                }
            },
            WordsToAdd::TrashWord => {
                self.push_record(word.as_str(), WordStatus::TrashWord);
                proof {
                    assert(records_of(m, word@).push(WordStatusView::TrashWord) =~= records_of(m, word@) + fwd);
                    lemma_forward_only(m, word@, fwd, today);
                }
            },
            WordsToAdd::ToLearn { learned, translations } => {
                let ghost tl = texts(translations@);
                let ghost kn = texts(learned@);
                self.touch(word.as_str());
                let mut i: usize = 0;
                while i < translations.len()
                    invariant
                        self.wf(),
                        i <= translations@.len(),
                        tl == texts(translations@),
                        self@ == m.insert(
                            word@,
                            records_of(m, word@) + Seq::new(i as nat, |k: int| fresh_record(tl[k], today)),
                        ),
                        day_stats.new_unknown_words_count == old(day_stats).new_unknown_words_count + i,
                        old(day_stats).new_unknown_words_count + translations@.len() + learned@.len()
                            <= u64::MAX,
                        day_stats.attempts == old(day_stats).attempts,
                        day_stats.word_count_by_level == old(day_stats).word_count_by_level,
                    decreases translations@.len() - i,
                {
                    let ghost before = self@;
                    self.push_record(
                        word.as_str(),
                        WordStatus::ToLearn {
                            translation: translations[i].clone(),
                            last_learn: today,
                            current_level: 0,
                            current_count: 0,
                            stats: TypingStats { right: 0, wrong: 0 },
                        },
                    );
                    day_stats.new_unknown_words_count += 1;
                    proof {
                        assert(records_of(before, word@).push(fresh_record(tl[i as int], today)) =~= records_of(
                            m,
                            word@,
                        ) + Seq::new((i + 1) as nat, |k: int| fresh_record(tl[k], today)));
                        assert(self@ =~= m.insert(
                            word@,
                            records_of(m, word@) + Seq::new((i + 1) as nat, |k: int| fresh_record(tl[k], today)),
                        ));
                    }
                    i += 1;
                }
                let ghost first = Seq::new(tl.len(), |k: int| fresh_record(tl[k], today));
                let mut j: usize = 0;
                while j < learned.len()
                    invariant
                        self.wf(),
                        j <= learned@.len(),
                        kn == texts(learned@),
                        first == Seq::new(tl.len(), |k: int| fresh_record(tl[k], today)),
                        self@ == m.insert(
                            word@,
                            records_of(m, word@) + first + Seq::new(j as nat, |k: int| learned_record(kn[k])),
                        ),
                        day_stats.new_unknown_words_count == old(day_stats).new_unknown_words_count + tl.len()
                            + j,
                        old(day_stats).new_unknown_words_count + tl.len() + learned@.len() <= u64::MAX,
                        day_stats.attempts == old(day_stats).attempts,
                        day_stats.word_count_by_level == old(day_stats).word_count_by_level,
                    decreases learned@.len() - j,
                {
                    let ghost before = self@;
                    self.push_record(
                        word.as_str(),
                        WordStatus::Learned {
                            translation: learned[j].clone(),
                            stats: TypingStats { right: 0, wrong: 0 },
                        },
                    );
                    day_stats.new_unknown_words_count += 1;
                    proof {
                        assert(records_of(before, word@).push(learned_record(kn[j as int])) =~= records_of(
                            m,
                            word@,
                        ) + first + Seq::new((j + 1) as nat, |k: int| learned_record(kn[k])));
                        assert(self@ =~= m.insert(
                            word@,
                            records_of(m, word@) + first + Seq::new(
                                (j + 1) as nat,
                                |k: int| learned_record(kn[k]),
                            ),
                        ));
                    }
                    j += 1;
                }
                proof {
                    assert(records_of(m, word@) + first + Seq::new(kn.len(), |k: int| learned_record(kn[k]))
                        =~= records_of(m, word@) + fwd);
                    lemma_forward_only(m, word@, fwd, today);
                    assert(tl.take(0) =~= none);
                }
                let mut i: usize = 0;
                while i < translations.len()
                    invariant
                        self.wf(),
                        i <= translations@.len(),
                        tl == texts(translations@),
                        none == Seq::<Seq<char>>::empty(),
                        self@ == added_with(m, word@, fwd, tl.take(i as int), none, today),
                    decreases translations@.len() - i,
                {
                    self.push_record(
                        translations[i].as_str(),
                        WordStatus::ToLearn {
                            translation: word.clone(),
                            last_learn: today,
                            current_level: 0,
                            current_count: 0,
                            stats: TypingStats { right: 0, wrong: 0 },
                        },
                    );
                    proof {
                        lemma_mirror_to_learn(m, word@, fwd, tl, i as int, today);
                    }
                    i += 1;
                }
                proof {
                    assert(tl.take(tl.len() as int) =~= tl);
                    assert(kn.take(0) =~= none);
                }
                let mut j: usize = 0;
                while j < learned.len()
                    invariant
                        self.wf(),
                        j <= learned@.len(),
                        kn == texts(learned@),
                        self@ == added_with(m, word@, fwd, tl, kn.take(j as int), today),
                    decreases learned@.len() - j,
                {
                    self.push_record(
                        learned[j].as_str(),
                        WordStatus::Learned {
                            translation: word.clone(),
                            stats: TypingStats { right: 0, wrong: 0 },
                        },
                    );
                    proof {
                        lemma_mirror_known(m, word@, fwd, tl, kn, j as int, today);
                    }
                    j += 1;
                }
                proof {
                    assert(kn.take(kn.len() as int) =~= kn);
                }
            },
        }
    }

    /// Whether an attempt on the pair can be registered: decides
    /// [`attempt_fits`] together with room in the day's counter.
    pub fn attempt_allowed(
        &self,
        word: &str,
        translation: &str,
        correct: bool,
        day_stats: &DayStatistics,
        type_count: &[LearnType],
    ) -> (allowed: bool)
        requires
            self.wf(),
        ensures
            allowed == (attempt_fits(self@, word@, translation@, correct, type_count@) && (target_of(
                records_of(self@, word@),
                translation@,
            ) is Some ==> day_stats.attempts.has_room(correct))),
    {
        match self.find(word) {
            Some(i) => {
                let list = &self.entries[i].1;
                let mut j: usize = 0;
                while j < list.len()
                    invariant
                        j <= list@.len(),
                        self@.contains_key(word@),
                        self@[word@] == views(list@),
                        forall|k: int| 0 <= k < j ==> !(#[trigger] self@[word@][k]).has_translation(translation@),
                    decreases list@.len() - j,
                {
                    if list[j].has_translation(translation) {
                        proof {
                            assert(self@[word@][j as int] == list@[j as int]@);
                            lemma_target_is(self@[word@], translation@, j as int);
                        }
                        return list[j].can_register(correct, type_count) && day_stats.attempts.can_count(
                            correct,
                        );
                    }
                    j += 1;
                }
                proof {
                    lemma_target_of(self@[word@], translation@);
                }
                true
            },
            None => {
                proof {
                    lemma_target_of(records_of(self@, word@), translation@);
                }
                true
            },
        }
    }

    /// Registers an attempt on the pair of `word` and `translation`, made on
    /// `today`: the first record under `word` that points at `translation`
    /// takes it, and the day's counter counts it. Where the word or the
    /// record is missing, nothing changes and the miss is reported.
    pub fn register_attempt(
        &mut self,
        word: &str,
        translation: &str,
        correct: bool,
        today: Day,
        day_stats: &mut DayStatistics,
        type_count: &[LearnType],
    ) -> (outcome: Result<(), Inconsistency>)
        requires
            old(self).wf(),
            attempt_fits(old(self)@, word@, translation@, correct, type_count@),
            target_of(records_of(old(self)@, word@), translation@) is Some ==> old(day_stats).attempts.has_room(correct),
        ensures
            final(self).wf(),
            final(self)@ == registered(old(self)@, word@, translation@, correct, today, type_count@),
            symmetric(old(self)@) ==> symmetric(final(self)@),
            records_wf(old(self)@, type_count@) && rungs_positive(type_count@) ==> records_wf(
                final(self)@,
                type_count@,
            ),
            match outcome {
                Ok(_) => target_of(records_of(old(self)@, word@), translation@) is Some && final(day_stats).attempts == old(day_stats).attempts.count(correct),
                Err(e) => final(day_stats).attempts == old(day_stats).attempts && target_of(
                    records_of(old(self)@, word@),
                    translation@,
                ) is None && (e == Inconsistency::UnknownWord <==> !old(self)@.contains_key(word@)) && (e
                    == Inconsistency::UnknownTranslation <==> old(self)@.contains_key(word@)),
            },
            final(day_stats).new_unknown_words_count == old(day_stats).new_unknown_words_count,
            final(day_stats).word_count_by_level == old(day_stats).word_count_by_level,
    {
        match self.find(word) {
            Some(i) => {
                let n: usize = self.entries[i].1.len();
                let mut j: usize = 0;
                while j < n
                    invariant
                        j <= n,
                        i < self.entries@.len(),
                        n == self.entries@[i as int].1@.len(),
                        *self == *old(self),
                        *day_stats == *old(day_stats),
                        self.wf(),
                        attempt_fits(self@, word@, translation@, correct, type_count@),
                        target_of(records_of(self@, word@), translation@) is Some
                            ==> day_stats.attempts.has_room(correct),
                        self@.contains_key(word@),
                        self.pairs()[i as int].0 == word@,
                        self@[word@] == views(self.entries@[i as int].1@),
                        forall|k: int| 0 <= k < j ==> !(#[trigger] self@[word@][k]).has_translation(translation@),
                    decreases n - j,
                {
                    if self.entries[i].1[j].has_translation(translation) {
                        proof {
                            assert(self@[word@][j as int] == self.entries@[i as int].1@[j as int]@);
                            lemma_target_is(self@[word@], translation@, j as int);
                        }
                        self.entries[i].1[j].register_attempt(correct, today, day_stats, type_count);
                        proof {
                            let list = old(self)@[word@].update(
                                j as int,
                                old(self)@[word@][j as int].after_attempt(correct, today, type_count@),
                            );
                            assert(views(self.entries@[i as int].1@) =~= list);
                            assert(self.pairs() =~= old(self).pairs().update(i as int, (word@, list)));
                            lemma_sorted_update(old(self).pairs(), i as int, list);
                            let m = old(self)@;
                            if symmetric(m) {
                                lemma_attempt_keeps_symmetry(m, word@, translation@, correct, today, type_count@);
                            }
                            if records_wf(m, type_count@) && rungs_positive(type_count@) {
                                lemma_attempt_keeps_records_wf(m, word@, translation@, correct, today, type_count@);
                            }
                        }
                        return Ok(());
                    }
                    j += 1;
                }
                proof {
                    lemma_target_of(self@[word@], translation@);
                }
                Err(Inconsistency::UnknownTranslation)
            },
            None => {
                proof {
                    lemma_target_of(records_of(self@, word@), translation@);
                }
                Err(Inconsistency::UnknownWord)
            },
        }
    }
    /// The translations that the records of `list` point at, in order.
    fn translations_of(list: &Vec<WordStatus>) -> (translations: Vec<String>)
        ensures
            forall|k: Seq<char>| texts(translations@).contains(k) <==> points_at(views(list@), k),
    {
        let mut translations: Vec<String> = Vec::new();
        let mut i: usize = 0;
        while i < list.len()
            invariant
                i <= list@.len(),
                forall|k: Seq<char>|
                    texts(translations@).contains(k) <==> points_at(views(list@).take(i as int), k),
            decreases list@.len() - i,
        {
            let ghost before = texts(translations@);
            match list[i].translation() {
                Some(t) => {
                    translations.push(t.to_owned());
                },
                None => {},
            }
            proof {
                let now = texts(translations@);
                let head = views(list@).take(i as int);
                let more = views(list@).take(i + 1);
                let r = list@[i as int]@;
                assert(more[i as int] == r);
                assert forall|k: Seq<char>| now.contains(k) <==> points_at(more, k) by {
                    if now.contains(k) {
                        let p = choose|p: int| 0 <= p < now.len() && now[p] == k;
                        if p < before.len() {
                            assert(before[p] == k);
                            assert(before.contains(k));
                            let q = choose|q: int| 0 <= q < head.len() && (#[trigger] head[q]).has_translation(k);
                            assert(more[q].has_translation(k));
                        } else {
                            assert(more[i as int].has_translation(k));
                        }
                    }
                    if points_at(more, k) {
                        let q = choose|q: int| 0 <= q < more.len() && (#[trigger] more[q]).has_translation(k);
                        if q < i {
                            assert(head[q].has_translation(k));
                            assert(before.contains(k));
                            let p = choose|p: int| 0 <= p < before.len() && before[p] == k;
                            assert(now[p] == k);
                        } else {
                            assert(now[now.len() - 1] == k);
                        }
                    }
                }
            }
            i += 1;
        }
        assert(views(list@).take(list@.len() as int) =~= views(list@));
        translations
    }

    /// Copies of the records of `list` that do not point at `word`.
    fn records_without(list: &Vec<WordStatus>, word: &str) -> (kept: Vec<WordStatus>)
        ensures
            views(kept@) == without(views(list@), word@),
    {
        let mut kept: Vec<WordStatus> = Vec::new();
        let mut i: usize = 0;
        assert(views(list@).take(0) =~= Seq::<WordStatusView>::empty());
        while i < list.len()
            invariant
                i <= list@.len(),
                views(kept@) == without(views(list@).take(i as int), word@),
            decreases list@.len() - i,
        {
            let ghost before = views(kept@);
            if !list[i].has_translation(word) {
                kept.push(list[i].clone());
            }
            proof {
                let more = views(list@).take(i + 1);
                assert(more.drop_last() =~= views(list@).take(i as int));
                assert(more.last() == list@[i as int]@);
                if !list@[i as int]@.has_translation(word@) {
                    assert(views(kept@) =~= before.push(list@[i as int]@));
                } else {
                    assert(views(kept@) =~= before);
                }
            }
            i += 1;
        }
        assert(views(list@).take(list@.len() as int) =~= views(list@));
        kept
    }

    /// Takes from the records of `key` those that point at `word`, and
    /// removes `key` if none is left.
    fn drop_mirrors(&mut self, key: &str, word: &str)
        requires
            old(self).wf(),
        ensures
            final(self).wf(),
            final(self)@ == (if !old(self)@.contains_key(key@) {
                old(self)@
            } else if without(old(self)@[key@], word@).len() == 0 {
                old(self)@.remove(key@)
            } else {
                old(self)@.insert(key@, without(old(self)@[key@], word@))
            }),
    {
        match self.find(key) {
            Some(j) => {
                let kept = Self::records_without(&self.entries[j].1, word);
                if kept.len() == 0 {
                    self.entries.remove(j);
                    proof {
                        assert(self.pairs() =~= old(self).pairs().remove(j as int));
                        lemma_sorted_remove(old(self).pairs(), j as int);
                    }
                } else {
                    self.entries[j].1 = kept;
                    proof {
                        let list = without(old(self)@[key@], word@);
                        assert(self.pairs() =~= old(self).pairs().update(j as int, (key@, list)));
                        lemma_sorted_update(old(self).pairs(), j as int, list);
                    }
                }
            },
            None => {},
        }
    }

    /// Makes every record of the store that points at `from` point at `to`.
    fn retarget_all(&mut self, from: &str, to: &str)
        requires
            old(self).wf(),
        ensures
            final(self).wf(),
            final(self)@ == Map::new(
                |k: Seq<char>| old(self)@.contains_key(k),
                |k: Seq<char>| retarget(old(self)@[k], from@, to@),
            ),
    {
        let n: usize = self.entries.len();
        let mut i: usize = 0;
        while i < n
            invariant
                i <= n,
                n == self.entries@.len(),
                n == old(self).entries@.len(),
                forall|k: int|
                    0 <= k < i ==> (#[trigger] self.entries@[k]).0 == old(self).entries@[k].0 && views(
                        self.entries@[k].1@,
                    ) == retarget(views(old(self).entries@[k].1@), from@, to@),
                forall|k: int| i <= k < n ==> #[trigger] self.entries@[k] == old(self).entries@[k],
            decreases n - i,
        {
            retarget_list(&mut self.entries[i].1, from, to);
            i += 1;
        }
        proof {
            let before = old(self).pairs();
            let after = self.pairs();
            assert(after.len() == before.len());
            assert forall|k: int| 0 <= k < after.len() implies #[trigger] after[k] == (
                before[k].0,
                retarget(before[k].1, from@, to@),
            ) by {
                assert(self.entries@[k].0 == old(self).entries@[k].0);
            }
            assert(keys_of(after) =~= keys_of(before));
            let goal = Map::new(
                |k: Seq<char>| old(self)@.contains_key(k),
                |k: Seq<char>| retarget(old(self)@[k], from@, to@),
            );
            assert forall|k: Seq<char>| self@.contains_key(k) <==> goal.contains_key(k) by {
                if has_key(after, k) {
                    let q = choose|q: int| 0 <= q < after.len() && #[trigger] after[q].0 == k;
                    assert(before[q].0 == k);
                }
                if has_key(before, k) {
                    let q = choose|q: int| 0 <= q < before.len() && #[trigger] before[q].0 == k;
                    assert(after[q].0 == k);
                }
            }
            assert forall|k: Seq<char>| self@.contains_key(k) implies #[trigger] self@[k] == goal[k] by {
                let q = choose|q: int| 0 <= q < after.len() && #[trigger] after[q].0 == k;
                lemma_sorted_at(after, q);
                lemma_sorted_at(before, q);
            }
            assert(self@ =~= goal);
        }
    }

    /// Removes `word` with all its records, and with them the records of
    /// its translations that point back at it. A translation that is left
    /// without records is removed as well.
    pub fn remove_word(&mut self, word: &str)
        requires
            old(self).wf(),
            old(self)@.contains_key(word@),
        ensures
            final(self).wf(),
            final(self)@ == removed(old(self)@, word@),
            symmetric(old(self)@) ==> symmetric(final(self)@),
    {
        let ghost m = self@;
        proof {
            if symmetric(m) {
                lemma_remove_keeps_symmetry(m, word@);
            }
        }
        match self.find(word) {
            Some(i) => {
                let entry = self.entries.remove(i);
                proof {
                    assert(self.pairs() =~= old(self).pairs().remove(i as int));
                    lemma_sorted_remove(old(self).pairs(), i as int);
                }
                let translations = Self::translations_of(&entry.1);
                let ghost tl = texts(translations@);
                assert(self@ =~= removed_via(m, word@, Set::new(|k: Seq<char>| tl.take(0).contains(k))));
                let mut n: usize = 0;
                while n < translations.len()
                    invariant
                        self.wf(),
                        n <= translations@.len(),
                        tl == texts(translations@),
                        self@ == removed_via(m, word@, Set::new(|k: Seq<char>| tl.take(n as int).contains(k))),
                    decreases translations@.len() - n,
                {
                    self.drop_mirrors(translations[n].as_str(), word);
                    proof {
                        let seen = Set::new(|k: Seq<char>| tl.take(n as int).contains(k));
                        let more = Set::new(|k: Seq<char>| tl.take(n + 1).contains(k));
                        lemma_take_contains(tl, n as int);
                        assert forall|k: Seq<char>| more.contains(k) <==> seen.insert(tl[n as int]).contains(
                            k,
                        ) by {
                            assert(more.contains(k) <==> tl.take(n + 1).contains(k));
                            assert(seen.contains(k) <==> tl.take(n as int).contains(k));
                        }
                        assert(more =~= seen.insert(tl[n as int]));
                        lemma_remove_step(m, word@, seen, tl[n as int]);
                    }
                    n += 1;
                }
                proof {
                    assert(tl.take(tl.len() as int) =~= tl);
                    assert(Set::new(|k: Seq<char>| tl.contains(k)) =~= pointed(records_of(m, word@)));
                }
            },
            None => {},
        }
    }

    /// Renames `word` to `new_word`. Every record of the store that pointed
    /// at `word` points at `new_word`; the records of `word` move to
    /// `new_word`, where they follow the records that `new_word` held
    /// already if it was a word of the store. Every pair stays mirrored.
    pub fn rename_word(&mut self, word: &str, new_word: &str)
        requires
            old(self).wf(),
            old(self)@.contains_key(word@),
        ensures
            final(self).wf(),
            final(self)@ == renamed(old(self)@, word@, new_word@),
            symmetric(old(self)@) ==> symmetric(final(self)@),
            new_word@ != word@ ==> !final(self)@.contains_key(word@) && final(self)@.contains_key(new_word@),
            new_word@ != word@ ==> forall|k: Seq<char>, i: int|
                final(self)@.contains_key(k) && 0 <= i < final(self)@[k].len() ==> !(#[trigger] final(self)@[k][i]).has_translation(word@),
    {
        let ghost m = self@;
        proof {
            if symmetric(m) {
                lemma_rename_keeps_symmetry(m, word@, new_word@);
            }
            if new_word@ != word@ {
                lemma_rename_leaves_no_trace(m, word@, new_word@);
            }
        }
        if same_text(word, new_word) {
            return;
        }
        match self.slot(word) {
            Ok(i) => {
                let entry = self.entries.remove(i);
                proof {
                    assert(self.pairs() =~= old(self).pairs().remove(i as int));
                    lemma_sorted_remove(old(self).pairs(), i as int);
                }
                let mut moved = entry.1;
                retarget_list(&mut moved, word, new_word);
                self.retarget_all(word, new_word);
                let ghost rest = self@;
                match self.slot(new_word) {
                    Ok(j) => {
                        let ghost before = self.pairs();
                        let ghost list = rest[new_word@] + views(moved@);
                        self.entries[j].1.append(&mut moved);
                        proof {
                            assert(views(self.entries@[j as int].1@) =~= list);
                            assert(self.pairs() =~= before.update(j as int, (new_word@, list)));
                            lemma_sorted_update(before, j as int, list);
                        }
                        assert(self@ =~= renamed(m, word@, new_word@));
                    },
                    Err(place) => {
                        self.put_entry(place, new_word.to_owned(), moved);
                        assert(self@ =~= renamed(m, word@, new_word@));
                    },
                }
            },
            Err(_) => {},
        }
    }

    /// Registers an attempt if it can be taken, and reports why not if it
    /// cannot: nothing changes then.
    pub fn try_register_attempt(
        &mut self,
        word: &str,
        translation: &str,
        correct: bool,
        today: Day,
        day_stats: &mut DayStatistics,
        type_count: &[LearnType],
    ) -> (outcome: Result<(), Inconsistency>)
        requires
            old(self).wf(),
        ensures
            final(self).wf(),
            (final(self)@, final(day_stats).attempts) == tried(
                old(self)@,
                old(day_stats).attempts,
                word@,
                translation@,
                correct,
                today,
                type_count@,
            ),
            symmetric(old(self)@) ==> symmetric(final(self)@),
            records_wf(old(self)@, type_count@) && rungs_positive(type_count@) ==> records_wf(
                final(self)@,
                type_count@,
            ),
            outcome is Ok <==> takes(
                old(self)@,
                old(day_stats).attempts,
                word@,
                translation@,
                correct,
                type_count@,
            ),
            outcome == Err::<(), Inconsistency>(Inconsistency::UnknownWord) <==> !old(self)@.contains_key(
                word@,
            ),
            outcome == Err::<(), Inconsistency>(Inconsistency::UnknownTranslation) <==> old(self)@.contains_key(word@) && target_of(records_of(old(self)@, word@), translation@) is None,
            final(day_stats).new_unknown_words_count == old(day_stats).new_unknown_words_count,
            final(day_stats).word_count_by_level == old(day_stats).word_count_by_level,
    {
        if self.attempt_allowed(word, translation, correct, day_stats, type_count) {
            self.register_attempt(word, translation, correct, today, day_stats, type_count)
        } else {
            Err(Inconsistency::AttemptRefused)
        }
    }
    /// Every word with a copy of its records, in the order of strings.
    pub fn entries(&self) -> (list: Vec<(String, Vec<WordStatus>)>)
        requires
            self.wf(),
        ensures
            entry_views(list@) == self.pairs(),
            keys_of(entry_views(list@)) == self.words(),
            built_map(entry_views(list@)) == self@,
    {
        proof {
            self.lemma_words();
        }
        let mut list: Vec<(String, Vec<WordStatus>)> = Vec::new();
        let mut i: usize = 0;
        while i < self.entries.len()
            invariant
                i <= self.entries@.len(),
                list@.len() == i,
                forall|k: int|
                    0 <= k < i ==> (#[trigger] list@[k]).0@ == self.entries@[k].0@ && views(list@[k].1@) == views(
                        self.entries@[k].1@,
                    ),
            decreases self.entries@.len() - i,
        {
            let records = &self.entries[i].1;
            let mut copy: Vec<WordStatus> = Vec::new();
            let mut j: usize = 0;
            while j < records.len()
                invariant
                    j <= records@.len(),
                    copy@.len() == j,
                    forall|k: int| 0 <= k < j ==> copy@[k]@ == records@[k]@,
                decreases records@.len() - j,
            {
                copy.push(records[j].clone());
                j += 1;
            }
            assert(views(copy@) =~= views(records@));
            list.push((self.entries[i].0.clone(), copy));
            i += 1;
        }
        proof {
            assert(entry_views(list@) =~= self.pairs());
            lemma_sorted_distinct(self.pairs());
            lemma_built_map(self.pairs());
        }
        list
    }

    /// The store that holds the entries of `list`: each word with its
    /// records, a later entry replacing an earlier one of the same word.
    /// This is how a stored state comes back: the store is what the list
    /// says, mirrored if the list is.
    pub fn from_entries(list: Vec<(String, Vec<WordStatus>)>) -> (store: Words)
        ensures
            store.wf(),
            store@ == built_map(entry_views(list@)),
    {
        let mut store = Words::new();
        let mut list = list;
        let ghost all = entry_views(list@);
        let ghost n = all.len();
        assert(all.take(0) =~= Seq::<(Seq<char>, Seq<WordStatusView>)>::empty());
        while list.len() > 0
            invariant
                store.wf(),
                list@.len() <= n,
                n == all.len(),
                entry_views(list@) == all.skip(n - list@.len()),
                store@ == built_map(all.take(n - list@.len())),
            decreases list@.len(),
        {
            let ghost done = n - list@.len();
            let ghost rest = entry_views(list@);
            let entry = list.remove(0);
            proof {
                assert(rest[0] == all[done]);
                assert forall|k: int| 0 <= k < entry_views(list@).len() implies entry_views(list@)[k] == all.skip(
                    done + 1,
                )[k] by {
                    assert(entry_views(list@)[k] == rest[k + 1]);
                    assert(rest[k + 1] == all[done + k + 1]);
                }
                assert(entry_views(list@) =~= all.skip(done + 1));
                assert(all.take(done + 1).drop_last() =~= all.take(done));
                assert(all.take(done + 1).last() == all[done]);
            }
            store.set_statuses(entry.0, entry.1);
        }
        assert(all.take(n as int) =~= all);
        store
    }
    /// Deletes the record at `index` of `word`, and with it its mirror: if
    /// the record pointed at a translation that no other record of `word`
    /// points at, the translation loses its records that point back at
    /// `word`, and is removed if none is left to it.
    pub fn remove_record(&mut self, word: &str, index: usize) -> (gone: WordStatus)
        requires
            old(self).wf(),
            old(self)@.contains_key(word@),
            index < old(self)@[word@].len(),
        ensures
            final(self).wf(),
            gone@ == old(self)@[word@][index as int],
            final(self)@ == record_removed(old(self)@, word@, index as int),
            symmetric(old(self)@) ==> symmetric(final(self)@),
    {
        proof {
            if symmetric(self@) {
                lemma_remove_record_keeps_symmetry(self@, word@, index as int);
            }
        }
        match self.slot(word) {
            Ok(i) => {
                let gone = self.entries[i].1.remove(index);
                proof {
                    let list = old(self)@[word@].remove(index as int);
                    assert(views(self.entries@[i as int].1@) =~= list);
                    assert(self.pairs() =~= old(self).pairs().update(i as int, (word@, list)));
                    lemma_sorted_update(old(self).pairs(), i as int, list);
                }
                let lone: bool = match gone.translation() {
                    Some(t) => !points(&self.entries[i].1, t),
                    None => false,
                };
                if lone {
                    match gone.translation() {
                        Some(t) => {
                            self.drop_mirrors(t, word);
                        },
                        None => {},
                    }
                }
                gone
            },
            Err(_) => WordStatus::TrashWord,
        }
    }

    /// Puts `record` among the records of `word`, at `index`, and sees to
    /// its mirror: if `record` points at a translation of which no record
    /// points back at `word`, the translation receives one.
    pub fn put_record(&mut self, word: &str, index: usize, record: WordStatus)
        requires
            old(self).wf(),
            index <= records_of(old(self)@, word@).len(),
        ensures
            final(self).wf(),
            final(self)@ == record_put(old(self)@, word@, index as int, record@),
            symmetric(old(self)@) ==> symmetric(final(self)@),
    {
        proof {
            if symmetric(self@) {
                lemma_put_record_keeps_symmetry(self@, word@, index as int, record@);
            }
        }
        let mirror = mirror_entry(&record, word);
        match self.slot(word) {
            Ok(i) => {
                self.entries[i].1.insert(index, record);
                proof {
                    let list = old(self)@[word@].insert(index as int, record@);
                    assert(views(self.entries@[i as int].1@) =~= list);
                    assert(self.pairs() =~= old(self).pairs().update(i as int, (word@, list)));
                    lemma_sorted_update(old(self).pairs(), i as int, list);
                }
            },
            Err(place) => {
                let mut list: Vec<WordStatus> = Vec::new();
                list.push(record);
                assert(views(list@) =~= Seq::<WordStatusView>::empty().insert(0, record@));
                self.put_entry(place, word.to_owned(), list);
            },
        }
        match mirror {
            Some(entry) => {
                let held: bool = match self.find(entry.0.as_str()) {
                    Some(j) => points(&self.entries[j].1, word),
                    None => false,
                };
                if !held {
                    self.push_record(entry.0.as_str(), entry.1);
                }
            },
            None => {},
        }
    }

    /// Replaces the record at `index` of `word` by `record`. A record that
    /// points where the old one pointed takes its place and nothing else
    /// changes; otherwise the old record is deleted with its mirror, and the
    /// new one is put in its place with its mirror. Every pair stays
    /// mirrored.
    pub fn change_record(&mut self, word: &str, index: usize, record: WordStatus)
        requires
            old(self).wf(),
            old(self)@.contains_key(word@),
            index < old(self)@[word@].len(),
        ensures
            final(self).wf(),
            final(self)@ == record_changed(old(self)@, word@, index as int, record@),
            symmetric(old(self)@) ==> symmetric(final(self)@),
    {
        match self.slot(word) {
            Ok(i) => {
                let same: bool = match (self.entries[i].1[index].translation(), record.translation()) {
                    (Some(before), Some(after)) => same_text(before, after),
                    (None, None) => true,
                    _ => false,
                };
                if same {
                    proof {
                        if symmetric(self@) {
                            lemma_replace_record_keeps_symmetry(self@, word@, index as int, record@);
                        }
                    }
                    let ghost list = self@[word@].update(index as int, record@);
                    self.entries[i].1.set(index, record);
                    proof {
                        assert(views(self.entries@[i as int].1@) =~= list);
                        assert(self.pairs() =~= old(self).pairs().update(i as int, (word@, list)));
                        lemma_sorted_update(old(self).pairs(), i as int, list);
                    }
                } else {
                    proof {
                        let rest = self@[word@].remove(index as int);
                        lemma_without(rest, word@);
                    }
                    self.remove_record(word, index);
                    self.put_record(word, index, record);
                }
            },
            Err(_) => {},
        }
    }
}

/// The translation that a record points at, and the record that mirrors it
/// there.
fn mirror_entry(record: &WordStatus, word: &str) -> (mirror: Option<(String, WordStatus)>)
    ensures
        match mirror {
            Some(entry) => record@.translation() == Some(entry.0@) && entry.1@ == mirror_of(record@, word@),
            None => record@.translation() is None,
        },
{
    match record {
        WordStatus::ToLearn { translation, last_learn, .. } => Some(
            (
                translation.clone(),
                WordStatus::ToLearn {
                    translation: word.to_owned(),
                    last_learn: *last_learn,
                    current_level: 0,
                    current_count: 0,
                    stats: TypingStats { right: 0, wrong: 0 },
                },
            ),
        ),
        WordStatus::Learned { translation, .. } => Some(
            (
                translation.clone(),
                WordStatus::Learned { translation: word.to_owned(), stats: TypingStats { right: 0, wrong: 0 } },
            ),
        ),
        _ => None,
    }
}

/// Makes every record of the list that points at `from` point at `to`.
fn retarget_list(list: &mut Vec<WordStatus>, from: &str, to: &str)
    ensures
        views(final(list)@) == retarget(views(old(list)@), from@, to@),
{
    let n: usize = list.len();
    let mut i: usize = 0;
    while i < n
        invariant
            i <= n,
            n == list@.len(),
            n == old(list)@.len(),
            forall|k: int| 0 <= k < i ==> (#[trigger] list@[k])@ == old(list)@[k]@.retargeted(from@, to@),
            forall|k: int| i <= k < n ==> (#[trigger] list@[k])@ == old(list)@[k]@,
        decreases n - i,
    {
        list[i].retarget(from, to);
        i += 1;
    }
    assert(views(list@) =~= retarget(views(old(list)@), from@, to@));
}

/// The entries of a list as values.
pub open spec fn entry_views(list: Seq<(String, Vec<WordStatus>)>) -> Seq<(Seq<char>, Seq<WordStatusView>)> {
    Seq::new(list.len(), |i: int| (list[i].0@, views(list[i].1@)))
}

/// A store that is built from what a store exports is that store again:
/// it holds the same words with the same records, and its pairs are
/// mirrored if they were.
pub proof fn lemma_export_import(store: Words, list: Seq<(String, Vec<WordStatus>)>, back: Words)
    requires
        store.wf(),
        entry_views(list) == store.pairs(),
        back@ == built_map(entry_views(list)),
    ensures
        back@ == store@,
        symmetric(store@) ==> symmetric(back@),
{
    lemma_sorted_distinct(store.pairs());
    lemma_built_map(store.pairs());
}

/// A longer prefix holds what the shorter one holds, and one text more.
proof fn lemma_take_contains(list: Seq<Seq<char>>, n: int)
    requires
        0 <= n < list.len(),
    ensures
        forall|k: Seq<char>|
            #![trigger list.take(n + 1).contains(k)]
            #![trigger list.take(n).contains(k)]
            list.take(n + 1).contains(k) <==> list.take(n).contains(k) || k == list[n],
{
    let head = list.take(n);
    let more = list.take(n + 1);
    assert forall|k: Seq<char>| more.contains(k) <==> head.contains(k) || k == list[n] by {
        if more.contains(k) {
            let p = choose|p: int| 0 <= p < more.len() && more[p] == k;
            if p < n {
                assert(head[p] == k);
            }
        }
        if head.contains(k) {
            let p = choose|p: int| 0 <= p < head.len() && head[p] == k;
            assert(more[p] == k);
        }
        if k == list[n] {
            assert(more[n] == k);
        }
    }
}

} // verus!
