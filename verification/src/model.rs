//! The word store as a mathematical value, and what each of its operations
//! makes of it.
//!
//! A store is a finite map from a word to the list of its records. The
//! functions of this module say, on that map alone, what adding, practising,
//! removing and renaming a word mean; the executable store is proved against
//! them.

use vstd::prelude::*;
use crate::day::Day;
use crate::ladder::LearnType;
use crate::stats::TypingStats;
use crate::status::WordStatusView;
use crate::text::{ascending, lemma_ascending_unique};

verus! {

/// A word store as a value: the records of each word, in order.
pub type WordsView = Map<Seq<char>, Seq<WordStatusView>>;

/// `list` holds the words of the store, each once, in the order of strings.
pub open spec fn lists_words(list: Seq<Seq<char>>, m: WordsView) -> bool {
    ascending(list) && list.to_set() =~= m.dom()
}

/// The words of a store in the order of strings: the order in which the
/// store holds them and hands them out.
pub open spec fn words_of(m: WordsView) -> Seq<Seq<char>> {
    choose|list: Seq<Seq<char>>| #[trigger] lists_words(list, m)
}

/// A list that holds the words of a store in the order of strings is the
/// list of its words: there is no other.
pub proof fn lemma_words_of(list: Seq<Seq<char>>, m: WordsView)
    requires
        lists_words(list, m),
    ensures
        words_of(m) == list,
{
    lemma_ascending_unique(words_of(m), list);
}

/// The records under `word`; none if the word is unknown.
pub open spec fn records_of(m: WordsView, word: Seq<char>) -> Seq<WordStatusView> {
    if m.contains_key(word) {
        m[word]
    } else {
        Seq::empty()
    }
}

/// Some record of `records` points at `target`.
pub open spec fn points_at(records: Seq<WordStatusView>, target: Seq<char>) -> bool {
    exists|i: int| 0 <= i < records.len() && (#[trigger] records[i]).has_translation(target)
}

/// Every pair is mirrored: where a record under a word points at a
/// translation, the translation is a word of the store and one of its
/// records points back.
pub open spec fn symmetric(m: WordsView) -> bool {
    forall|word: Seq<char>, target: Seq<char>|
        m.contains_key(word) && #[trigger] points_at(m[word], target) ==> m.contains_key(target)
            && points_at(m[target], word)
}

/// Every record of the store is well-formed on `ladder`.
pub open spec fn records_wf(m: WordsView, ladder: Seq<LearnType>) -> bool {
    forall|word: Seq<char>, i: int|
        m.contains_key(word) && 0 <= i < m[word].len() ==> (#[trigger] m[word][i]).wf(ladder)
}

/// The record of a pair that has just been added for learning.
pub open spec fn fresh_record(translation: Seq<char>, today: Day) -> WordStatusView {
    WordStatusView::ToLearn {
        translation,
        last_learn: today,
        current_level: 0,
        current_count: 0,
        stats: TypingStats { right: 0, wrong: 0 },
    }
}

/// The record of a pair that was added as already learned.
pub open spec fn learned_record(translation: Seq<char>) -> WordStatusView {
    WordStatusView::Learned { translation, stats: TypingStats { right: 0, wrong: 0 } }
}

/// How often `key` occurs in `list`.
pub open spec fn occurrences(list: Seq<Seq<char>>, key: Seq<char>) -> nat
    decreases list.len(),
{
    if list.len() == 0 {
        0
    } else {
        occurrences(list.drop_last(), key) + if list.last() == key {
            1nat
        } else {
            0nat
        }
    }
}

/// `n` copies of `record`.
pub open spec fn copies(record: WordStatusView, n: nat) -> Seq<WordStatusView> {
    Seq::new(n, |i: int| record)
}

/// What is added to a word: how the word itself is to be filed.
pub enum WordsToAddView {
    KnowPreviously,
    TrashWord,
    ToLearn { learned: Seq<Seq<char>>, translations: Seq<Seq<char>> },
}

impl WordsToAddView {
    /// The translations to learn; none for an inert word.
    pub open spec fn to_learn(self) -> Seq<Seq<char>> {
        match self {
            WordsToAddView::ToLearn { translations, .. } => translations,
            _ => Seq::empty(),
        }
    }

    /// The translations that count as learned; none for an inert word.
    pub open spec fn known(self) -> Seq<Seq<char>> {
        match self {
            WordsToAddView::ToLearn { learned, .. } => learned,
            _ => Seq::empty(),
        }
    }

    /// The records that the word itself receives: a marker for an inert
    /// word; otherwise an active record for each translation to learn, then
    /// a finished record for each translation that counts as learned.
    pub open spec fn forward(self, today: Day) -> Seq<WordStatusView> {
        match self {
            WordsToAddView::KnowPreviously => seq![WordStatusView::KnowPreviously],
            WordsToAddView::TrashWord => seq![WordStatusView::TrashWord],
            WordsToAddView::ToLearn { learned, translations } => Seq::new(
                translations.len(),
                |i: int| fresh_record(translations[i], today),
            ) + Seq::new(learned.len(), |i: int| learned_record(learned[i])),
        }
    }
}

/// The mirror records that `key` receives when `word` is added with the
/// translations `to_learn` and `known`: one active record pointing back at
/// `word` for each time `key` is a translation to learn, then one finished
/// record for each time it is a translation that counts as learned.
pub open spec fn mirrors(
    to_learn: Seq<Seq<char>>,
    known: Seq<Seq<char>>,
    key: Seq<char>,
    word: Seq<char>,
    today: Day,
) -> Seq<WordStatusView> {
    copies(fresh_record(word, today), occurrences(to_learn, key)) + copies(
        learned_record(word),
        occurrences(known, key),
    )
}

/// The store after `forward` has been appended to the records of `word` and
/// the mirrors for `to_learn` and `known` to the records of each of them.
pub open spec fn added_with(
    m: WordsView,
    word: Seq<char>,
    forward: Seq<WordStatusView>,
    to_learn: Seq<Seq<char>>,
    known: Seq<Seq<char>>,
    today: Day,
) -> WordsView {
    Map::new(
        |k: Seq<char>|
            m.contains_key(k) || k == word || occurrences(to_learn, k) > 0 || occurrences(known, k)
                > 0,
        |k: Seq<char>|
            records_of(m, k) + (if k == word {
                forward
            } else {
                Seq::empty()
            }) + mirrors(to_learn, known, k, word, today),
    )
}

/// The store after `word` has been added as `info` on `today`.
///
/// The word keeps the records it had and receives the new ones after them.
/// Each translation becomes a word of the store, if it was none, and
/// receives a record that points back at `word`.
pub open spec fn added(m: WordsView, word: Seq<char>, info: WordsToAddView, today: Day) -> WordsView {
    added_with(m, word, info.forward(today), info.to_learn(), info.known(), today)
}

/// The first record of `records` that points at `translation`, if any does.
pub open spec fn target_of(records: Seq<WordStatusView>, translation: Seq<char>) -> Option<int> {
    if points_at(records, translation) {
        Some(
            choose|i: int|
                0 <= i < records.len() && (#[trigger] records[i]).has_translation(translation)
                    && forall|j: int| 0 <= j < i ==> !(#[trigger] records[j]).has_translation(translation),
        )
    } else {
        None
    }
}

/// The store after an attempt on the pair of `word` and `translation`: the
/// first record under `word` that points at `translation` takes the attempt;
/// all else stays. Without such a record the store stays as it is.
pub open spec fn registered(
    m: WordsView,
    word: Seq<char>,
    translation: Seq<char>,
    correct: bool,
    today: Day,
    ladder: Seq<LearnType>,
) -> WordsView {
    match target_of(records_of(m, word), translation) {
        Some(i) => m.insert(word, m[word].update(i, m[word][i].after_attempt(correct, today, ladder))),
        None => m,
    }
}

/// Whether the attempt can be taken: the record that would take it, if
/// there is one, accepts it. Where no record would take it, nothing is asked.
pub open spec fn attempt_fits(
    m: WordsView,
    word: Seq<char>,
    translation: Seq<char>,
    correct: bool,
    ladder: Seq<LearnType>,
) -> bool {
    match target_of(records_of(m, word), translation) {
        Some(i) => m[word][i].accepts_attempt(correct, ladder),
        None => true,
    }
}

/// Appending the mirror of one more translation to learn to the records of
/// that translation gives the store with that translation added.
pub proof fn lemma_mirror_to_learn(
    m: WordsView,
    word: Seq<char>,
    forward: Seq<WordStatusView>,
    to_learn: Seq<Seq<char>>,
    i: int,
    today: Day,
)
    requires
        0 <= i < to_learn.len(),
    ensures
        ({
            let s = added_with(m, word, forward, to_learn.take(i), Seq::empty(), today);
            s.insert(to_learn[i], records_of(s, to_learn[i]).push(fresh_record(word, today)))
        }) =~= added_with(m, word, forward, to_learn.take(i + 1), Seq::empty(), today),
{
    let none = Seq::<Seq<char>>::empty();
    let s = added_with(m, word, forward, to_learn.take(i), none, today);
    let t = to_learn[i];
    let s2 = s.insert(t, records_of(s, t).push(fresh_record(word, today)));
    let goal = added_with(m, word, forward, to_learn.take(i + 1), none, today);
    assert(to_learn.take(i + 1).drop_last() =~= to_learn.take(i));
    assert(to_learn.take(i + 1).last() == t);
    assert forall|k: Seq<char>| s2.contains_key(k) <==> goal.contains_key(k) by {}
    assert forall|k: Seq<char>| s2.contains_key(k) implies #[trigger] s2[k] =~= goal[k] by {
        assert(occurrences(none, k) == 0);
        if k == t {
            let n = occurrences(to_learn.take(i), k);
            assert(copies(fresh_record(word, today), n).push(fresh_record(word, today)) =~= copies(
                fresh_record(word, today),
                n + 1,
            ));
        }
    }
}

/// Appending the mirror of one more learned translation to the records of
/// that translation gives the store with that translation added.
pub proof fn lemma_mirror_known(
    m: WordsView,
    word: Seq<char>,
    forward: Seq<WordStatusView>,
    to_learn: Seq<Seq<char>>,
    known: Seq<Seq<char>>,
    j: int,
    today: Day,
)
    requires
        0 <= j < known.len(),
    ensures
        ({
            let s = added_with(m, word, forward, to_learn, known.take(j), today);
            s.insert(known[j], records_of(s, known[j]).push(learned_record(word)))
        }) =~= added_with(m, word, forward, to_learn, known.take(j + 1), today),
{
    let s = added_with(m, word, forward, to_learn, known.take(j), today);
    let t = known[j];
    let s2 = s.insert(t, records_of(s, t).push(learned_record(word)));
    let goal = added_with(m, word, forward, to_learn, known.take(j + 1), today);
    assert(known.take(j + 1).drop_last() =~= known.take(j));
    assert(known.take(j + 1).last() == t);
    assert forall|k: Seq<char>| s2.contains_key(k) <==> goal.contains_key(k) by {}
    assert forall|k: Seq<char>| s2.contains_key(k) implies #[trigger] s2[k] =~= goal[k] by {
        if k == t {
            let n = occurrences(known.take(j), k);
            assert(copies(learned_record(word), n).push(learned_record(word)) =~= copies(
                learned_record(word),
                n + 1,
            ));
        }
    }
}

/// Appending records to a word, with no translation mirrored yet.
pub proof fn lemma_forward_only(
    m: WordsView,
    word: Seq<char>,
    forward: Seq<WordStatusView>,
    today: Day,
)
    ensures
        m.insert(word, records_of(m, word) + forward) =~= added_with(
            m,
            word,
            forward,
            Seq::empty(),
            Seq::empty(),
            today,
        ),
{
    let none = Seq::<Seq<char>>::empty();
    let goal = added_with(m, word, forward, none, none, today);
    let s = m.insert(word, records_of(m, word) + forward);
    assert forall|k: Seq<char>| s.contains_key(k) <==> goal.contains_key(k) by {
        assert(occurrences(none, k) == 0);
    }
    assert forall|k: Seq<char>| s.contains_key(k) implies #[trigger] s[k] =~= goal[k] by {
        assert(occurrences(none, k) == 0);
    }
}

/// `target_of` finds a record that points at the translation and that no
/// such record precedes.
pub proof fn lemma_target_of(records: Seq<WordStatusView>, translation: Seq<char>)
    ensures
        match target_of(records, translation) {
            Some(i) => 0 <= i < records.len() && records[i].has_translation(translation)
                && forall|j: int| 0 <= j < i ==> !(#[trigger] records[j]).has_translation(translation),
            None => forall|j: int| 0 <= j < records.len() ==> !(#[trigger] records[j]).has_translation(
                translation,
            ),
        },
{
    if points_at(records, translation) {
        let w = choose|i: int| 0 <= i < records.len() && (#[trigger] records[i]).has_translation(translation);
        lemma_first_exists(records, translation, w);
    }
}

/// Below a position that points at the translation there is a first one.
proof fn lemma_first_exists(records: Seq<WordStatusView>, translation: Seq<char>, w: int)
    requires
        0 <= w < records.len(),
        records[w].has_translation(translation),
    ensures
        exists|i: int|
            0 <= i < records.len() && (#[trigger] records[i]).has_translation(translation)
                && forall|j: int| 0 <= j < i ==> !(#[trigger] records[j]).has_translation(translation),
    decreases w,
{
    if exists|j: int| 0 <= j < w && (#[trigger] records[j]).has_translation(translation) {
        let j = choose|j: int| 0 <= j < w && (#[trigger] records[j]).has_translation(translation);
        lemma_first_exists(records, translation, j);
    } else {
        assert(records[w].has_translation(translation));
    }
}

/// A position that points at the translation and has no such position
/// before it is the one that `target_of` names.
pub proof fn lemma_target_is(records: Seq<WordStatusView>, translation: Seq<char>, i: int)
    requires
        0 <= i < records.len(),
        records[i].has_translation(translation),
        forall|j: int| 0 <= j < i ==> !(#[trigger] records[j]).has_translation(translation),
    ensures
        target_of(records, translation) == Some(i),
{
    lemma_target_of(records, translation);
    let t = target_of(records, translation)->0;
    if t < i {
        assert(!records[t].has_translation(translation));
    } else if i < t {
        assert(!records[i].has_translation(translation));
    }
}

/// The records of `records` that do not point at `word`, in order.
pub open spec fn without(records: Seq<WordStatusView>, word: Seq<char>) -> Seq<WordStatusView>
    decreases records.len(),
{
    if records.len() == 0 {
        Seq::empty()
    } else if records.last().has_translation(word) {
        without(records.drop_last(), word)
    } else {
        without(records.drop_last(), word).push(records.last())
    }
}

/// The translations that the records of `records` point at.
pub open spec fn pointed(records: Seq<WordStatusView>) -> Set<Seq<char>> {
    Set::new(|k: Seq<char>| points_at(records, k))
}

/// The store after `word` has been removed and the records that point at it
/// have been taken from the words in `targets`; a word of `targets` that is
/// left without records is removed too.
pub open spec fn removed_via(m: WordsView, word: Seq<char>, targets: Set<Seq<char>>) -> WordsView {
    Map::new(
        |k: Seq<char>|
            k != word && m.contains_key(k) && !(targets.contains(k) && without(m[k], word).len() == 0),
        |k: Seq<char>|
            if targets.contains(k) {
                without(m[k], word)
            } else {
                m[k]
            },
    )
}

/// The store after `word` has been removed.
///
/// The word and all its records are gone. Each translation that one of
/// those records pointed at loses its records that point back at `word`,
/// and is gone itself if no record is left to it.
pub open spec fn removed(m: WordsView, word: Seq<char>) -> WordsView {
    removed_via(m, word, pointed(records_of(m, word)))
}

/// The records of `records` with each one that pointed at `from` pointing at
/// `to`.
pub open spec fn retarget(records: Seq<WordStatusView>, from: Seq<char>, to: Seq<char>) -> Seq<
    WordStatusView,
> {
    Seq::new(records.len(), |i: int| records[i].retargeted(from, to))
}

/// The store after `word` has been renamed to `new_word`.
///
/// In every list, each record that pointed at `word` points at `new_word`.
/// The records of `word` stand under `new_word`, after the records that
/// `new_word` held already if it was a word of the store, and `word` is no
/// word of the store any more. Renaming a word to itself changes nothing.
pub open spec fn renamed(m: WordsView, word: Seq<char>, new_word: Seq<char>) -> WordsView {
    if new_word == word {
        m
    } else {
        Map::new(
            |k: Seq<char>| k != word && (m.contains_key(k) || k == new_word),
            |k: Seq<char>|
                retarget(records_of(m, k), word, new_word) + (if k == new_word {
                    retarget(records_of(m, word), word, new_word)
                } else {
                    Seq::empty()
                }),
        )
    }
}

/// What `without` keeps and what it drops.
pub proof fn lemma_without(records: Seq<WordStatusView>, word: Seq<char>)
    ensures
        forall|i: int|
            0 <= i < without(records, word).len() ==> !(#[trigger] without(records, word)[i]).has_translation(
                word,
            ) && records.contains(without(records, word)[i]),
        forall|i: int|
            0 <= i < records.len() && !(#[trigger] records[i]).has_translation(word) ==> without(
                records,
                word,
            ).contains(records[i]),
        without(without(records, word), word) == without(records, word),
        (forall|i: int| 0 <= i < records.len() ==> !(#[trigger] records[i]).has_translation(word))
            ==> without(records, word) == records,
    decreases records.len(),
{
    if records.len() > 0 {
        let init = records.drop_last();
        let w = without(records, word);
        lemma_without(init, word);
        assert forall|i: int| 0 <= i < w.len() implies !(#[trigger] w[i]).has_translation(word)
            && records.contains(w[i]) by {
            if i < without(init, word).len() {
                let x = without(init, word)[i];
                assert(init.contains(x));
                let p = choose|p: int| 0 <= p < init.len() && init[p] == x;
                assert(records[p] == x);
            } else {
                assert(records[records.len() - 1] == w[i]);
            }
        }
        assert forall|i: int| 0 <= i < records.len() && !(#[trigger] records[i]).has_translation(
            word,
        ) implies w.contains(records[i]) by {
            if i < init.len() {
                assert(init[i] == records[i]);
                let x = records[i];
                assert(without(init, word).contains(x));
                let p = choose|p: int| 0 <= p < without(init, word).len() && without(init, word)[p] == x;
                assert(w[p] == x);
            } else {
                assert(w[w.len() - 1] == records[i]);
            }
        }
        if !records.last().has_translation(word) {
            assert(w.drop_last() =~= without(init, word));
            assert(w.last() == records.last());
        }
        if forall|i: int| 0 <= i < records.len() ==> !(#[trigger] records[i]).has_translation(word) {
            assert forall|i: int| 0 <= i < init.len() implies !(#[trigger] init[i]).has_translation(
                word,
            ) by {
                assert(init[i] == records[i]);
            }
            assert(w =~= records);
        }
    }
}

/// Taking the mirrors from one more translation.
pub proof fn lemma_remove_step(m: WordsView, word: Seq<char>, targets: Set<Seq<char>>, t: Seq<char>)
    ensures
        ({
            let s = removed_via(m, word, targets);
            let goal = removed_via(m, word, targets.insert(t));
            if !s.contains_key(t) {
                goal =~= s
            } else if without(s[t], word).len() == 0 {
                goal =~= s.remove(t)
            } else {
                goal =~= s.insert(t, without(s[t], word))
            }
        }),
{
    if m.contains_key(t) {
        lemma_without(m[t], word);
    }
}

/// The attempt is taken: a record would take it and accepts it, and the
/// day's counter has room for it.
pub open spec fn takes(
    m: WordsView,
    day: TypingStats,
    word: Seq<char>,
    translation: Seq<char>,
    correct: bool,
    ladder: Seq<LearnType>,
) -> bool {
    &&& target_of(records_of(m, word), translation) is Some
    &&& attempt_fits(m, word, translation, correct, ladder)
    &&& day.has_room(correct)
}

/// The store and the day's counter after an attempt that is registered
/// only if it is taken.
pub open spec fn tried(
    m: WordsView,
    day: TypingStats,
    word: Seq<char>,
    translation: Seq<char>,
    correct: bool,
    today: Day,
    ladder: Seq<LearnType>,
) -> (WordsView, TypingStats) {
    if takes(m, day, word, translation, correct, ladder) {
        (registered(m, word, translation, correct, today, ladder), day.count(correct))
    } else {
        (m, day)
    }
}

/// The store and the day's counter after a run of attempts on the
/// translations of one word, each registered only if it is taken.
pub open spec fn tried_all(
    m: WordsView,
    day: TypingStats,
    word: Seq<char>,
    attempts: Seq<(Seq<char>, bool)>,
    today: Day,
    ladder: Seq<LearnType>,
) -> (WordsView, TypingStats)
    decreases attempts.len(),
{
    if attempts.len() == 0 {
        (m, day)
    } else {
        let before = tried_all(m, day, word, attempts.drop_last(), today, ladder);
        tried(before.0, before.1, word, attempts.last().0, attempts.last().1, today, ladder)
    }
}

/// Every attempt of the run is taken when its turn comes.
pub open spec fn all_taken(
    m: WordsView,
    day: TypingStats,
    word: Seq<char>,
    attempts: Seq<(Seq<char>, bool)>,
    today: Day,
    ladder: Seq<LearnType>,
) -> bool
    decreases attempts.len(),
{
    if attempts.len() == 0 {
        true
    } else {
        let before = tried_all(m, day, word, attempts.drop_last(), today, ladder);
        all_taken(m, day, word, attempts.drop_last(), today, ladder) && takes(
            before.0,
            before.1,
            word,
            attempts.last().0,
            attempts.last().1,
            ladder,
        )
    }
}

/// The store after the records that point at `word` have been taken from
/// the records of `key`; `key` is removed if no record is left to it.
pub open spec fn dropped(m: WordsView, key: Seq<char>, word: Seq<char>) -> WordsView {
    if !m.contains_key(key) {
        m
    } else if without(m[key], word).len() == 0 {
        m.remove(key)
    } else {
        m.insert(key, without(m[key], word))
    }
}

/// The store after the record at `index` has been deleted from the records
/// of `word`. If that record pointed at a translation that no other record
/// of `word` points at, the translation loses its records that point back
/// at `word`, and is removed if none is left to it.
pub open spec fn record_removed(m: WordsView, word: Seq<char>, index: int) -> WordsView {
    let rest = m[word].remove(index);
    let cut = m.insert(word, rest);
    match m[word][index].translation() {
        Some(t) => if points_at(rest, t) {
            cut
        } else {
            dropped(cut, t, word)
        },
        None => cut,
    }
}

/// The record that mirrors `record` under its translation: it points back
/// at `word`, is learned if `record` is, and otherwise stands at the foot of
/// the ladder, dated like `record`.
pub open spec fn mirror_of(record: WordStatusView, word: Seq<char>) -> WordStatusView {
    match record {
        WordStatusView::ToLearn { last_learn, .. } => fresh_record(word, last_learn),
        WordStatusView::Learned { .. } => learned_record(word),
        _ => record,
    }
}

/// The store after `record` has been put among the records of `word`, at
/// `index`. If `record` points at a translation, and no record of that
/// translation points back at `word`, the translation receives the mirror.
pub open spec fn record_put(m: WordsView, word: Seq<char>, index: int, record: WordStatusView) -> WordsView {
    let put = m.insert(word, records_of(m, word).insert(index, record));
    match record.translation() {
        Some(t) => if points_at(records_of(put, t), word) {
            put
        } else {
            put.insert(t, records_of(put, t).push(mirror_of(record, word)))
        },
        None => put,
    }
}

/// The store after the record at `index` of `word` has been replaced by
/// `record`. A record that points where the old one pointed takes its
/// place and nothing else changes; otherwise the old record is deleted
/// with its mirror, and the new one is put in its place with its mirror.
pub open spec fn record_changed(m: WordsView, word: Seq<char>, index: int, record: WordStatusView) -> WordsView {
    if record.translation() == m[word][index].translation() {
        m.insert(word, m[word].update(index, record))
    } else {
        record_put(record_removed(m, word, index), word, index, record)
    }
}

} // verus!
