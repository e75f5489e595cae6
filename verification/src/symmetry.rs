//! What every operation of the store keeps: the mirroring of pairs and the
//! well-formedness of records.

use vstd::prelude::*;
use crate::day::Day;
use crate::ladder::{LearnType, rungs_positive};
use crate::model::{
    added, dropped, fresh_record, learned_record, lemma_target_of, lemma_without, mirror_of,
    occurrences,
    pointed, points_at, record_put, record_removed, records_of, records_wf, registered, removed,
    renamed, symmetric, takes, target_of, tried, without, WordsToAddView, WordsView,
};
use crate::stats::TypingStats;
use crate::status::{lemma_attempt_keeps_wf, WordStatusView};

verus! {

/// A text occurs in a list a positive number of times exactly if it stands
/// at some position.
pub proof fn lemma_occurrences(list: Seq<Seq<char>>, key: Seq<char>)
    ensures
        occurrences(list, key) > 0 <==> exists|i: int| 0 <= i < list.len() && list[i] == key,
    decreases list.len(),
{
    if list.len() > 0 {
        let init = list.drop_last();
        lemma_occurrences(init, key);
        if occurrences(list, key) > 0 {
            if list.last() == key {
                assert(list[list.len() - 1] == key);
            } else {
                let i = choose|i: int| 0 <= i < init.len() && init[i] == key;
                assert(list[i] == key);
            }
        }
        if exists|i: int| 0 <= i < list.len() && list[i] == key {
            let i = choose|i: int| 0 <= i < list.len() && list[i] == key;
            if i < init.len() {
                assert(init[i] == key);
            }
        }
    }
}

/// Adding a word keeps every pair mirrored.
pub proof fn lemma_add_keeps_symmetry(m: WordsView, word: Seq<char>, info: WordsToAddView, today: Day)
    requires
        symmetric(m),
    ensures
        symmetric(added(m, word, info, today)),
{
    let a = added(m, word, info, today);
    let tl = info.to_learn();
    let kn = info.known();
    let fwd = info.forward(today);
    assert forall|w: Seq<char>, t: Seq<char>| a.contains_key(w) && #[trigger] points_at(a[w], t) implies a.contains_key(t)
        && points_at(a[t], w) by {
        let i = choose|i: int| 0 <= i < a[w].len() && (#[trigger] a[w][i]).has_translation(t);
        let x = a[w][i];
        let old_len = records_of(m, w).len();
        let fwd_len = if w == word { fwd.len() } else { 0 };
        lemma_occurrences(tl, w);
        lemma_occurrences(kn, w);
        lemma_occurrences(tl, t);
        lemma_occurrences(kn, t);
        if i < old_len {
            assert(m[w][i].has_translation(t));
            assert(points_at(m[w], t));
            let j = choose|j: int| 0 <= j < m[t].len() && (#[trigger] m[t][j]).has_translation(w);
            assert(a[t][j] == m[t][j]);
        } else if i < old_len + fwd_len {
            let p = i - old_len;
            assert(x == fwd[p]);
            if p < tl.len() {
                assert(tl[p] == t);
                assert(occurrences(tl, t) > 0);
                let q = (records_of(m, t).len() + (if t == word { fwd.len() } else { 0 })) as int;
                assert(a[t][q] == fresh_record(word, today));
                assert(a[t][q].has_translation(w));
            } else {
                assert(kn[p - tl.len()] == t);
                assert(occurrences(kn, t) > 0);
                let q = (records_of(m, t).len() + (if t == word { fwd.len() } else { 0 }) + occurrences(
                    tl,
                    t,
                )) as int;
                assert(a[t][q] == learned_record(word));
                assert(a[t][q].has_translation(w));
            }
        } else {
            assert(t == word);
            let base = records_of(m, word).len();
            if occurrences(tl, w) > 0 {
                let p = choose|p: int| 0 <= p < tl.len() && tl[p] == w;
                assert(a[word][base + p] == fresh_record(tl[p], today));
                assert(a[word][base + p].has_translation(w));
            } else {
                let p = choose|p: int| 0 <= p < kn.len() && kn[p] == w;
                assert(a[word][base + tl.len() + p] == learned_record(kn[p]));
                assert(a[word][base + tl.len() + p].has_translation(w));
            }
        }
    }
}

/// After a word has been added with translations to learn, the word has an
/// active record for each of them, and each of them has an active record
/// that points back at the word.
pub proof fn lemma_add_files_every_translation(
    m: WordsView,
    word: Seq<char>,
    info: WordsToAddView,
    today: Day,
    i: int,
)
    requires
        info is ToLearn,
        0 <= i < info.to_learn().len(),
    ensures
        added(m, word, info, today).contains_key(word),
        added(m, word, info, today).contains_key(info.to_learn()[i]),
        added(m, word, info, today)[word].contains(fresh_record(info.to_learn()[i], today)),
        added(m, word, info, today)[info.to_learn()[i]].contains(fresh_record(word, today)),
{
    let a = added(m, word, info, today);
    let t = info.to_learn()[i];
    let fwd = info.forward(today);
    lemma_occurrences(info.to_learn(), t);
    let base = records_of(m, word).len() as int;
    assert(a[word][base + i] == fresh_record(t, today));
    let at = (records_of(m, t).len() + (if t == word { fwd.len() } else { 0 })) as int;
    assert(occurrences(info.to_learn(), t) > 0);
    assert(a[t][at] == fresh_record(word, today));
}

/// An attempt keeps every pair mirrored: it never changes what a record
/// points at.
pub proof fn lemma_attempt_keeps_symmetry(
    m: WordsView,
    word: Seq<char>,
    translation: Seq<char>,
    correct: bool,
    today: Day,
    ladder: Seq<LearnType>,
)
    requires
        symmetric(m),
    ensures
        symmetric(registered(m, word, translation, correct, today, ladder)),
{
    let r = registered(m, word, translation, correct, today, ladder);
    lemma_target_of(records_of(m, word), translation);
    assert forall|w: Seq<char>, i: int| r.contains_key(w) && 0 <= i < r[w].len() implies m.contains_key(w)
        && r[w].len() == m[w].len() && (#[trigger] r[w][i]).translation() == m[w][i].translation() by {}
    assert forall|w: Seq<char>, t: Seq<char>| r.contains_key(w) && #[trigger] points_at(r[w], t) implies r.contains_key(t)
        && points_at(r[t], w) by {
        let i = choose|i: int| 0 <= i < r[w].len() && (#[trigger] r[w][i]).has_translation(t);
        assert(m[w][i].has_translation(t));
        assert(points_at(m[w], t));
        let j = choose|j: int| 0 <= j < m[t].len() && (#[trigger] m[t][j]).has_translation(w);
        assert(r[t][j].has_translation(w));
    }
}

/// Removing a word keeps every pair mirrored.
pub proof fn lemma_remove_keeps_symmetry(m: WordsView, word: Seq<char>)
    requires
        symmetric(m),
        m.contains_key(word),
    ensures
        symmetric(removed(m, word)),
{
    let r = removed(m, word);
    let targets = pointed(m[word]);
    assert forall|w: Seq<char>, t: Seq<char>| r.contains_key(w) && #[trigger] points_at(r[w], t) implies r.contains_key(t)
        && points_at(r[t], w) by {
        let i = choose|i: int| 0 <= i < r[w].len() && (#[trigger] r[w][i]).has_translation(t);
        let x = r[w][i];
        lemma_without(m[w], word);
        assert(m[w].contains(x));
        let p = choose|p: int| 0 <= p < m[w].len() && m[w][p] == x;
        assert(m[w][p].has_translation(t));
        assert(points_at(m[w], t));
        if t == word {
            assert(targets.contains(w));
            assert(!without(m[w], word)[i].has_translation(word));
        }
        let j = choose|j: int| 0 <= j < m[t].len() && (#[trigger] m[t][j]).has_translation(w);
        let y = m[t][j];
        lemma_without(m[t], word);
        assert(!m[t][j].has_translation(word));
        assert(without(m[t], word).contains(y));
        let q = choose|q: int| 0 <= q < without(m[t], word).len() && without(m[t], word)[q] == y;
        if targets.contains(t) {
            assert(r[t][q].has_translation(w));
        } else {
            assert(r[t][j].has_translation(w));
        }
    }
}

/// Renaming a word keeps every pair mirrored.
pub proof fn lemma_rename_keeps_symmetry(m: WordsView, word: Seq<char>, new_word: Seq<char>)
    requires
        symmetric(m),
        m.contains_key(word),
    ensures
        symmetric(renamed(m, word, new_word)),
{
    let r = renamed(m, word, new_word);
    if new_word != word {
        assert forall|w: Seq<char>, t: Seq<char>| r.contains_key(w) && #[trigger] points_at(r[w], t) implies r.contains_key(t)
            && points_at(r[t], w) by {
            let i = choose|i: int| 0 <= i < r[w].len() && (#[trigger] r[w][i]).has_translation(t);
            let own = records_of(m, w).len() as int;
            let w0 = if i < own { w } else { word };
            let i0 = if i < own { i } else { i - own };
            let x0 = m[w0][i0];
            assert(r[w][i] == x0.retargeted(word, new_word));
            let t0 = x0.translation()->0;
            assert(m[w0][i0].has_translation(t0));
            assert(points_at(m[w0], t0));
            let j = choose|j: int| 0 <= j < m[t0].len() && (#[trigger] m[t0][j]).has_translation(w0);
            assert(m[t0][j].retargeted(word, new_word).has_translation(w));
            if t0 == word {
                let at = records_of(m, new_word).len() + j;
                assert(r[new_word][at] == m[word][j].retargeted(word, new_word));
                assert(r[new_word][at].has_translation(w));
            } else {
                assert(r[t0][j] == m[t0][j].retargeted(word, new_word));
                assert(r[t0][j].has_translation(w));
            }
        }
    }
}

/// After a word has been renamed to another name, it is no word of the
/// store and no record points at it: each record that pointed at it points
/// at the new name, and every other record points where it pointed.
pub proof fn lemma_rename_leaves_no_trace(m: WordsView, word: Seq<char>, new_word: Seq<char>)
    requires
        m.contains_key(word),
        new_word != word,
    ensures
        !renamed(m, word, new_word).contains_key(word),
        renamed(m, word, new_word).contains_key(new_word),
        forall|k: Seq<char>, i: int|
            renamed(m, word, new_word).contains_key(k) && 0 <= i < renamed(m, word, new_word)[k].len() ==> !(
            #[trigger] renamed(m, word, new_word)[k][i]).has_translation(word),
        forall|k: Seq<char>, i: int|
            k != word && m.contains_key(k) && 0 <= i < m[k].len() ==> #[trigger] renamed(
                m,
                word,
                new_word,
            )[k][i] == m[k][i].retargeted(word, new_word),
{
}

/// An attempt keeps every record of the store well-formed, on a ladder
/// whose rungs each ask for at least one correct answer.
pub proof fn lemma_attempt_keeps_records_wf(
    m: WordsView,
    word: Seq<char>,
    translation: Seq<char>,
    correct: bool,
    today: Day,
    ladder: Seq<LearnType>,
)
    requires
        records_wf(m, ladder),
        rungs_positive(ladder),
    ensures
        records_wf(registered(m, word, translation, correct, today, ladder), ladder),
{
    let r = registered(m, word, translation, correct, today, ladder);
    lemma_target_of(records_of(m, word), translation);
    assert forall|w: Seq<char>, i: int| r.contains_key(w) && 0 <= i < r[w].len() implies (#[trigger] r[w][i]).wf(
        ladder,
    ) by {
        assert(m[w][i].wf(ladder));
        lemma_attempt_keeps_wf(m[w][i], correct, today, ladder);
    }
}

/// An attempt that is aimed at a record that is not being learned is not
/// taken: the store and the day's counter stay as they are. An attempt that
/// is taken turns no record into one that is being learned.
pub proof fn lemma_attempt_never_revives(
    m: WordsView,
    day: TypingStats,
    word: Seq<char>,
    translation: Seq<char>,
    correct: bool,
    today: Day,
    ladder: Seq<LearnType>,
)
    ensures
        target_of(records_of(m, word), translation) matches Some(i) && !(m[word][i] is ToLearn) ==> !takes(
            m,
            day,
            word,
            translation,
            correct,
            ladder,
        ) && tried(m, day, word, translation, correct, today, ladder) == (m, day),
        forall|k: Seq<char>, i: int|
            m.contains_key(k) && 0 <= i < m[k].len() && (#[trigger] registered(
                m,
                word,
                translation,
                correct,
                today,
                ladder,
            )[k][i]) is ToLearn ==> m[k][i] is ToLearn,
{
    lemma_target_of(records_of(m, word), translation);
}

/// Adding, removing and renaming keep every record of the store
/// well-formed: an added record stands at the foot of the ladder without
/// progress, and no other record's position changes.
pub proof fn lemma_edits_keep_records_wf(
    m: WordsView,
    word: Seq<char>,
    new_word: Seq<char>,
    info: WordsToAddView,
    today: Day,
    ladder: Seq<LearnType>,
)
    requires
        records_wf(m, ladder),
        rungs_positive(ladder),
    ensures
        records_wf(added(m, word, info, today), ladder),
        records_wf(removed(m, word), ladder),
        records_wf(renamed(m, word, new_word), ladder),
{
    let a = added(m, word, info, today);
    assert forall|w: Seq<char>, i: int| a.contains_key(w) && 0 <= i < a[w].len() implies (#[trigger] a[w][i]).wf(
        ladder,
    ) by {
        if i < records_of(m, w).len() {
            assert(m[w][i].wf(ladder));
        }
    }
    let r = removed(m, word);
    assert forall|w: Seq<char>, i: int| r.contains_key(w) && 0 <= i < r[w].len() implies (#[trigger] r[w][i]).wf(
        ladder,
    ) by {
        lemma_without(m[w], word);
        assert(m[w].contains(r[w][i]));
        let p = choose|p: int| 0 <= p < m[w].len() && m[w][p] == r[w][i];
        assert(m[w][p].wf(ladder));
    }
    let n = renamed(m, word, new_word);
    assert forall|w: Seq<char>, i: int| n.contains_key(w) && 0 <= i < n[w].len() implies (#[trigger] n[w][i]).wf(
        ladder,
    ) by {
        if new_word == word {
            assert(m[w][i].wf(ladder));
        } else {
            let own = records_of(m, w).len() as int;
            if i < own {
                assert(m[w][i].wf(ladder));
                assert(n[w][i] == m[w][i].retargeted(word, new_word));
            } else {
                assert(m[word][i - own].wf(ladder));
                assert(n[w][i] == m[word][i - own].retargeted(word, new_word));
            }
        }
    }
}

/// Deleting one record keeps every pair mirrored.
pub proof fn lemma_remove_record_keeps_symmetry(m: WordsView, word: Seq<char>, index: int)
    requires
        symmetric(m),
        m.contains_key(word),
        0 <= index < m[word].len(),
    ensures
        symmetric(record_removed(m, word, index)),
{
    let r = record_removed(m, word, index);
    let gone = m[word][index];
    let rest = m[word].remove(index);
    let cut = m.insert(word, rest);
    assert forall|i: int| 0 <= i < rest.len() implies #[trigger] rest[i] == m[word][if i < index { i } else { i + 1 }] by {}
    assert forall|w: Seq<char>, t: Seq<char>| r.contains_key(w) && #[trigger] points_at(r[w], t) implies r.contains_key(t)
        && points_at(r[t], w) by {
        let i = choose|i: int| 0 <= i < r[w].len() && (#[trigger] r[w][i]).has_translation(t);
        let x = r[w][i];
        // Every record of the result is a record of the same word before.
        if cut.contains_key(w) {
            lemma_without(cut[w], word);
        }
        assert(cut[w].contains(x));
        let p = choose|p: int| 0 <= p < cut[w].len() && cut[w][p] == x;
        let p0 = if w == word && p >= index { p + 1 } else { p };
        assert(m[w][p0] == x);
        assert(m[w][p0].has_translation(t));
        assert(points_at(m[w], t));
        let j = choose|j: int| 0 <= j < m[t].len() && (#[trigger] m[t][j]).has_translation(w);
        let y = m[t][j];
        // The mirror of the record is still there.
        if t == word {
            if j == index {
                assert(gone.has_translation(w));
                if w == word {
                    assert(cut[w][p].has_translation(word));
                    assert(points_at(rest, word));
                } else if points_at(rest, w) {
                    let k = choose|k: int| 0 <= k < rest.len() && (#[trigger] rest[k]).has_translation(w);
                    assert(r == cut);
                    assert(r[word][k].has_translation(w));
                } else {
                    assert(cut[w] == m[w]);
                    assert(r == dropped(cut, w, word));
                    assert(r[w] == without(m[w], word));
                    assert(!without(m[w], word)[i].has_translation(word));
                }
            } else {
                let j1 = if j < index { j } else { j - 1 };
                assert(rest[j1] == y);
                assert(points_at(rest, w));
                assert(cut[word][j1].has_translation(w));
                if r[word] != rest {
                    lemma_without(rest, word);
                    assert(w != word) by {
                        if w == word {
                            assert(points_at(rest, word));
                        }
                    }
                    assert(without(rest, word).contains(y));
                    let q = choose|q: int| 0 <= q < without(rest, word).len() && without(rest, word)[q] == y;
                    assert(r[word][q].has_translation(w));
                } else {
                    assert(r[word][j1].has_translation(w));
                }
            }
        } else {
            assert(cut[t] == m[t]);
            if r.contains_key(t) && r[t] == m[t] {
                assert(r[t][j].has_translation(w));
            } else {
                lemma_without(m[t], word);
                assert(w != word) by {
                    if w == word {
                        assert(x.has_translation(t));
                        assert(cut[word][p].has_translation(t));
                        assert(points_at(rest, t));
                    }
                }
                assert(without(m[t], word).contains(y));
                let q = choose|q: int| 0 <= q < without(m[t], word).len() && without(m[t], word)[q] == y;
                assert(r[t][q].has_translation(w));
            }
        }
    }
}

/// Replacing a record by one that points where it pointed keeps every pair
/// mirrored.
pub proof fn lemma_replace_record_keeps_symmetry(m: WordsView, word: Seq<char>, index: int, record: WordStatusView)
    requires
        symmetric(m),
        m.contains_key(word),
        0 <= index < m[word].len(),
        record.translation() == m[word][index].translation(),
    ensures
        symmetric(m.insert(word, m[word].update(index, record))),
{
    let r = m.insert(word, m[word].update(index, record));
    assert forall|w: Seq<char>, i: int| r.contains_key(w) && 0 <= i < r[w].len() implies m.contains_key(w)
        && r[w].len() == m[w].len() && (#[trigger] r[w][i]).translation() == m[w][i].translation() by {}
    assert forall|w: Seq<char>, t: Seq<char>| r.contains_key(w) && #[trigger] points_at(r[w], t) implies r.contains_key(t)
        && points_at(r[t], w) by {
        let i = choose|i: int| 0 <= i < r[w].len() && (#[trigger] r[w][i]).has_translation(t);
        assert(m[w][i].has_translation(t));
        assert(points_at(m[w], t));
        let j = choose|j: int| 0 <= j < m[t].len() && (#[trigger] m[t][j]).has_translation(w);
        assert(r[t][j].has_translation(w));
    }
}

/// Putting a record in keeps every pair mirrored.
pub proof fn lemma_put_record_keeps_symmetry(m: WordsView, word: Seq<char>, index: int, record: WordStatusView)
    requires
        symmetric(m),
        0 <= index <= records_of(m, word).len(),
    ensures
        symmetric(record_put(m, word, index, record)),
{
    let r = record_put(m, word, index, record);
    let list = records_of(m, word).insert(index, record);
    let put = m.insert(word, list);
    assert forall|i: int| 0 <= i < list.len() implies #[trigger] list[i] == (if i < index {
        records_of(m, word)[i]
    } else if i == index {
        record
    } else {
        records_of(m, word)[i - 1]
    }) by {}
    assert forall|w: Seq<char>, t: Seq<char>| r.contains_key(w) && #[trigger] points_at(r[w], t) implies r.contains_key(t)
        && points_at(r[t], w) by {
        let i = choose|i: int| 0 <= i < r[w].len() && (#[trigger] r[w][i]).has_translation(t);
        let x = r[w][i];
        let old_len = records_of(put, w).len();
        if i >= old_len {
            assert(x == mirror_of(record, word));
            assert(t == word);
            assert(r[word] == list || r[word] == list.push(mirror_of(record, word)));
            assert(list[index].has_translation(w));
            assert(r[word][index].has_translation(w));
        } else if w == word && i == index {
            assert(record.has_translation(t));
            if points_at(records_of(put, t), word) {
                let j = choose|j: int|
                    0 <= j < records_of(put, t).len() && (#[trigger] records_of(put, t)[j]).has_translation(word);
                assert(r[t][j].has_translation(word));
            } else {
                let at = records_of(put, t).len() as int;
                assert(r[t][at] == mirror_of(record, word));
                assert(r[t][at].has_translation(word));
            }
        } else {
            let i0 = if w == word && i > index { i - 1 } else { i };
            assert(m[w][i0] == x);
            assert(m[w][i0].has_translation(t));
            assert(points_at(m[w], t));
            let j = choose|j: int| 0 <= j < m[t].len() && (#[trigger] m[t][j]).has_translation(w);
            let j1 = if t == word && j >= index { j + 1 } else { j };
            assert(put[t][j1] == m[t][j]);
            assert(r[t][j1].has_translation(w));
        }
    }
}

} // verus!
