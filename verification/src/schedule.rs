//! What is due: the queries that decide which words are practised today,
//! what has to be typed for a word, and how urgent a word is.

use vstd::prelude::*;
use crate::day::Day;
use crate::ladder::LearnType;
use crate::model::{records_of, WordsView};
use crate::seqs::{lemma_filter_members, lemma_take_push};
use crate::status::{WordStatus, WordStatusView};
use crate::text::texts;
use crate::words::{views, Inconsistency, Words};

verus! {

/// Some record of the list is due.
pub open spec fn has_due(records: Seq<WordStatusView>, today: Day, ladder: Seq<LearnType>) -> bool {
    exists|i: int| 0 <= i < records.len() && (#[trigger] records[i]).is_due(today, ladder)
}

/// Some record of the list is due and still on the first rung.
pub open spec fn has_due_at_start(records: Seq<WordStatusView>, today: Day, ladder: Seq<LearnType>) -> bool {
    exists|i: int|
        0 <= i < records.len() && (#[trigger] records[i]).is_due(today, ladder)
            && records[i]->ToLearn_current_level == 0
}

/// A queue of due words.
#[derive(Clone, Copy, Debug, PartialEq, Eq, Structural)]
pub enum Queue {
    /// Every word with a due record.
    All,
    /// The words met for the first time: a due record is on the first rung.
    New,
    /// The words to repeat: due, and every due record has left the first
    /// rung.
    Repeat,
}

/// A word with these records belongs to the queue.
pub open spec fn in_queue(
    records: Seq<WordStatusView>,
    queue: Queue,
    today: Day,
    ladder: Seq<LearnType>,
) -> bool {
    match queue {
        Queue::All => has_due(records, today, ladder),
        Queue::New => has_due_at_start(records, today, ladder),
        Queue::Repeat => has_due(records, today, ladder) && !has_due_at_start(records, today, ladder),
    }
}

/// The words of `words` that belong to the queue, in the order of `words`:
/// for the words of a store, the order of strings.
pub open spec fn queue_of(
    m: WordsView,
    words: Seq<Seq<char>>,
    queue: Queue,
    today: Day,
    ladder: Seq<LearnType>,
) -> Seq<Seq<char>> {
    words.filter(|w: Seq<char>| in_queue(records_of(m, w), queue, today, ladder))
}

/// How a translation appears in the prompt for a word.
#[derive(Clone, Copy, Debug, PartialEq, Eq, Structural)]
pub enum Prompt {
    /// Shown as known: the pair is learned, or its rung is not due.
    Known,
    /// To be typed with the answer shown.
    Type,
    /// To be recalled.
    Guess,
}

/// How the record appears in a prompt on `today`; an inert record does not
/// appear.
pub open spec fn prompt_of(r: WordStatusView, today: Day, ladder: Seq<LearnType>) -> Option<Prompt> {
    match r {
        WordStatusView::Learned { .. } => Some(Prompt::Known),
        WordStatusView::ToLearn { current_level, .. } => if !r.is_due(today, ladder) {
            Some(Prompt::Known)
        } else if ladder[current_level as int].show_word {
            Some(Prompt::Type)
        } else {
            Some(Prompt::Guess)
        },
        _ => None,
    }
}

/// The translations of the records that appear as `kind`, in order.
pub open spec fn prompts(
    records: Seq<WordStatusView>,
    kind: Prompt,
    today: Day,
    ladder: Seq<LearnType>,
) -> Seq<Seq<char>> {
    records.filter(|r: WordStatusView| prompt_of(r, today, ladder) == Some(kind)).map_values(
        |r: WordStatusView| r.translation()->0,
    )
}

/// By how many days the record is past the day on which it became due;
/// zero for a record that is not due.
pub open spec fn overdue_of(r: WordStatusView, today: Day, ladder: Seq<LearnType>) -> int {
    if r.is_due(today, ladder) {
        today.days_since(r->ToLearn_last_learn) - ladder[r->ToLearn_current_level as int].wait_days
    } else {
        0
    }
}

/// How many correct answers the record's rung still asks for; zero for a
/// record that is not due.
pub open spec fn attempts_left(r: WordStatusView, today: Day, ladder: Seq<LearnType>) -> int {
    if r.is_due(today, ladder) && ladder[r->ToLearn_current_level as int].count
        > r->ToLearn_current_count {
        ladder[r->ToLearn_current_level as int].count - r->ToLearn_current_count
    } else {
        0
    }
}

/// `value` is the greatest of the measures of the records, and zero if
/// there is none.
pub open spec fn is_greatest(
    value: int,
    records: Seq<WordStatusView>,
    measure: spec_fn(WordStatusView) -> int,
) -> bool {
    &&& forall|i: int| 0 <= i < records.len() ==> measure(#[trigger] records[i]) <= value
    &&& value == 0 || exists|i: int| 0 <= i < records.len() && measure(#[trigger] records[i]) == value
}

/// What to show and ask for one word.
#[derive(Debug)]
pub struct WordsToLearn {
    /// Translations shown as known.
    pub known_words: Vec<String>,
    /// Translations to type with the answer shown.
    pub words_to_type: Vec<String>,
    /// Translations to recall.
    pub words_to_guess: Vec<String>,
}

/// A prompt asks for a translation exactly if its record is due: what is
/// shown as known is never due, and what is due is never shown as known.
pub proof fn lemma_prompt_agrees_with_due(r: WordStatusView, today: Day, ladder: Seq<LearnType>)
    ensures
        r.is_due(today, ladder) <==> prompt_of(r, today, ladder) == Some(Prompt::Type) || prompt_of(
            r,
            today,
            ladder,
        ) == Some(Prompt::Guess),
        prompt_of(r, today, ladder) == Some(Prompt::Known) <==> r is Learned || (r is ToLearn && !r.is_due(
            today,
            ladder,
        )),
{
}

/// A queue holds each of its words once, and holds a word exactly if the
/// word is in the store and its records put it in the queue.
pub proof fn lemma_queue_members(
    m: WordsView,
    words: Seq<Seq<char>>,
    queue: Queue,
    today: Day,
    ladder: Seq<LearnType>,
)
    requires
        words.no_duplicates(),
        m.dom() =~= words.to_set(),
    ensures
        queue_of(m, words, queue, today, ladder).no_duplicates(),
        forall|w: Seq<char>| #[trigger]
            queue_of(m, words, queue, today, ladder).contains(w) <==> m.contains_key(w) && in_queue(
                m[w],
                queue,
                today,
                ladder,
            ),
{
    let pred = |w: Seq<char>| in_queue(records_of(m, w), queue, today, ladder);
    lemma_filter_members(words, pred);
    assert forall|w: Seq<char>| #[trigger]
        queue_of(m, words, queue, today, ladder).contains(w) <==> m.contains_key(w) && in_queue(
            m[w],
            queue,
            today,
            ladder,
        ) by {
        assert(words.contains(w) <==> words.to_set().contains(w));
        assert(pred(w) == in_queue(records_of(m, w), queue, today, ladder));
    }
}

/// Whether a list of records has a due record, and whether one of the due
/// records is still on the first rung.
fn due_kinds(records: &Vec<WordStatus>, today: Day, type_count: &[LearnType]) -> (kinds: (bool, bool))
    ensures
        kinds.0 == has_due(views(records@), today, type_count@),
        kinds.1 == has_due_at_start(views(records@), today, type_count@),
{
    let mut due: bool = false;
    let mut at_start: bool = false;
    let mut i: usize = 0;
    while i < records.len()
        invariant
            i <= records@.len(),
            due == has_due(views(records@).take(i as int), today, type_count@),
            at_start == has_due_at_start(views(records@).take(i as int), today, type_count@),
        decreases records@.len() - i,
    {
        let ghost head = views(records@).take(i as int);
        let ghost more = views(records@).take(i + 1);
        let ghost r = records@[i as int]@;
        let mut first: bool = false;
        let now: bool = records[i].can_learn_today(today, type_count);
        if now {
            if let WordStatus::ToLearn { current_level, .. } = &records[i] {
                first = *current_level == 0;
            }
        }
        proof {
            assert(more[i as int] == r);
            if has_due(head, today, type_count@) {
                let p = choose|p: int| 0 <= p < head.len() && (#[trigger] head[p]).is_due(today, type_count@);
                assert(more[p].is_due(today, type_count@));
            }
            if has_due_at_start(head, today, type_count@) {
                let p = choose|p: int|
                    0 <= p < head.len() && (#[trigger] head[p]).is_due(today, type_count@)
                        && head[p]->ToLearn_current_level == 0;
                assert(more[p].is_due(today, type_count@));
            }
            if has_due(more, today, type_count@) {
                let p = choose|p: int| 0 <= p < more.len() && (#[trigger] more[p]).is_due(today, type_count@);
                if p < i {
                    assert(head[p].is_due(today, type_count@));
                }
            }
            if has_due_at_start(more, today, type_count@) {
                let p = choose|p: int|
                    0 <= p < more.len() && (#[trigger] more[p]).is_due(today, type_count@)
                        && more[p]->ToLearn_current_level == 0;
                if p < i {
                    assert(head[p].is_due(today, type_count@));
                }
            }
        }
        due = due || now;
        at_start = at_start || first;
        i += 1;
    }
    assert(views(records@).take(records@.len() as int) =~= views(records@));
    (due, at_start)
}

impl Words {
    /// The words of one queue, in the order of strings.
    pub fn get_queue(&self, queue: Queue, today: Day, type_count: &[LearnType]) -> (due: Vec<String>)
        requires
            self.wf(),
        ensures
            texts(due@) == queue_of(self@, self.words(), queue, today, type_count@),
            texts(due@).no_duplicates(),
            forall|w: Seq<char>| #[trigger]
                texts(due@).contains(w) <==> self@.contains_key(w) && in_queue(
                    self@[w],
                    queue,
                    today,
                    type_count@,
                ),
    {
        let ghost pred = |w: Seq<char>| in_queue(records_of(self@, w), queue, today, type_count@);
        let mut due: Vec<String> = Vec::new();
        let n: usize = self.len();
        let mut i: usize = 0;
        proof {
            reveal(Seq::filter);
            assert(self.words().take(0).filter(pred) =~= Seq::<Seq<char>>::empty());
        }
        while i < n
            invariant
                self.wf(),
                n == self.words().len(),
                i <= n,
                pred == (|w: Seq<char>| in_queue(records_of(self@, w), queue, today, type_count@)),
                texts(due@) == self.words().take(i as int).filter(pred),
            decreases n - i,
        {
            let ghost before = texts(due@);
            let records = self.statuses_at(i);
            let kinds = due_kinds(records, today, type_count);
            let member: bool = match queue {
                Queue::All => kinds.0,
                Queue::New => kinds.1,
                Queue::Repeat => kinds.0 && !kinds.1,
            };
            if member {
                due.push(self.word_at(i).to_owned());
            }
            proof {
                let w = self.words()[i as int];
                lemma_take_push(self.words(), i as int);
                self.words().take(i as int).lemma_filter_push(w, pred);
                assert(pred(w) == member);
                if member {
                    assert(texts(due@) =~= before.push(w));
                } else {
                    assert(texts(due@) =~= before);
                }
            }
            i += 1;
        }
        proof {
            assert(self.words().take(n as int) =~= self.words());
            self.lemma_words();
            lemma_queue_members(self@, self.words(), queue, today, type_count@);
        }
        due
    }

    /// The words that have at least one due record, in the order of strings.
    pub fn get_words_to_learn_today(&self, today: Day, type_count: &[LearnType]) -> (due: Vec<String>)
        requires
            self.wf(),
        ensures
            texts(due@) == queue_of(self@, self.words(), Queue::All, today, type_count@),
            texts(due@).no_duplicates(),
            forall|w: Seq<char>| #[trigger]
                texts(due@).contains(w) <==> self@.contains_key(w) && has_due(self@[w], today, type_count@),
    {
        self.get_queue(Queue::All, today, type_count)
    }

    /// What the prompt for `word` shows and asks: each translation of a
    /// learned pair, or of a pair whose rung is not due, is shown as known;
    /// each translation of a due pair is to be typed, where its rung shows
    /// the answer, or to be recalled, where it does not. A word that the
    /// store does not hold has nothing to show and nothing to ask.
    pub fn get_word_to_learn(&self, word: &str, today: Day, type_count: &[LearnType]) -> (plan: WordsToLearn)
        requires
            self.wf(),
        ensures
            texts(plan.known_words@) == prompts(records_of(self@, word@), Prompt::Known, today, type_count@),
            texts(plan.words_to_type@) == prompts(records_of(self@, word@), Prompt::Type, today, type_count@),
            texts(plan.words_to_guess@) == prompts(records_of(self@, word@), Prompt::Guess, today, type_count@),
            !self@.contains_key(word@) ==> plan.known_words@.len() == 0 && plan.words_to_type@.len() == 0
                && plan.words_to_guess@.len() == 0,
    {
        let mut known_words: Vec<String> = Vec::new();
        let mut words_to_type: Vec<String> = Vec::new();
        let mut words_to_guess: Vec<String> = Vec::new();
        match self.position(word) {
            Some(pos) => {
                let records = self.statuses_at(pos);
                let ghost all = views(records@);
                let ghost is_known = |r: WordStatusView| prompt_of(r, today, type_count@) == Some(Prompt::Known);
                let ghost is_type = |r: WordStatusView| prompt_of(r, today, type_count@) == Some(Prompt::Type);
                let ghost is_guess = |r: WordStatusView| prompt_of(r, today, type_count@) == Some(Prompt::Guess);
                let ghost text_of = |r: WordStatusView| r.translation()->0;
                proof {
                    reveal(Seq::filter);
                    assert(all.take(0).filter(is_known).map_values(text_of) =~= Seq::<Seq<char>>::empty());
                    assert(all.take(0).filter(is_type).map_values(text_of) =~= Seq::<Seq<char>>::empty());
                    assert(all.take(0).filter(is_guess).map_values(text_of) =~= Seq::<Seq<char>>::empty());
                }
                let mut i: usize = 0;
                while i < records.len()
                    invariant
                        i <= records@.len(),
                        all == views(records@),
                        is_known == (|r: WordStatusView| prompt_of(r, today, type_count@) == Some(Prompt::Known)),
                        is_type == (|r: WordStatusView| prompt_of(r, today, type_count@) == Some(Prompt::Type)),
                        is_guess == (|r: WordStatusView| prompt_of(r, today, type_count@) == Some(Prompt::Guess)),
                        text_of == (|r: WordStatusView| r.translation()->0),
                        texts(known_words@) == all.take(i as int).filter(is_known).map_values(text_of),
                        texts(words_to_type@) == all.take(i as int).filter(is_type).map_values(text_of),
                        texts(words_to_guess@) == all.take(i as int).filter(is_guess).map_values(text_of),
                    decreases records@.len() - i,
                {
                    let ghost known_before = texts(known_words@);
                    let ghost type_before = texts(words_to_type@);
                    let ghost guess_before = texts(words_to_guess@);
                    match &records[i] {
                        WordStatus::ToLearn { translation, current_level, .. } => {
                            if records[i].can_learn_today(today, type_count) {
                                if type_count[*current_level as usize].show_word {
                                    words_to_type.push(translation.clone());
                                } else {
                                    words_to_guess.push(translation.clone());
                                }
                            } else {
                                known_words.push(translation.clone());
                            }
                        },
                        WordStatus::Learned { translation, .. } => {
                            known_words.push(translation.clone());
                        },
                        _ => {},
                    }
                    proof {
                        let head = all.take(i as int);
                        let r = all[i as int];
                        assert(r == records@[i as int]@);
                        lemma_take_push(all, i as int);
                        head.lemma_filter_push(r, is_known);
                        head.lemma_filter_push(r, is_type);
                        head.lemma_filter_push(r, is_guess);
                        let kind = prompt_of(r, today, type_count@);
                        if kind == Some(Prompt::Known) {
                            assert(texts(known_words@) =~= known_before.push(text_of(r)));
                            assert(head.filter(is_known).push(r).map_values(text_of) =~= head.filter(
                                is_known,
                            ).map_values(text_of).push(text_of(r)));
                        } else {
                            assert(texts(known_words@) =~= known_before);
                        }
                        if kind == Some(Prompt::Type) {
                            assert(texts(words_to_type@) =~= type_before.push(text_of(r)));
                            assert(head.filter(is_type).push(r).map_values(text_of) =~= head.filter(
                                is_type,
                            ).map_values(text_of).push(text_of(r)));
                        } else {
                            assert(texts(words_to_type@) =~= type_before);
                        }
                        if kind == Some(Prompt::Guess) {
                            assert(texts(words_to_guess@) =~= guess_before.push(text_of(r)));
                            assert(head.filter(is_guess).push(r).map_values(text_of) =~= head.filter(
                                is_guess,
                            ).map_values(text_of).push(text_of(r)));
                        } else {
                            assert(texts(words_to_guess@) =~= guess_before);
                        }
                    }
                    i += 1;
                }
                proof {
                    assert(all.take(records@.len() as int) =~= all);
                }
            },
            None => {
                proof {
                    reveal(Seq::filter);
                    let none = Seq::<WordStatusView>::empty();
                    assert(prompts(none, Prompt::Known, today, type_count@) =~= Seq::<Seq<char>>::empty());
                    assert(prompts(none, Prompt::Type, today, type_count@) =~= Seq::<Seq<char>>::empty());
                    assert(prompts(none, Prompt::Guess, today, type_count@) =~= Seq::<Seq<char>>::empty());
                }
            },
        }
        WordsToLearn { known_words, words_to_type, words_to_guess }
    }
    /// By how many days `word` is overdue: the greatest number of days by
    /// which one of its due records is past its waiting period, and zero
    /// if none is due.
    pub fn overdue_days(&self, word: &str, today: Day, type_count: &[LearnType]) -> (days: Result<
        u64,
        Inconsistency,
    >)
        requires
            self.wf(),
        ensures
            match days {
                Ok(d) => self@.contains_key(word@) && is_greatest(
                    d as int,
                    self@[word@],
                    |r: WordStatusView| overdue_of(r, today, type_count@),
                ),
                Err(e) => e == Inconsistency::UnknownWord && !self@.contains_key(word@),
            },
    {
        match self.position(word) {
            Some(pos) => {
                let records = self.statuses_at(pos);
                let ghost measure = |r: WordStatusView| overdue_of(r, today, type_count@);
                let mut best: u64 = 0;
                let mut i: usize = 0;
                while i < records.len()
                    invariant
                        i <= records@.len(),
                        measure == (|r: WordStatusView| overdue_of(r, today, type_count@)),
                        is_greatest(best as int, views(records@).take(i as int), measure),
                    decreases records@.len() - i,
                {
                    let ghost head = views(records@).take(i as int);
                    let ghost more = views(records@).take(i + 1);
                    let ghost was = best;
                    if records[i].can_learn_today(today, type_count) {
                        if let WordStatus::ToLearn { last_learn, current_level, .. } = &records[i] {
                            let over: u64 = today.0 - last_learn.0 - type_count[*current_level as usize].wait_days as u64;
                            if over > best {
                                best = over;
                            }
                        }
                    }
                    proof {
                        assert(more[i as int] == records@[i as int]@);
                        assert forall|k: int| 0 <= k < more.len() implies measure(#[trigger] more[k]) <= best by {
                            if k < i {
                                assert(head[k] == more[k]);
                            }
                        }
                        if best != 0 {
                            if best == was {
                                let k = choose|k: int| 0 <= k < head.len() && measure(#[trigger] head[k]) == was;
                                assert(measure(more[k]) == best);
                            } else {
                                assert(measure(more[i as int]) == best);
                            }
                        }
                    }
                    i += 1;
                }
                proof {
                    assert(views(records@).take(records@.len() as int) =~= views(records@));
                }
                Ok(best)
            },
            None => Err(Inconsistency::UnknownWord),
        }
    }

    /// How many correct answers `word` still needs today: the greatest
    /// number that the rung of one of its due records still asks for, and
    /// zero if none is due.
    pub fn remaining_attempts(&self, word: &str, today: Day, type_count: &[LearnType]) -> (left: Result<
        u8,
        Inconsistency,
    >)
        requires
            self.wf(),
        ensures
            match left {
                Ok(n) => self@.contains_key(word@) && is_greatest(
                    n as int,
                    self@[word@],
                    |r: WordStatusView| attempts_left(r, today, type_count@),
                ),
                Err(e) => e == Inconsistency::UnknownWord && !self@.contains_key(word@),
            },
    {
        match self.position(word) {
            Some(pos) => {
                let records = self.statuses_at(pos);
                let ghost measure = |r: WordStatusView| attempts_left(r, today, type_count@);
                let mut best: u8 = 0;
                let mut i: usize = 0;
                while i < records.len()
                    invariant
                        i <= records@.len(),
                        measure == (|r: WordStatusView| attempts_left(r, today, type_count@)),
                        is_greatest(best as int, views(records@).take(i as int), measure),
                    decreases records@.len() - i,
                {
                    let ghost head = views(records@).take(i as int);
                    let ghost more = views(records@).take(i + 1);
                    let ghost was = best;
                    if records[i].can_learn_today(today, type_count) {
                        if let WordStatus::ToLearn { current_level, current_count, .. } = &records[i] {
                            let asked: u8 = type_count[*current_level as usize].count;
                            if asked > *current_count {
                                let left: u8 = asked - *current_count;
                                if left > best {
                                    best = left;
                                }
                            }
                        }
                    }
                    proof {
                        assert(more[i as int] == records@[i as int]@);
                        assert forall|k: int| 0 <= k < more.len() implies measure(#[trigger] more[k]) <= best by {
                            if k < i {
                                assert(head[k] == more[k]);
                            }
                        }
                        if best != 0 {
                            if best == was {
                                let k = choose|k: int| 0 <= k < head.len() && measure(#[trigger] head[k]) == was;
                                assert(measure(more[k]) == best);
                            } else {
                                assert(measure(more[i as int]) == best);
                            }
                        }
                    }
                    i += 1;
                }
                proof {
                    assert(views(records@).take(records@.len() as int) =~= views(records@));
                }
                Ok(best)
            },
            None => Err(Inconsistency::UnknownWord),
        }
    }
}

} // verus!
