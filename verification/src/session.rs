//! One practice session: the walk through the words chosen for today.
//!
//! The session is idle (`Idle`), waits for the size of the batch
//! (`Choose`), presents a word (`Typing`) or shows what was wrong with the
//! answers (`Checked`). Attempts are registered the moment the answers are
//! checked, so abandoning a session loses nothing.

use vstd::prelude::*;
use crate::batch::{batch_of, ranked};
use crate::checking::{is_pairing, match_guesses, matches_first};
use crate::day::Day;
use crate::ladder::{LearnType, rungs_positive};
use crate::model::{all_taken, records_wf, symmetric, tried_all, WordsView};
use crate::random::{draw_numbers, shuffle_with, shuffled};
use crate::schedule::{prompts, queue_of, Prompt, Queue, WordsToLearn};
use crate::seqs::{lemma_filter_members, lemma_take_push};
use crate::stats::DayStatistics;
use crate::text::texts;
use crate::words::Words;

verus! {

/// A checked answer: `Ok` holds the translation that was typed right, `Err`
/// the expected translation and what was typed in its place.
pub type Answer = Result<String, (String, String)>;

/// A checked answer as the pair of what was expected and what was typed.
pub open spec fn answer_view(answer: Answer) -> (Seq<char>, Seq<char>) {
    match answer {
        Ok(text) => (text@, text@),
        Err(pair) => (pair.0@, pair.1@),
    }
}

/// Checked answers as pairs of what was expected and what was typed.
pub open spec fn answers_view(answers: Seq<Answer>) -> Seq<(Seq<char>, Seq<char>)> {
    Seq::new(answers.len(), |i: int| answer_view(answers[i]))
}

/// Each answer is marked as it is: it is `Ok` exactly if what was typed
/// equals what was expected.
pub open spec fn rightly_marked(answers: Seq<Answer>) -> bool {
    forall|i: int|
        0 <= i < answers.len() ==> ((#[trigger] answers[i]) is Ok <==> answer_view(answers[i]).0 == answer_view(
            answers[i],
        ).1)
}

/// What was expected and what was typed, entry by entry: first the
/// translations typed with a hint, each against the hint of its own place;
/// then the guesses, each against the expected translation that `pairing`
/// gives it.
pub open spec fn outcomes(
    to_type: Seq<Seq<char>>,
    typed: Seq<Seq<char>>,
    to_guess: Seq<Seq<char>>,
    guessed: Seq<Seq<char>>,
    pairing: Seq<usize>,
) -> Seq<(Seq<char>, Seq<char>)> {
    Seq::new(
        if typed.len() <= to_type.len() {
            typed.len()
        } else {
            to_type.len()
        },
        |i: int| (to_type[i], typed[i]),
    ) + Seq::new(guessed.len(), |i: int| (to_guess[pairing[i] as int], guessed[i]))
}

/// The attempts that a list of outcomes stands for: on each expected
/// translation one attempt, correct if what was typed equals it.
pub open spec fn attempts_of(outcomes: Seq<(Seq<char>, Seq<char>)>) -> Seq<(Seq<char>, bool)> {
    Seq::new(outcomes.len(), |i: int| (outcomes[i].0, outcomes[i].0 == outcomes[i].1))
}

/// The answers of one prompt, checked.
#[derive(Debug)]
pub struct Checking {
    /// For each guess, the position of the expected translation it was
    /// checked against.
    pub pairing: Vec<usize>,
    /// The checked answers: the typed translations, then the guesses.
    pub answers: Vec<Answer>,
}

/// Checks one answer.
fn check_one(expected: &String, typed: &String) -> (answer: Answer)
    ensures
        answer_view(answer) == (expected@, typed@),
        answer is Ok <==> expected@ == typed@,
{
    if *expected == *typed {
        Ok(expected.clone())
    } else {
        Err((expected.clone(), typed.clone()))
    }
}

/// Checks what was typed for one prompt.
///
/// A translation typed with a hint is right if it equals the hint of its
/// place. Guesses are free in their order: a guess that equals an expected
/// translation is paired with it first; each other guess is then paired
/// with an expected translation that is left, and is wrong.
pub fn check_answers(plan: &WordsToLearn, typed: &Vec<String>, guessed: &Vec<String>) -> (checking: Checking)
    requires
        guessed@.len() <= plan.words_to_guess@.len(),
    ensures
        is_pairing(checking.pairing@, texts(guessed@), texts(plan.words_to_guess@)),
        matches_first(checking.pairing@, texts(guessed@), texts(plan.words_to_guess@)),
        answers_view(checking.answers@) == outcomes(
            texts(plan.words_to_type@),
            texts(typed@),
            texts(plan.words_to_guess@),
            texts(guessed@),
            checking.pairing@,
        ),
        rightly_marked(checking.answers@),
{
    let mut answers: Vec<Answer> = Vec::new();
    let count: usize = if typed.len() <= plan.words_to_type.len() {
        typed.len()
    } else {
        plan.words_to_type.len()
    };
    let mut i: usize = 0;
    while i < count
        invariant
            i <= count,
            count <= typed@.len(),
            count <= plan.words_to_type@.len(),
            answers@.len() == i,
            forall|a: int|
                0 <= a < i ==> answer_view(#[trigger] answers@[a]) == (plan.words_to_type@[a]@, typed@[a]@) && (
                answers@[a] is Ok <==> plan.words_to_type@[a]@ == typed@[a]@),
        decreases count - i,
    {
        answers.push(check_one(&plan.words_to_type[i], &typed[i]));
        i += 1;
    }
    let pairing = match_guesses(&plan.words_to_guess, guessed);
    let mut j: usize = 0;
    while j < guessed.len()
        invariant
            j <= guessed@.len(),
            is_pairing(pairing@, texts(guessed@), texts(plan.words_to_guess@)),
            count <= typed@.len(),
            count <= plan.words_to_type@.len(),
            answers@.len() == count + j,
            forall|a: int|
                0 <= a < count ==> answer_view(#[trigger] answers@[a]) == (plan.words_to_type@[a]@, typed@[a]@) && (
                answers@[a] is Ok <==> plan.words_to_type@[a]@ == typed@[a]@),
            forall|a: int|
                0 <= a < j ==> answer_view(#[trigger] answers@[count + a]) == (
                    plan.words_to_guess@[pairing@[a] as int]@,
                    guessed@[a]@,
                ) && (answers@[count + a] is Ok <==> plan.words_to_guess@[pairing@[a] as int]@ == guessed@[a]@),
        decreases guessed@.len() - j,
    {
        assert(pairing@[j as int] < texts(plan.words_to_guess@).len());
        answers.push(check_one(&plan.words_to_guess[pairing[j]], &guessed[j]));
        j += 1;
    }
    proof {
        let out = outcomes(
            texts(plan.words_to_type@),
            texts(typed@),
            texts(plan.words_to_guess@),
            texts(guessed@),
            pairing@,
        );
        assert(answers_view(answers@).len() == out.len());
        assert forall|a: int| 0 <= a < out.len() implies answers_view(answers@)[a] == out[a] by {
            if a >= count {
                assert(answer_view(answers@[count + (a - count)]) == out[a]);
            }
        }
        assert(answers_view(answers@) =~= out);
        assert forall|a: int| 0 <= a < answers@.len() implies ((#[trigger] answers@[a]) is Ok <==> answer_view(
            answers@[a],
        ).0 == answer_view(answers@[a]).1) by {
            if a >= count {
                assert(answer_view(answers@[count + (a - count)]) == out[a]);
            }
        }
    }
    Checking { pairing, answers }
}

impl Words {
    /// Registers the attempts that a list of checked answers stands for, in
    /// order, on the translations of `word`. An attempt that cannot be
    /// taken is passed over; the result says whether every attempt was
    /// taken.
    pub fn register_all(
        &mut self,
        word: &str,
        answers: &Vec<Answer>,
        today: Day,
        day_stats: &mut DayStatistics,
        type_count: &[LearnType],
    ) -> (every: bool)
        requires
            old(self).wf(),
        ensures
            final(self).wf(),
            every == all_taken(
                old(self)@,
                old(day_stats).attempts,
                word@,
                attempts_of(answers_view(answers@)),
                today,
                type_count@,
            ),
            (final(self)@, final(day_stats).attempts) == tried_all(
                old(self)@,
                old(day_stats).attempts,
                word@,
                attempts_of(answers_view(answers@)),
                today,
                type_count@,
            ),
            symmetric(old(self)@) ==> symmetric(final(self)@),
            records_wf(old(self)@, type_count@) && rungs_positive(type_count@) ==> records_wf(
                final(self)@,
                type_count@,
            ),
            final(day_stats).new_unknown_words_count == old(day_stats).new_unknown_words_count,
            final(day_stats).word_count_by_level == old(day_stats).word_count_by_level,
    {
        let ghost attempts = attempts_of(answers_view(answers@));
        let mut every: bool = true;
        let mut i: usize = 0;
        assert(attempts.take(0) =~= Seq::<(Seq<char>, bool)>::empty());
        while i < answers.len()
            invariant
                self.wf(),
                i <= answers@.len(),
                attempts == attempts_of(answers_view(answers@)),
                every == all_taken(
                    old(self)@,
                    old(day_stats).attempts,
                    word@,
                    attempts.take(i as int),
                    today,
                    type_count@,
                ),
                (self@, day_stats.attempts) == tried_all(
                    old(self)@,
                    old(day_stats).attempts,
                    word@,
                    attempts.take(i as int),
                    today,
                    type_count@,
                ),
                symmetric(old(self)@) ==> symmetric(self@),
                records_wf(old(self)@, type_count@) && rungs_positive(type_count@) ==> records_wf(
                    self@,
                    type_count@,
                ),
                day_stats.new_unknown_words_count == old(day_stats).new_unknown_words_count,
                day_stats.word_count_by_level == old(day_stats).word_count_by_level,
            decreases answers@.len() - i,
        {
            let outcome = match &answers[i] {
                Ok(text) => self.try_register_attempt(word, text.as_str(), true, today, day_stats, type_count),
                Err(pair) => {
                    let correct: bool = pair.0 == pair.1;
                    self.try_register_attempt(word, pair.0.as_str(), correct, today, day_stats, type_count)
                },
            };
            if outcome.is_err() {
                every = false;
            }
            proof {
                lemma_take_push(attempts, i as int);
                assert(attempts[i as int] == (
                    answer_view(answers@[i as int]).0,
                    answer_view(answers@[i as int]).0 == answer_view(answers@[i as int]).1,
                ));
            }
            i += 1;
        }
        assert(attempts.take(answers@.len() as int) =~= attempts);
        every
    }
}

/// The prompt for `word` asks for something: the word is in the store and
/// one of its translations is to be typed or to be recalled.
pub open spec fn asks(m: WordsView, word: Seq<char>, today: Day, ladder: Seq<LearnType>) -> bool {
    m.contains_key(word) && (prompts(m[word], Prompt::Type, today, ladder).len() > 0 || prompts(
        m[word],
        Prompt::Guess,
        today,
        ladder,
    ).len() > 0)
}

/// The prompt for `word` gives a hint: one of its translations is to be
/// typed with the answer shown.
pub open spec fn hints(m: WordsView, word: Seq<char>, today: Day, ladder: Seq<LearnType>) -> bool {
    m.contains_key(word) && prompts(m[word], Prompt::Type, today, ladder).len() > 0
}

/// The words that a round may hold: those that give a hint, or all that
/// ask for something.
pub open spec fn wanted(m: WordsView, hinted_only: bool, today: Day, ladder: Seq<LearnType>) -> spec_fn(
    Seq<char>,
) -> bool {
    |w: Seq<char>|
        if hinted_only {
            hints(m, w, today, ladder)
        } else {
            asks(m, w, today, ladder)
        }
}

/// `plan` is the prompt for `word`.
pub open spec fn is_plan_of(
    plan: WordsToLearn,
    m: WordsView,
    word: Seq<char>,
    today: Day,
    ladder: Seq<LearnType>,
) -> bool {
    &&& texts(plan.known_words@) == prompts(m[word], Prompt::Known, today, ladder)
    &&& texts(plan.words_to_type@) == prompts(m[word], Prompt::Type, today, ladder)
    &&& texts(plan.words_to_guess@) == prompts(m[word], Prompt::Guess, today, ladder)
}

/// What the session is doing.
#[derive(Debug)]
pub enum LearnWords {
    /// Nothing is left to practise today.
    Idle,
    /// Words are due, and the size of the batch has to be chosen.
    Choose {
        /// How many words wait to be repeated.
        repeat_count: usize,
        /// How many new words wait.
        new_count: usize,
    },
    /// A word is presented and its translations are being typed.
    Typing {
        /// The word.
        word: String,
        /// What is shown and what is asked for.
        correct_answer: WordsToLearn,
    },
    /// The answers were checked and not all of them were right.
    Checked {
        /// The word.
        word: String,
        /// The translations that were shown as known.
        known_words: Vec<String>,
        /// The checked answers.
        answers: Vec<Answer>,
    },
}

/// The walk through the words of one day.
#[derive(Debug)]
pub struct LearnWordsWindow {
    /// The due words to repeat that no batch has taken yet, most urgent
    /// first.
    pub to_repeat: Vec<String>,
    /// The due new words that no batch has taken yet, most urgent first.
    pub to_learn: Vec<String>,
    /// The working pool: the words of the batch that still ask for
    /// something.
    pub to_type_today: Vec<String>,
    /// The round: the shuffled words of the pool that are presented next.
    pub round: Vec<String>,
    /// What the session is doing.
    pub current: LearnWords,
}

/// The word lists of a session as values.
pub struct QueuesView {
    pub to_repeat: Seq<Seq<char>>,
    pub to_learn: Seq<Seq<char>>,
    pub pool: Seq<Seq<char>>,
    pub round: Seq<Seq<char>>,
}

impl LearnWordsWindow {
    /// The word lists of the session.
    pub open spec fn queues(self) -> QueuesView {
        QueuesView {
            to_repeat: texts(self.to_repeat@),
            to_learn: texts(self.to_learn@),
            pool: texts(self.to_type_today@),
            round: texts(self.round@),
        }
    }
}

/// What picking the next word makes of a session.
///
/// The queues stay. If a word of the old round still asks for something,
/// the first such word is presented and the pool stays. Otherwise the pool
/// keeps only the words that ask for something; if it is empty then, the
/// session waits for a batch, or is idle if the queues are empty too; if it
/// is not, a new round starts, with the words of the pool that give a hint
/// or, if none does, with all of them, and one of its words is presented.
pub open spec fn picked(
    before: QueuesView,
    after: LearnWordsWindow,
    m: WordsView,
    today: Day,
    ladder: Seq<LearnType>,
) -> bool {
    let pool = texts(after.to_type_today@);
    &&& texts(after.to_repeat@) == before.to_repeat
    &&& texts(after.to_learn@) == before.to_learn
    &&& match after.current {
        LearnWords::Idle => pool.len() == 0 && after.round@.len() == 0 && after.to_repeat@.len() == 0
            && after.to_learn@.len() == 0,
        LearnWords::Choose { repeat_count, new_count } => pool.len() == 0 && after.round@.len() == 0
            && repeat_count == after.to_repeat@.len() && new_count == after.to_learn@.len() && (
        repeat_count > 0 || new_count > 0),
        LearnWords::Typing { word, correct_answer } => {
            &&& asks(m, word@, today, ladder)
            &&& is_plan_of(correct_answer, m, word@, today, ladder)
            &&& {
                ||| from_old_round(before, after, word@, m, today, ladder)
                ||| from_new_round(before, after, word@, m, today, ladder)
            }
        },
        LearnWords::Checked { .. } => false,
    }
    &&& !(after.current is Typing) ==> pool == before.pool.filter(wanted(m, false, today, ladder)) && forall|
        q: int,
    | 0 <= q < before.round.len() ==> !asks(m, #[trigger] before.round[q], today, ladder)
}

/// The word was left in the old round: it is the first word of that round
/// that still asks for something, the round keeps what followed it, and
/// the pool stays.
pub open spec fn from_old_round(
    before: QueuesView,
    after: LearnWordsWindow,
    word: Seq<char>,
    m: WordsView,
    today: Day,
    ladder: Seq<LearnType>,
) -> bool {
    &&& texts(after.to_type_today@) == before.pool
    &&& exists|p: int|
        {
            &&& 0 <= p < before.round.len()
            &&& #[trigger] before.round[p] == word
            &&& forall|q: int| 0 <= q < p ==> !asks(m, #[trigger] before.round[q], today, ladder)
            &&& texts(after.round@) == before.round.skip(p + 1)
        }
}

/// What picking the next word makes of a session when the words of a new
/// round are put in the order that `draws` pick: all that [`picked`] says,
/// and the word that starts a new round, with the round after it, is the
/// round's words in that order.
pub open spec fn picked_by(
    before: QueuesView,
    after: LearnWordsWindow,
    m: WordsView,
    today: Day,
    ladder: Seq<LearnType>,
    draws: Seq<u32>,
) -> bool {
    &&& picked(before, after, m, today, ladder)
    &&& after.current matches LearnWords::Typing { word, .. } ==> {
        ||| from_old_round(before, after, word@, m, today, ladder)
        ||| seq![word@] + texts(after.round@) == shuffled(
            round_of(texts(after.to_type_today@), m, today, ladder),
            draws,
        )
    }
}

/// The words that a new round is made of: the words of the pool that give a
/// hint, or the whole pool if none of its words does.
pub open spec fn round_of(pool: Seq<Seq<char>>, m: WordsView, today: Day, ladder: Seq<LearnType>) -> Seq<
    Seq<char>,
> {
    if pool.filter(wanted(m, true, today, ladder)).len() > 0 {
        pool.filter(wanted(m, true, today, ladder))
    } else {
        pool
    }
}

/// The word starts a new round: no word of the old round asks for
/// anything any more; the pool keeps the words that ask for
/// something; the word and the round after it are, in some order, the
/// words that the round is made of; so a word that gives a hint goes before
/// any that gives none.
pub open spec fn from_new_round(
    before: QueuesView,
    after: LearnWordsWindow,
    word: Seq<char>,
    m: WordsView,
    today: Day,
    ladder: Seq<LearnType>,
) -> bool {
    let pool = texts(after.to_type_today@);
    &&& forall|q: int| 0 <= q < before.round.len() ==> !asks(m, #[trigger] before.round[q], today, ladder)
    &&& pool == before.pool.filter(wanted(m, false, today, ladder))
    &&& pool.contains(word)
    &&& (seq![word] + texts(after.round@)).to_multiset() == round_of(pool, m, today, ladder).to_multiset()
    &&& forall|w: Seq<char>| #[trigger] texts(after.round@).contains(w) ==> pool.contains(w)
    &&& forall|w: Seq<char>|
        #[trigger] pool.contains(w) && hints(m, w, today, ladder) ==> hints(m, word, today, ladder)
    &&& forall|w: Seq<char>|
        #[trigger] texts(after.round@).contains(w) && hints(m, word, today, ladder) ==> hints(
            m,
            w,
            today,
            ladder,
        )
}

/// The prompt for `word`, if it asks for something.
pub fn word_plan(words: &Words, word: &str, today: Day, type_count: &[LearnType]) -> (plan: Option<
    WordsToLearn,
>)
    requires
        words.wf(),
    ensures
        match plan {
            Some(p) => asks(words@, word@, today, type_count@) && is_plan_of(
                p,
                words@,
                word@,
                today,
                type_count@,
            ),
            None => !asks(words@, word@, today, type_count@),
        },
{
    if !words.contains_word(word) {
        return None;
    }
    let plan = words.get_word_to_learn(word, today, type_count);
    if plan.words_to_type.len() == 0 && plan.words_to_guess.len() == 0 {
        None
    } else {
        Some(plan)
    }
}

/// The words of `list` that give a hint, or all that ask for something.
pub fn keep_wanted(
    words: &Words,
    list: &Vec<String>,
    hinted_only: bool,
    today: Day,
    type_count: &[LearnType],
) -> (kept: Vec<String>)
    requires
        words.wf(),
    ensures
        texts(kept@) == texts(list@).filter(wanted(words@, hinted_only, today, type_count@)),
{
    let ghost pred = wanted(words@, hinted_only, today, type_count@);
    let ghost all = texts(list@);
    let mut kept: Vec<String> = Vec::new();
    let mut i: usize = 0;
    proof {
        reveal(Seq::filter);
        assert(all.take(0).filter(pred) =~= Seq::<Seq<char>>::empty());
    }
    while i < list.len()
        invariant
            words.wf(),
            i <= list@.len(),
            all == texts(list@),
            pred == wanted(words@, hinted_only, today, type_count@),
            texts(kept@) == all.take(i as int).filter(pred),
        decreases list@.len() - i,
    {
        let ghost before = texts(kept@);
        let keep: bool = match word_plan(words, list[i].as_str(), today, type_count) {
            Some(plan) => !hinted_only || plan.words_to_type.len() > 0,
            None => false,
        };
        if keep {
            kept.push(list[i].clone());
        }
        proof {
            let w = all[i as int];
            lemma_take_push(all, i as int);
            all.take(i as int).lemma_filter_push(w, pred);
            assert(pred(w) == keep);
            if keep {
                assert(texts(kept@) =~= before.push(w));
            } else {
                assert(texts(kept@) =~= before);
            }
        }
        i += 1;
    }
    assert(all.take(list@.len() as int) =~= all);
    kept
}

impl LearnWordsWindow {
    /// A session for `today`: the due words are ranked, and nothing is
    /// chosen yet.
    pub fn new(words: &Words, today: Day, type_count: &[LearnType]) -> (window: LearnWordsWindow)
        requires
            words.wf(),
        ensures
            window.refreshed(words@, words.words(), today, type_count@),
    {
        let mut window = LearnWordsWindow {
            to_repeat: Vec::new(),
            to_learn: Vec::new(),
            to_type_today: Vec::new(),
            round: Vec::new(),
            current: LearnWords::Idle,
        };
        window.update(words, today, type_count);
        window
    }

    /// The session has just been set up for `today`: its queues hold the
    /// due words, most urgent first, its pool and its round are empty, and
    /// it waits for a batch, or is idle if nothing is due.
    pub open spec fn refreshed(
        self,
        m: WordsView,
        words: Seq<Seq<char>>,
        today: Day,
        ladder: Seq<LearnType>,
    ) -> bool {
        &&& texts(self.to_repeat@).to_multiset() == queue_of(m, words, Queue::Repeat, today, ladder).to_multiset()
        &&& texts(self.to_learn@).to_multiset() == queue_of(m, words, Queue::New, today, ladder).to_multiset()
        &&& ranked(m, texts(self.to_repeat@), today, ladder)
        &&& ranked(m, texts(self.to_learn@), today, ladder)
        &&& self.to_type_today@.len() == 0
        &&& self.round@.len() == 0
        &&& match self.current {
            LearnWords::Idle => self.to_repeat@.len() == 0 && self.to_learn@.len() == 0,
            LearnWords::Choose { repeat_count, new_count } => repeat_count == self.to_repeat@.len()
                && new_count == self.to_learn@.len() && (repeat_count > 0 || new_count > 0),
            _ => false,
        }
    }

    /// Starts over: whatever is left of the pool is dropped, and the due
    /// words are computed and ranked afresh.
    pub fn update(&mut self, words: &Words, today: Day, type_count: &[LearnType])
        requires
            words.wf(),
        ensures
            final(self).refreshed(words@, words.words(), today, type_count@),
    {
        let repeat = words.get_queue(Queue::Repeat, today, type_count);
        let new = words.get_queue(Queue::New, today, type_count);
        self.to_repeat = words.rank_by_overdue(repeat, today, type_count);
        self.to_learn = words.rank_by_overdue(new, today, type_count);
        self.to_type_today = Vec::new();
        self.round = Vec::new();
        proof {
            reveal(Seq::filter);
            assert(texts(self.to_type_today@) =~= Seq::<Seq<char>>::empty());
        }
        self.pick_current_type(words, today, type_count);
    }

    /// Picks what the session does next, drawing at random the order of a
    /// new round: see [`picked`].
    pub fn pick_current_type(&mut self, words: &Words, today: Day, type_count: &[LearnType])
        requires
            words.wf(),
        ensures
            picked(old(self).queues(), *final(self), words@, today, type_count@),
    {
        let draws = draw_numbers(self.to_type_today.len());
        self.pick_with_draws(words, today, type_count, draws.as_slice());
    }

    /// Picks what the session does next, putting the words of a new round
    /// in the order that `draws` pick: see [`picked_by`].
    pub fn pick_with_draws(&mut self, words: &Words, today: Day, type_count: &[LearnType], draws: &[u32])
        requires
            words.wf(),
        ensures
            picked_by(old(self).queues(), *final(self), words@, today, type_count@, draws@),
    {
        let ghost start = texts(self.round@);
        let ghost mut passed: int = 0;
        assert(start.skip(0) =~= start);
        while self.round.len() > 0
            invariant
                words.wf(),
                self.to_repeat == old(self).to_repeat,
                self.to_learn == old(self).to_learn,
                self.to_type_today == old(self).to_type_today,
                start == texts(old(self).round@),
                0 <= passed <= start.len(),
                texts(self.round@) == start.skip(passed),
                forall|q: int| 0 <= q < passed ==> !asks(words@, #[trigger] start[q], today, type_count@),
            decreases self.round@.len(),
        {
            let ghost round_before = texts(self.round@);
            assert(round_before.len() == start.len() - passed);
            let word = self.round.remove(0);
            proof {
                assert(round_before[0] == word@);
                assert(start.skip(passed)[0] == start[passed]);
                assert forall|k: int| 0 <= k < texts(self.round@).len() implies texts(self.round@)[k] == start.skip(
                    passed + 1,
                )[k] by {
                    assert(texts(self.round@)[k] == round_before[k + 1]);
                    assert(start.skip(passed)[k + 1] == start[passed + k + 1]);
                }
                assert(texts(self.round@) =~= start.skip(passed + 1));
            }
            match word_plan(words, word.as_str(), today, type_count) {
                Some(plan) => {
                    self.current = LearnWords::Typing { word, correct_answer: plan };
                    proof {
                        let before = old(self).queues();
                        assert(before.round == start);
                        assert(before.round[passed] == word@);
                        assert(texts(self.to_type_today@) == before.pool);
                        assert(texts(self.round@) == before.round.skip(passed + 1));
                        assert(from_old_round(before, *self, word@, words@, today, type_count@));
                    }
                    return;
                },
                None => {},
            }
            proof {
                passed = passed + 1;
            }
        }
        let pool = keep_wanted(words, &self.to_type_today, false, today, type_count);
        self.to_type_today = pool;
        if self.to_type_today.len() == 0 {
            if self.to_repeat.len() == 0 && self.to_learn.len() == 0 {
                self.current = LearnWords::Idle;
            } else {
                self.current = LearnWords::Choose {
                    repeat_count: self.to_repeat.len(),
                    new_count: self.to_learn.len(),
                };
            }
            return;
        }
        let hinted = keep_wanted(words, &self.to_type_today, true, today, type_count);
        let hinted_only: bool = hinted.len() > 0;
        let mut round = if hinted_only {
            hinted
        } else {
            copy_words(&self.to_type_today)
        };
        let ghost pool_texts = texts(self.to_type_today@);
        let ghost source = texts(round@);
        let ghost all = wanted(words@, false, today, type_count@);
        let ghost some = wanted(words@, true, today, type_count@);
        proof {
            lemma_filter_members(texts(old(self).to_type_today@), all);
            lemma_filter_members(pool_texts, all);
            lemma_filter_members(pool_texts, some);
            if !hinted_only {
                let first = pool_texts[0];
                assert(pool_texts.contains(first));
                assert(source.contains(first));
            }
            assert(source.len() > 0);
        }
        shuffle_with(&mut round, draws);
        let ghost mixed = texts(round@);
        let word = round.remove(0);
        proof {
            assert(mixed[0] == word@);
            assert(mixed =~= seq![word@] + texts(round@));
            assert(mixed == shuffled(source, draws@));
            assert(source == round_of(pool_texts, words@, today, type_count@));
            assert forall|w: Seq<char>| mixed.contains(w) implies source.contains(w) by {
                vstd::seq_lib::to_multiset_contains(mixed, w);
                vstd::seq_lib::to_multiset_contains(source, w);
            }
            assert forall|w: Seq<char>| #[trigger] texts(round@).contains(w) implies source.contains(w) by {
                let p = choose|p: int| 0 <= p < texts(round@).len() && texts(round@)[p] == w;
                assert(mixed[p + 1] == w);
                assert(mixed.contains(w));
            }
            assert(mixed.contains(word@));
            assert(if hinted_only { some(word@) } else { all(word@) });
            assert forall|w: Seq<char>|
                #[trigger] pool_texts.contains(w) && hints(words@, w, today, type_count@) implies hints(
                words@,
                word@,
                today,
                type_count@,
            ) by {
                if !hinted_only {
                    assert(some(w));
                    assert(texts(hinted@).contains(w));
                }
            }
            assert forall|w: Seq<char>|
                #[trigger] texts(round@).contains(w) && hints(words@, word@, today, type_count@) implies hints(
                words@,
                w,
                today,
                type_count@,
            ) by {
                assert(source.contains(w));
                if hinted_only {
                    assert(some(w));
                } else {
                    assert(some(word@));
                    assert(texts(hinted@).contains(word@));
                }
            }
        }
        match word_plan(words, word.as_str(), today, type_count) {
            Some(plan) => {
                self.current = LearnWords::Typing { word, correct_answer: plan };
                self.round = round;
                assert(from_new_round(old(self).queues(), *self, word@, words@, today, type_count@));
            },
            None => {
                assert(false);
            },
        }
    }

    /// Takes a batch off the queues into the pool and picks the first word:
    /// up to `repeat_count` words to repeat and up to `new_count` new
    /// words, each with the due words it is linked to.
    pub fn choose_batch(
        &mut self,
        words: &Words,
        repeat_count: usize,
        new_count: usize,
        today: Day,
        type_count: &[LearnType],
    )
        requires
            words.wf(),
        ensures
            ({
                let batch = batch_of(
                    words@,
                    texts(old(self).to_repeat@),
                    texts(old(self).to_learn@),
                    repeat_count as nat,
                    new_count as nat,
                );
                picked(
                    (QueuesView {
                        to_repeat: batch.1,
                        to_learn: batch.2,
                        pool: batch.0,
                        round: Seq::empty(),
                    }),
                    *final(self),
                    words@,
                    today,
                    type_count@,
                )
            }),
    {
        let pool = words.build_batch(&mut self.to_repeat, &mut self.to_learn, repeat_count, new_count);
        self.to_type_today = pool;
        self.round = Vec::new();
        self.current = LearnWords::Idle;
        assert(self.queues().round =~= Seq::<Seq<char>>::empty());
        self.pick_current_type(words, today, type_count);
    }

    /// Takes a batch off the queues into the pool and picks the first word,
    /// with the words of the round in the order that `draws` pick.
    pub fn choose_batch_with_draws(
        &mut self,
        words: &Words,
        repeat_count: usize,
        new_count: usize,
        today: Day,
        type_count: &[LearnType],
        draws: &[u32],
    )
        requires
            words.wf(),
        ensures
            ({
                let batch = batch_of(
                    words@,
                    texts(old(self).to_repeat@),
                    texts(old(self).to_learn@),
                    repeat_count as nat,
                    new_count as nat,
                );
                picked_by(
                    (QueuesView {
                        to_repeat: batch.1,
                        to_learn: batch.2,
                        pool: batch.0,
                        round: Seq::empty(),
                    }),
                    *final(self),
                    words@,
                    today,
                    type_count@,
                    draws@,
                )
            }),
    {
        let pool = words.build_batch(&mut self.to_repeat, &mut self.to_learn, repeat_count, new_count);
        self.to_type_today = pool;
        self.round = Vec::new();
        self.current = LearnWords::Idle;
        assert(self.queues().round =~= Seq::<Seq<char>>::empty());
        self.pick_with_draws(words, today, type_count, draws);
    }

    /// Checks what was typed for the presented word and registers every
    /// attempt at once: first the translations typed with a hint, then the
    /// guesses. If every answer was right the next word is picked
    /// straight away; otherwise the session shows the checked answers.
    /// The result holds the checked answers and says whether every attempt
    /// was taken: an attempt that the store refuses is passed over and
    /// reported by this flag.
    pub fn check(
        &mut self,
        words: &mut Words,
        typed: &Vec<String>,
        guessed: &Vec<String>,
        today: Day,
        day_stats: &mut DayStatistics,
        type_count: &[LearnType],
    ) -> (outcome: (Checking, bool))
        requires
            old(words).wf(),
            old(self).current is Typing,
            guessed@.len() <= old(self).current->Typing_correct_answer.words_to_guess@.len(),
        ensures
            final(words).wf(),
            outcome.1 == all_taken(
                old(words)@,
                old(day_stats).attempts,
                old(self).current->Typing_word@,
                attempts_of(answers_view(outcome.0.answers@)),
                today,
                type_count@,
            ),
            is_pairing(
                outcome.0.pairing@,
                texts(guessed@),
                texts(old(self).current->Typing_correct_answer.words_to_guess@),
            ),
            matches_first(
                outcome.0.pairing@,
                texts(guessed@),
                texts(old(self).current->Typing_correct_answer.words_to_guess@),
            ),
            answers_view(outcome.0.answers@) == outcomes(
                texts(old(self).current->Typing_correct_answer.words_to_type@),
                texts(typed@),
                texts(old(self).current->Typing_correct_answer.words_to_guess@),
                texts(guessed@),
                outcome.0.pairing@,
            ),
            rightly_marked(outcome.0.answers@),
            (final(words)@, final(day_stats).attempts) == tried_all(
                old(words)@,
                old(day_stats).attempts,
                old(self).current->Typing_word@,
                attempts_of(answers_view(outcome.0.answers@)),
                today,
                type_count@,
            ),
            symmetric(old(words)@) ==> symmetric(final(words)@),
            records_wf(old(words)@, type_count@) && rungs_positive(type_count@) ==> records_wf(
                final(words)@,
                type_count@,
            ),
            final(day_stats).new_unknown_words_count == old(day_stats).new_unknown_words_count,
            final(day_stats).word_count_by_level == old(day_stats).word_count_by_level,
            all_right(outcome.0.answers@) ==> picked(
                old(self).queues(),
                *final(self),
                final(words)@,
                today,
                type_count@,
            ),
            !all_right(outcome.0.answers@) ==> final(self).queues() == old(self).queues() && (match final(self).current {
                LearnWords::Checked { word, known_words, answers } => word@ == old(self).current->Typing_word@ && texts(known_words@) == texts(
                    old(self).current->Typing_correct_answer.known_words@,
                ) && answers_view(answers@) == answers_view(outcome.0.answers@) && rightly_marked(answers@),
                _ => false,
            }),
    {
        let draws = draw_numbers(self.to_type_today.len());
        self.check_with_draws(words, typed, guessed, today, day_stats, type_count, draws.as_slice())
    }

    /// Checks what was typed for the presented word and registers every
    /// attempt at once: first the translations typed with a hint, then the
    /// guesses. If every answer was right the next word is picked
    /// straight away; otherwise the session shows the checked answers.
    /// The result holds the checked answers and says whether every attempt
    /// was taken: an attempt that the store refuses is passed over and
    /// reported by this flag. The words of a new round come in the order
    /// that `draws` pick.
    pub fn check_with_draws(
        &mut self,
        words: &mut Words,
        typed: &Vec<String>,
        guessed: &Vec<String>,
        today: Day,
        day_stats: &mut DayStatistics,
        type_count: &[LearnType],
        draws: &[u32],
    ) -> (outcome: (Checking, bool))
        requires
            old(words).wf(),
            old(self).current is Typing,
            guessed@.len() <= old(self).current->Typing_correct_answer.words_to_guess@.len(),
        ensures
            final(words).wf(),
            outcome.1 == all_taken(
                old(words)@,
                old(day_stats).attempts,
                old(self).current->Typing_word@,
                attempts_of(answers_view(outcome.0.answers@)),
                today,
                type_count@,
            ),
            is_pairing(
                outcome.0.pairing@,
                texts(guessed@),
                texts(old(self).current->Typing_correct_answer.words_to_guess@),
            ),
            matches_first(
                outcome.0.pairing@,
                texts(guessed@),
                texts(old(self).current->Typing_correct_answer.words_to_guess@),
            ),
            answers_view(outcome.0.answers@) == outcomes(
                texts(old(self).current->Typing_correct_answer.words_to_type@),
                texts(typed@),
                texts(old(self).current->Typing_correct_answer.words_to_guess@),
                texts(guessed@),
                outcome.0.pairing@,
            ),
            rightly_marked(outcome.0.answers@),
            (final(words)@, final(day_stats).attempts) == tried_all(
                old(words)@,
                old(day_stats).attempts,
                old(self).current->Typing_word@,
                attempts_of(answers_view(outcome.0.answers@)),
                today,
                type_count@,
            ),
            symmetric(old(words)@) ==> symmetric(final(words)@),
            records_wf(old(words)@, type_count@) && rungs_positive(type_count@) ==> records_wf(
                final(words)@,
                type_count@,
            ),
            final(day_stats).new_unknown_words_count == old(day_stats).new_unknown_words_count,
            final(day_stats).word_count_by_level == old(day_stats).word_count_by_level,
            all_right(outcome.0.answers@) ==> picked_by(
                old(self).queues(),
                *final(self),
                final(words)@,
                today,
                type_count@,
                draws@,
            ),
            !all_right(outcome.0.answers@) ==> final(self).queues() == old(self).queues() && (match final(self).current {
                LearnWords::Checked { word, known_words, answers } => word@ == old(self).current->Typing_word@ && texts(known_words@) == texts(
                    old(self).current->Typing_correct_answer.known_words@,
                ) && answers_view(answers@) == answers_view(outcome.0.answers@) && rightly_marked(answers@),
                _ => false,
            }),
    {
        let mut taken = LearnWords::Idle;
        core::mem::swap(&mut self.current, &mut taken);
        match taken {
            LearnWords::Typing { word, correct_answer } => {
                let checking = check_answers(&correct_answer, typed, guessed);
                let every = words.register_all(word.as_str(), &checking.answers, today, day_stats, type_count);
                if are_all_right(&checking.answers) {
                    self.pick_with_draws(words, today, type_count, draws);
                } else {
                    let answers = copy_answers(&checking.answers);
                    self.current = LearnWords::Checked {
                        word,
                        known_words: correct_answer.known_words,
                        answers,
                    };
                }
                (checking, every)
            },
            _ => (Checking { pairing: Vec::new(), answers: Vec::new() }, true),
        }
    }

    /// Leaves the checked answers and picks the next word, with the words
    /// of a new round in the order that `draws` pick.
    pub fn next_with_draws(&mut self, words: &Words, today: Day, type_count: &[LearnType], draws: &[u32])
        requires
            words.wf(),
        ensures
            picked_by(old(self).queues(), *final(self), words@, today, type_count@, draws@),
    {
        self.pick_with_draws(words, today, type_count, draws);
    }

    /// Leaves the checked answers and picks the next word.
    pub fn next(&mut self, words: &Words, today: Day, type_count: &[LearnType])
        requires
            words.wf(),
        ensures
            picked(old(self).queues(), *final(self), words@, today, type_count@),
    {
        self.pick_current_type(words, today, type_count);
    }
}

/// A copy of a list of words.
pub fn copy_words(list: &Vec<String>) -> (copy: Vec<String>)
    ensures
        texts(copy@) == texts(list@),
{
    let mut copy: Vec<String> = Vec::new();
    let mut i: usize = 0;
    while i < list.len()
        invariant
            i <= list@.len(),
            copy@.len() == i,
            forall|k: int| 0 <= k < i ==> (#[trigger] copy@[k])@ == list@[k]@,
        decreases list@.len() - i,
    {
        copy.push(list[i].clone());
        i += 1;
    }
    assert(texts(copy@) =~= texts(list@));
    copy
}

/// Every answer is right.
pub open spec fn all_right(answers: Seq<Answer>) -> bool {
    forall|i: int| 0 <= i < answers.len() ==> (#[trigger] answers[i]) is Ok
}

/// Whether every answer is right.
pub fn are_all_right(answers: &Vec<Answer>) -> (right: bool)
    ensures
        right == all_right(answers@),
{
    let mut i: usize = 0;
    while i < answers.len()
        invariant
            i <= answers@.len(),
            forall|k: int| 0 <= k < i ==> (#[trigger] answers@[k]) is Ok,
        decreases answers@.len() - i,
    {
        if answers[i].is_err() {
            assert(!(answers@[i as int] is Ok));
            return false;
        }
        i += 1;
    }
    true
}

/// A copy of a list of checked answers.
pub fn copy_answers(answers: &Vec<Answer>) -> (copy: Vec<Answer>)
    ensures
        answers_view(copy@) == answers_view(answers@),
        forall|i: int| 0 <= i < copy@.len() ==> ((#[trigger] copy@[i]) is Ok <==> answers@[i] is Ok),
        rightly_marked(answers@) ==> rightly_marked(copy@),
{
    let mut copy: Vec<Answer> = Vec::new();
    let mut i: usize = 0;
    while i < answers.len()
        invariant
            i <= answers@.len(),
            copy@.len() == i,
            forall|k: int|
                0 <= k < i ==> answer_view(#[trigger] copy@[k]) == answer_view(answers@[k]) && (copy@[k] is Ok
                    <==> answers@[k] is Ok),
        decreases answers@.len() - i,
    {
        let one: Answer = match &answers[i] {
            Ok(text) => Ok(text.clone()),
            Err(pair) => Err((pair.0.clone(), pair.1.clone())),
        };
        copy.push(one);
        i += 1;
    }
    proof {
        assert(answers_view(copy@) =~= answers_view(answers@));
        if rightly_marked(answers@) {
            assert forall|i: int| 0 <= i < copy@.len() implies ((#[trigger] copy@[i]) is Ok <==> answer_view(
                copy@[i],
            ).0 == answer_view(copy@[i]).1) by {
                assert(answers@[i] is Ok <==> answer_view(answers@[i]).0 == answer_view(answers@[i]).1);
                assert(answer_view(copy@[i]) == answers_view(copy@)[i]);
                assert(answer_view(answers@[i]) == answers_view(answers@)[i]);
            }
        }
    }
    copy
}

} // verus!
