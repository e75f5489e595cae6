use learn_words::day::Day;
use learn_words::ladder::LearnType;
use learn_words::schedule::Queue;
use learn_words::stats::{DayStatistics, TypingStats};
use learn_words::status::WordStatus;
use learn_words::words::{Inconsistency, Words, WordsToAdd};

fn ladder() -> Vec<LearnType> {
    vec![LearnType::show(0, 2), LearnType::guess(2, 5), LearnType::guess(7, 5)]
}

fn record(translation: &str, last: u64, level: u8, count: u8) -> WordStatus {
    WordStatus::ToLearn {
        translation: translation.to_string(),
        last_learn: Day(last),
        current_level: level,
        current_count: count,
        stats: TypingStats { right: 0, wrong: 0 },
    }
}

fn learned(translation: &str) -> WordStatus {
    WordStatus::Learned { translation: translation.to_string(), stats: TypingStats { right: 0, wrong: 0 } }
}

fn strings(list: &[&str]) -> Vec<String> {
    list.iter().map(|x| x.to_string()).collect()
}

fn store() -> Words {
    Words::from_entries(vec![
        ("new".to_string(), vec![record("neu", 10, 0, 1)]),
        ("old".to_string(), vec![record("alt", 10, 1, 3), learned("uralt")]),
        ("late".to_string(), vec![record("spät", 1, 2, 0), record("verspätet", 4, 1, 0)]),
        ("wait".to_string(), vec![record("warten", 10, 1, 0)]),
        ("the".to_string(), vec![WordStatus::KnowPreviously]),
        ("both".to_string(), vec![record("beide", 0, 1, 0), record("alle beide", 11, 0, 0)]),
    ])
}

#[test]
fn due_words_are_those_with_a_due_record() {
    let words = store();
    let ladder = ladder();
    assert_eq!(words.get_words_to_learn_today(Day(12), &ladder), strings(&["both", "late", "new", "old", "wait"]));
    assert_eq!(words.get_words_to_learn_today(Day(11), &ladder), strings(&["both", "late", "new"]));
    assert_eq!(words.get_words_to_learn_today(Day(5), &ladder), strings(&["both"]));
    assert_eq!(words.get_words_to_learn_today(Day(0), &ladder), strings(&[]));
}

#[test]
fn queues_part_the_due_words_into_new_and_repeat() {
    let words = store();
    let ladder = ladder();
    assert_eq!(words.get_queue(Queue::New, Day(12), &ladder), strings(&["both", "new"]));
    assert_eq!(words.get_queue(Queue::Repeat, Day(12), &ladder), strings(&["late", "old", "wait"]));
    assert_eq!(words.get_queue(Queue::All, Day(12), &ladder), strings(&["both", "late", "new", "old", "wait"]));
    assert_eq!(words.get_queue(Queue::New, Day(10), &ladder), strings(&["new"]));
    assert_eq!(words.get_queue(Queue::Repeat, Day(10), &ladder), strings(&["both", "late"]));
}

#[test]
fn plan_sorts_translations_into_known_type_and_guess() {
    let words = store();
    let ladder = ladder();
    let plan = words.get_word_to_learn("old", Day(12), &ladder);
    assert_eq!(plan.known_words, strings(&["uralt"]));
    assert_eq!(plan.words_to_type, strings(&[]));
    assert_eq!(plan.words_to_guess, strings(&["alt"]));
    let plan = words.get_word_to_learn("old", Day(11), &ladder);
    assert_eq!(plan.known_words, strings(&["alt", "uralt"]));
    assert_eq!(plan.words_to_guess, strings(&[]));
    let plan = words.get_word_to_learn("both", Day(12), &ladder);
    assert_eq!(plan.known_words, strings(&[]));
    assert_eq!(plan.words_to_type, strings(&["alle beide"]));
    assert_eq!(plan.words_to_guess, strings(&["beide"]));
    let plan = words.get_word_to_learn("the", Day(12), &ladder);
    assert_eq!(plan.known_words, strings(&[]));
    assert_eq!(plan.words_to_type, strings(&[]));
    assert_eq!(plan.words_to_guess, strings(&[]));
}

#[test]
fn plan_for_a_word_that_is_not_held_is_empty() {
    let words = store();
    let plan = words.get_word_to_learn("gone", Day(12), &ladder());
    assert_eq!(plan.known_words, strings(&[]));
    assert_eq!(plan.words_to_type, strings(&[]));
    assert_eq!(plan.words_to_guess, strings(&[]));
}

#[test]
fn due_words_come_in_the_order_of_strings() {
    let ladder = vec![LearnType::show(0, 1), LearnType::guess(3, 1)];
    let mut words = Words::new();
    let mut day = DayStatistics::default();
    let info = WordsToAdd::ToLearn { learned: vec![], translations: strings(&["yablokoo"]) };
    words.add_word("apple".to_string(), info, Day(0), &mut day);
    assert_eq!(words.register_attempt("apple", "yablokoo", true, Day(0), &mut day, &ladder), Ok(()));
    assert_eq!(words.get_words_to_learn_today(Day(0), &ladder), strings(&["yablokoo"]));
    assert_eq!(words.get_words_to_learn_today(Day(2), &ladder), strings(&["yablokoo"]));
    assert_eq!(words.get_words_to_learn_today(Day(3), &ladder), strings(&["apple", "yablokoo"]));
    let info = WordsToAdd::ToLearn { learned: vec![], translations: strings(&["Zug"]) };
    words.add_word("train".to_string(), info, Day(3), &mut day);
    assert_eq!(words.get_words_to_learn_today(Day(3), &ladder), strings(&["Zug", "apple", "train", "yablokoo"]));
}

#[test]
fn plan_agrees_with_what_is_due() {
    let words = store();
    let ladder = ladder();
    for day in 0..30u64 {
        for pos in 0..words.len() {
            let word = words.word_at(pos);
            let plan = words.get_word_to_learn(word, Day(day), &ladder);
            let records = words.statuses(word).unwrap();
            let due: Vec<String> = records
                .iter()
                .filter(|r| r.can_learn_today(Day(day), &ladder))
                .map(|r| r.translation().unwrap().to_string())
                .collect();
            let mut asked = plan.words_to_type.clone();
            asked.extend(plan.words_to_guess.clone());
            asked.sort();
            let mut expected = due.clone();
            expected.sort();
            assert_eq!(asked, expected);
            assert!(plan.known_words.iter().all(|t| !due.contains(t)));
        }
    }
}

#[test]
fn overdue_days_is_the_greatest_excess_over_the_wait() {
    let words = store();
    let ladder = ladder();
    assert_eq!(words.overdue_days("new", Day(12), &ladder), Ok(2));
    assert_eq!(words.overdue_days("old", Day(12), &ladder), Ok(0));
    assert_eq!(words.overdue_days("old", Day(15), &ladder), Ok(3));
    assert_eq!(words.overdue_days("late", Day(12), &ladder), Ok(6));
    assert_eq!(words.overdue_days("late", Day(7), &ladder), Ok(1));
    assert_eq!(words.overdue_days("wait", Day(11), &ladder), Ok(0));
    assert_eq!(words.overdue_days("the", Day(12), &ladder), Ok(0));
    assert_eq!(words.overdue_days("gone", Day(12), &ladder), Err(Inconsistency::UnknownWord));
}

#[test]
fn remaining_attempts_is_the_greatest_number_still_asked_for() {
    let words = store();
    let ladder = ladder();
    assert_eq!(words.remaining_attempts("new", Day(12), &ladder), Ok(1));
    assert_eq!(words.remaining_attempts("old", Day(12), &ladder), Ok(2));
    assert_eq!(words.remaining_attempts("old", Day(11), &ladder), Ok(0));
    assert_eq!(words.remaining_attempts("late", Day(12), &ladder), Ok(5));
    assert_eq!(words.remaining_attempts("both", Day(12), &ladder), Ok(5));
    assert_eq!(words.remaining_attempts("both", Day(11), &ladder), Ok(5));
    assert_eq!(words.remaining_attempts("the", Day(12), &ladder), Ok(0));
    assert_eq!(words.remaining_attempts("gone", Day(12), &ladder), Err(Inconsistency::UnknownWord));
}

#[test]
fn ranking_puts_the_most_overdue_first_and_keeps_ties_in_order() {
    let words = store();
    let ladder = ladder();
    let due = words.get_words_to_learn_today(Day(12), &ladder);
    assert_eq!(words.rank_by_overdue(due, Day(12), &ladder), strings(&["both", "late", "new", "old", "wait"]));
    let queue = strings(&["wait", "gone", "old", "new"]);
    assert_eq!(words.rank_by_overdue(queue, Day(12), &ladder), strings(&["new", "wait", "gone", "old"]));
    assert_eq!(words.rank_by_overdue(vec![], Day(12), &ladder), strings(&[]));
}

#[test]
fn batch_pulls_linked_words_along() {
    let mut words = Words::new();
    let mut day = DayStatistics::default();
    let info = |list: &[&str]| WordsToAdd::ToLearn { learned: vec![], translations: strings(list) };
    words.add_word("a".to_string(), info(&["x", "c"]), Day(0), &mut day);
    words.add_word("b".to_string(), info(&["q"]), Day(0), &mut day);
    words.add_word("y".to_string(), info(&["z"]), Day(0), &mut day);
    let mut repeat = strings(&["a", "b", "c", "d"]);
    let mut new = strings(&["w", "x", "y", "z"]);
    let batch = words.build_batch(&mut repeat, &mut new, 1, 2);
    assert_eq!(batch, strings(&["a", "c", "x", "w", "y", "z"]));
    assert_eq!(repeat, strings(&["b", "d"]));
    assert_eq!(new, strings(&[]));
}

#[test]
fn batch_stops_when_a_queue_runs_out() {
    let words = Words::new();
    let mut repeat = strings(&["a", "b"]);
    let mut new = strings(&["x"]);
    let batch = words.build_batch(&mut repeat, &mut new, 5, 0);
    assert_eq!(batch, strings(&["a", "b"]));
    assert_eq!(repeat, strings(&[]));
    assert_eq!(new, strings(&["x"]));
    let batch = words.build_batch(&mut repeat, &mut new, 3, 3);
    assert_eq!(batch, strings(&["x"]));
    let batch = words.build_batch(&mut repeat, &mut new, 3, 3);
    assert_eq!(batch, strings(&[]));
}

#[test]
fn batch_of_nothing_takes_nothing() {
    let words = store();
    let mut repeat = strings(&["old", "late"]);
    let mut new = strings(&["new"]);
    let batch = words.build_batch(&mut repeat, &mut new, 0, 0);
    assert_eq!(batch, strings(&[]));
    assert_eq!(repeat, strings(&["old", "late"]));
    assert_eq!(new, strings(&["new"]));
}
