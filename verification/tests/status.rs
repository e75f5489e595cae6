use learn_words::day::Day;
use learn_words::ladder::{is_valid_ladder, LearnType};
use learn_words::stats::{DayStatistics, TypingStats};
use learn_words::status::WordStatus;

fn two_rungs() -> Vec<LearnType> {
    vec![LearnType::show(0, 2), LearnType::guess(0, 3)]
}

fn to_learn(translation: &str, last: u64, level: u8, count: u8, right: u64, wrong: u64) -> WordStatus {
    WordStatus::ToLearn {
        translation: translation.to_string(),
        last_learn: Day(last),
        current_level: level,
        current_count: count,
        stats: TypingStats { right, wrong },
    }
}

#[test]
fn fresh_record_is_learned_after_exactly_five_correct_attempts() {
    let ladder = two_rungs();
    let mut day = DayStatistics::default();
    let mut record = to_learn("кот", 0, 0, 0, 0, 0);
    record.register_attempt(true, Day(0), &mut day, &ladder);
    assert_eq!(record, to_learn("кот", 0, 0, 1, 1, 0));
    record.register_attempt(true, Day(0), &mut day, &ladder);
    assert_eq!(record, to_learn("кот", 0, 1, 0, 2, 0));
    record.register_attempt(true, Day(0), &mut day, &ladder);
    assert_eq!(record, to_learn("кот", 0, 1, 1, 3, 0));
    record.register_attempt(true, Day(0), &mut day, &ladder);
    assert_eq!(record, to_learn("кот", 0, 1, 2, 4, 0));
    record.register_attempt(true, Day(0), &mut day, &ladder);
    assert_eq!(
        record,
        WordStatus::Learned { translation: "кот".to_string(), stats: TypingStats { right: 5, wrong: 0 } }
    );
    assert_eq!(day.attempts, TypingStats { right: 5, wrong: 0 });
}

#[test]
fn wrong_attempts_only_raise_the_wrong_counter() {
    let ladder = two_rungs();
    let mut day = DayStatistics::default();
    let mut record = to_learn("dog", 3, 1, 2, 7, 1);
    record.register_attempt(false, Day(9), &mut day, &ladder);
    assert_eq!(record, to_learn("dog", 3, 1, 2, 7, 2));
    record.register_attempt(false, Day(9), &mut day, &ladder);
    record.register_attempt(false, Day(9), &mut day, &ladder);
    assert_eq!(record, to_learn("dog", 3, 1, 2, 7, 4));
    assert_eq!(day.attempts, TypingStats { right: 0, wrong: 3 });
}

#[test]
fn correct_attempt_on_a_rung_that_is_not_due_is_only_counted() {
    let ladder = vec![LearnType::show(0, 1), LearnType::guess(2, 2)];
    let mut day = DayStatistics::default();
    let mut record = to_learn("dog", 10, 1, 0, 1, 0);
    record.register_attempt(true, Day(11), &mut day, &ladder);
    assert_eq!(record, to_learn("dog", 10, 1, 0, 2, 0));
}

#[test]
fn record_is_due_again_only_after_the_wait_of_the_new_rung() {
    let ladder = vec![LearnType::show(0, 1), LearnType::guess(2, 2)];
    let mut day = DayStatistics::default();
    let mut record = to_learn("dog", 4, 0, 0, 0, 0);
    assert!(record.can_learn_today(Day(10), &ladder));
    record.register_attempt(true, Day(10), &mut day, &ladder);
    assert_eq!(record, to_learn("dog", 10, 1, 0, 1, 0));
    assert!(!record.can_learn_today(Day(10), &ladder));
    assert!(!record.can_learn_today(Day(11), &ladder));
    assert!(record.can_learn_today(Day(12), &ladder));
    assert!(record.can_learn_today(Day(40), &ladder));
}

#[test]
fn record_is_due_at_once_when_the_new_rung_asks_for_no_wait() {
    let ladder = two_rungs();
    let mut day = DayStatistics::default();
    let mut record = to_learn("dog", 0, 0, 1, 1, 0);
    record.register_attempt(true, Day(5), &mut day, &ladder);
    assert_eq!(record, to_learn("dog", 5, 1, 0, 2, 0));
    assert!(record.can_learn_today(Day(5), &ladder));
}

#[test]
fn day_before_the_last_practice_is_never_due() {
    let ladder = two_rungs();
    let record = to_learn("dog", 10, 0, 0, 0, 0);
    assert!(!record.can_learn_today(Day(9), &ladder));
    assert!(record.can_learn_today(Day(10), &ladder));
    assert!(!LearnType::show(0, 1).can_learn_today(Day(10), Day(9)));
    assert!(LearnType::guess(3, 1).can_learn_today(Day(10), Day(13)));
    assert!(!LearnType::guess(3, 1).can_learn_today(Day(10), Day(12)));
}

#[test]
fn only_records_being_learned_are_ever_due() {
    let ladder = two_rungs();
    assert!(!WordStatus::KnowPreviously.can_learn_today(Day(5), &ladder));
    assert!(!WordStatus::TrashWord.can_learn_today(Day(5), &ladder));
    let learned = WordStatus::Learned { translation: "a".to_string(), stats: TypingStats { right: 1, wrong: 0 } };
    assert!(!learned.can_learn_today(Day(5), &ladder));
    let past_the_end = to_learn("a", 0, 2, 0, 0, 0);
    assert!(!past_the_end.can_learn_today(Day(5), &ladder));
}

#[test]
fn can_register_tells_which_records_take_attempts() {
    let ladder = two_rungs();
    assert!(to_learn("a", 0, 0, 1, 0, 0).can_register(true, &ladder));
    assert!(to_learn("a", 0, 2, 0, 0, 0).can_register(true, &ladder));
    assert!(!to_learn("a", 0, 0, 2, 0, 0).can_register(true, &ladder));
    assert!(!to_learn("a", 0, 3, 0, 0, 0).can_register(true, &ladder));
    assert!(!to_learn("a", 0, 0, 0, u64::MAX, 0).can_register(true, &ladder));
    assert!(to_learn("a", 0, 0, 0, u64::MAX, 0).can_register(false, &ladder));
    assert!(!WordStatus::TrashWord.can_register(true, &ladder));
    let learned = WordStatus::Learned { translation: "a".to_string(), stats: TypingStats { right: 1, wrong: 0 } };
    assert!(!learned.can_register(false, &ladder));
}

#[test]
fn translation_is_read_compared_and_retargeted() {
    let mut record = to_learn("apple", 0, 0, 0, 0, 0);
    assert_eq!(record.translation(), Some("apple"));
    assert!(record.has_translation("apple"));
    assert!(!record.has_translation("appl"));
    assert!(!record.has_translation("apples"));
    record.retarget("pear", "plum");
    assert_eq!(record.translation(), Some("apple"));
    record.retarget("apple", "plum");
    assert_eq!(record, to_learn("plum", 0, 0, 0, 0, 0));
    assert_eq!(WordStatus::KnowPreviously.translation(), None);
    assert!(!WordStatus::TrashWord.has_translation(""));
    let mut known = WordStatus::KnowPreviously;
    assert!(known.translation_mut().is_none());
    if let Some(text) = record.translation_mut() {
        text.push('s');
    }
    assert_eq!(record.translation(), Some("plums"));
}

#[test]
fn clone_gives_an_equal_record() {
    let record = to_learn("apple", 4, 1, 2, 3, 4);
    assert_eq!(record.clone(), record);
    assert_ne!(record, to_learn("apple", 4, 1, 2, 3, 5));
    assert_ne!(record, WordStatus::TrashWord);
    assert_eq!(WordStatus::KnowPreviously.clone(), WordStatus::KnowPreviously);
}

#[test]
fn ladder_validity_is_decided() {
    assert!(is_valid_ladder(&two_rungs()));
    assert!(is_valid_ladder(&[]));
    assert!(!is_valid_ladder(&[LearnType::show(0, 1), LearnType::guess(0, 0)]));
    let long: Vec<LearnType> = (0..256).map(|_| LearnType::guess(1, 1)).collect();
    assert!(!is_valid_ladder(&long));
    assert!(is_valid_ladder(&long[..255]));
}

#[test]
fn rung_constructors_set_the_reveal_mode() {
    assert_eq!(LearnType::show(1, 2), LearnType { wait_days: 1, count: 2, show_word: true });
    assert_eq!(LearnType::guess(7, 5), LearnType { wait_days: 7, count: 5, show_word: false });
    assert_eq!(Day::new(7).number(), 7);
    assert!(Day(3) < Day(4));
}

#[test]
fn invariant_of_a_record_holds_after_every_attempt() {
    let ladder = vec![LearnType::show(0, 2), LearnType::guess(0, 3), LearnType::guess(1, 1)];
    let mut day = DayStatistics::default();
    let mut record = to_learn("dog", 0, 0, 0, 0, 0);
    let answers = [true, false, true, true, false, true, true, true, true];
    for (step, correct) in answers.iter().enumerate() {
        if let WordStatus::ToLearn { .. } = record {
            record.register_attempt(*correct, Day(step as u64), &mut day, &ladder);
        }
        if let WordStatus::ToLearn { current_level, current_count, .. } = &record {
            assert!((*current_level as usize) <= ladder.len());
            if (*current_level as usize) < ladder.len() {
                assert!(*current_count < ladder[*current_level as usize].count);
            }
        }
    }
    assert_eq!(
        record,
        WordStatus::Learned { translation: "dog".to_string(), stats: TypingStats { right: 6, wrong: 2 } }
    );
}
