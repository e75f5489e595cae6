use learn_words::aggregate::word_type;
use learn_words::counts::{WordCounts, WordType};
use learn_words::day::Day;
use learn_words::journal::Statistics;
use learn_words::stats::{DayStatistics, TypingStats};
use learn_words::status::WordStatus;
use learn_words::words::Words;

fn record(translation: &str, level: u8, right: u64, wrong: u64) -> WordStatus {
    WordStatus::ToLearn {
        translation: translation.to_string(),
        last_learn: Day(0),
        current_level: level,
        current_count: 0,
        stats: TypingStats { right, wrong },
    }
}

fn learned(translation: &str, right: u64, wrong: u64) -> WordStatus {
    WordStatus::Learned { translation: translation.to_string(), stats: TypingStats { right, wrong } }
}

fn store() -> Words {
    Words::from_entries(vec![
        ("a".to_string(), vec![record("x", 0, 1, 2), learned("y", 10, 20), WordStatus::KnowPreviously]),
        ("b".to_string(), vec![]),
        ("c".to_string(), vec![WordStatus::TrashWord, record("z", 3, 4, 8), record("w", 0, 16, 32)]),
        ("d".to_string(), vec![WordStatus::TrashWord]),
    ])
}

#[test]
fn counts_start_empty_and_count_by_kind() {
    let mut counts = WordCounts::new();
    assert_eq!(counts.len(), 0);
    assert_eq!(counts.get(WordType::Known), 0);
    counts.increment(WordType::Learned);
    counts.increment(WordType::Level(2));
    counts.increment(WordType::Known);
    counts.increment(WordType::Level(2));
    counts.increment(WordType::Level(0));
    counts.increment(WordType::Trash);
    counts.increment(WordType::Level(2));
    assert_eq!(counts.len(), 5);
    assert_eq!(counts.entry_at(0), (WordType::Known, 1));
    assert_eq!(counts.entry_at(1), (WordType::Trash, 1));
    assert_eq!(counts.entry_at(2), (WordType::Level(0), 1));
    assert_eq!(counts.entry_at(3), (WordType::Level(2), 3));
    assert_eq!(counts.entry_at(4), (WordType::Learned, 1));
    assert_eq!(counts.get(WordType::Level(2)), 3);
    assert_eq!(counts.get(WordType::Level(1)), 0);
    let copy = counts.clone();
    assert_eq!(copy.len(), 5);
    assert_eq!(copy.get(WordType::Level(2)), 3);
}

#[test]
fn kinds_are_ranked_known_trash_levels_learned() {
    assert_eq!(WordType::Known.rank_number(), 0);
    assert_eq!(WordType::Trash.rank_number(), 1);
    assert_eq!(WordType::Level(0).rank_number(), 2);
    assert_eq!(WordType::Level(255).rank_number(), 257);
    assert_eq!(WordType::Learned.rank_number(), 258);
    assert!(WordType::Known < WordType::Trash);
    assert!(WordType::Trash < WordType::Level(0));
    assert!(WordType::Level(7) < WordType::Level(8));
    assert!(WordType::Level(255) < WordType::Learned);
}

#[test]
fn record_kind_follows_its_state_and_level() {
    assert_eq!(word_type(&WordStatus::KnowPreviously), WordType::Known);
    assert_eq!(word_type(&WordStatus::TrashWord), WordType::Trash);
    assert_eq!(word_type(&record("x", 4, 0, 0)), WordType::Level(4));
    assert_eq!(word_type(&learned("x", 0, 0)), WordType::Learned);
}

#[test]
fn word_statistics_count_every_record_once() {
    let words = store();
    assert!(words.statistics_fit());
    let counts = words.calculate_word_statistics();
    assert_eq!(counts.get(WordType::Known), 1);
    assert_eq!(counts.get(WordType::Trash), 2);
    assert_eq!(counts.get(WordType::Level(0)), 2);
    assert_eq!(counts.get(WordType::Level(3)), 1);
    assert_eq!(counts.get(WordType::Level(1)), 0);
    assert_eq!(counts.get(WordType::Learned), 1);
    assert_eq!(counts.len(), 5);
    assert_eq!(Words::new().calculate_word_statistics().len(), 0);
}

#[test]
fn attempt_statistics_sum_the_records_being_learned_only() {
    let words = store();
    assert_eq!(words.calculate_attempts_statistics(), TypingStats { right: 21, wrong: 42 });
    assert_eq!(Words::new().calculate_attempts_statistics(), TypingStats { right: 0, wrong: 0 });
}

#[test]
fn totals_that_overflow_are_detected() {
    let words = Words::from_entries(vec![
        ("a".to_string(), vec![record("x", 0, u64::MAX, 0)]),
        ("b".to_string(), vec![record("y", 0, 1, 0)]),
    ]);
    assert!(!words.statistics_fit());
    let words = Words::from_entries(vec![
        ("a".to_string(), vec![record("x", 0, u64::MAX - 1, u64::MAX)]),
        ("b".to_string(), vec![record("y", 0, 1, 0), learned("z", u64::MAX, u64::MAX)]),
    ]);
    assert!(words.statistics_fit());
    assert_eq!(words.calculate_attempts_statistics(), TypingStats { right: u64::MAX, wrong: u64::MAX });
}

#[test]
fn typing_stats_count_attempts() {
    let mut stats = TypingStats::default();
    assert_eq!(stats, TypingStats { right: 0, wrong: 0 });
    stats.register(true);
    stats.register(false);
    stats.register(false);
    assert_eq!(stats, TypingStats { right: 1, wrong: 2 });
    assert!(stats.can_count(true));
    let full = TypingStats { right: u64::MAX, wrong: 3 };
    assert!(!full.can_count(true));
    assert!(full.can_count(false));
}

#[test]
fn day_statistics_start_at_zero() {
    let day = DayStatistics::default();
    assert_eq!(day.attempts, TypingStats { right: 0, wrong: 0 });
    assert_eq!(day.new_unknown_words_count, 0);
    assert_eq!(day.word_count_by_level.len(), 0);
}

#[test]
fn statistics_keep_each_day_apart() {
    let mut stats = Statistics::new();
    assert!(stats.day(Day(3)).is_none());
    assert_eq!(stats.days(), vec![]);
    let mut third = DayStatistics::default();
    third.attempts = TypingStats { right: 4, wrong: 1 };
    third.new_unknown_words_count = 7;
    stats.set_day(Day(3), third);
    stats.set_day(Day(1), DayStatistics::default());
    assert_eq!(stats.days(), vec![Day(1), Day(3)]);
    assert_eq!(stats.day(Day(3)).unwrap().attempts, TypingStats { right: 4, wrong: 1 });
    assert_eq!(stats.day(Day(1)).unwrap().new_unknown_words_count, 0);
    let taken = stats.take_day(Day(3));
    assert_eq!(taken.new_unknown_words_count, 7);
    assert_eq!(stats.days(), vec![Day(1)]);
    let empty = stats.take_day(Day(9));
    assert_eq!(empty.attempts, TypingStats { right: 0, wrong: 0 });
    assert_eq!(empty.new_unknown_words_count, 0);
    assert_eq!(stats.days(), vec![Day(1)]);
}

#[test]
fn update_of_a_day_files_the_counts_and_keeps_the_rest() {
    let words = store();
    let mut stats = Statistics::new();
    let mut today = DayStatistics::default();
    today.attempts = TypingStats { right: 4, wrong: 1 };
    today.new_unknown_words_count = 7;
    stats.set_day(Day(5), today);
    stats.update_day_statistics(Day(5), &words);
    stats.update_day_statistics(Day(6), &words);
    let fifth = stats.day(Day(5)).unwrap();
    assert_eq!(fifth.attempts, TypingStats { right: 4, wrong: 1 });
    assert_eq!(fifth.new_unknown_words_count, 7);
    assert_eq!(fifth.word_count_by_level.get(WordType::Trash), 2);
    assert_eq!(fifth.word_count_by_level.get(WordType::Level(0)), 2);
    let sixth = stats.day(Day(6)).unwrap();
    assert_eq!(sixth.attempts, TypingStats { right: 0, wrong: 0 });
    assert_eq!(sixth.word_count_by_level.get(WordType::Learned), 1);
    assert_eq!(stats.days(), vec![Day(5), Day(6)]);
}
