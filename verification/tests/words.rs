use learn_words::day::Day;
use learn_words::ladder::LearnType;
use learn_words::stats::{DayStatistics, TypingStats};
use learn_words::status::WordStatus;
use learn_words::words::{Inconsistency, Words, WordsToAdd};

fn ladder() -> Vec<LearnType> {
    vec![LearnType::show(0, 2), LearnType::guess(0, 3)]
}

fn fresh(translation: &str, day: u64) -> WordStatus {
    WordStatus::ToLearn {
        translation: translation.to_string(),
        last_learn: Day(day),
        current_level: 0,
        current_count: 0,
        stats: TypingStats { right: 0, wrong: 0 },
    }
}

fn learned(translation: &str) -> WordStatus {
    WordStatus::Learned { translation: translation.to_string(), stats: TypingStats { right: 0, wrong: 0 } }
}

fn to_learn(list: &[&str]) -> WordsToAdd {
    WordsToAdd::ToLearn { learned: vec![], translations: list.iter().map(|x| x.to_string()).collect() }
}

fn mirrored(words: &Words) -> bool {
    let entries = words.entries();
    entries.iter().all(|(word, records)| {
        records.iter().all(|record| match record.translation() {
            Some(target) => entries
                .iter()
                .any(|(other, back)| other == target && back.iter().any(|r| r.has_translation(word))),
            None => true,
        })
    })
}

#[test]
fn add_creates_the_pair_and_its_mirror() {
    let mut words = Words::new();
    let mut day = DayStatistics::default();
    words.add_word("apple".to_string(), to_learn(&["yabloko", "yablochko"]), Day(3), &mut day);
    assert_eq!(words.len(), 3);
    assert_eq!(words.statuses("apple"), Some(vec![fresh("yabloko", 3), fresh("yablochko", 3)]));
    assert_eq!(words.statuses("yabloko"), Some(vec![fresh("apple", 3)]));
    assert_eq!(words.statuses("yablochko"), Some(vec![fresh("apple", 3)]));
    assert_eq!(words.statuses("pear"), None);
    assert_eq!(day.new_unknown_words_count, 2);
    assert!(mirrored(&words));
}

#[test]
fn add_files_learned_translations_as_learned_on_both_sides() {
    let mut words = Words::new();
    let mut day = DayStatistics::default();
    let info = WordsToAdd::ToLearn { learned: vec!["haus".to_string()], translations: vec!["heim".to_string()] };
    words.add_word("home".to_string(), info, Day(1), &mut day);
    assert_eq!(words.statuses("home"), Some(vec![fresh("heim", 1), learned("haus")]));
    assert_eq!(words.statuses("heim"), Some(vec![fresh("home", 1)]));
    assert_eq!(words.statuses("haus"), Some(vec![learned("home")]));
    assert_eq!(day.new_unknown_words_count, 2);
    assert!(mirrored(&words));
}

#[test]
fn add_appends_to_words_that_exist() {
    let mut words = Words::new();
    let mut day = DayStatistics::default();
    words.add_word("a".to_string(), to_learn(&["x"]), Day(0), &mut day);
    words.add_word("b".to_string(), to_learn(&["x", "a"]), Day(1), &mut day);
    assert_eq!(words.statuses("a"), Some(vec![fresh("x", 0), fresh("b", 1)]));
    assert_eq!(words.statuses("x"), Some(vec![fresh("a", 0), fresh("b", 1)]));
    assert_eq!(words.statuses("b"), Some(vec![fresh("x", 1), fresh("a", 1)]));
    assert_eq!(day.new_unknown_words_count, 3);
    assert!(mirrored(&words));
}

#[test]
fn add_of_inert_words_leaves_a_marker() {
    let mut words = Words::new();
    let mut day = DayStatistics::default();
    words.add_word("the".to_string(), WordsToAdd::KnowPreviously, Day(0), &mut day);
    words.add_word("zzz".to_string(), WordsToAdd::TrashWord, Day(0), &mut day);
    words.add_word("the".to_string(), WordsToAdd::TrashWord, Day(0), &mut day);
    assert_eq!(words.statuses("the"), Some(vec![WordStatus::KnowPreviously, WordStatus::TrashWord]));
    assert_eq!(words.statuses("zzz"), Some(vec![WordStatus::TrashWord]));
    assert_eq!(day.new_unknown_words_count, 0);
    assert_eq!(words.is_learned("the"), Ok(true));
}

#[test]
fn add_without_translations_makes_a_word_without_records() {
    let mut words = Words::new();
    let mut day = DayStatistics::default();
    words.add_word("lone".to_string(), to_learn(&[]), Day(0), &mut day);
    assert!(words.contains_word("lone"));
    assert_eq!(words.statuses("lone"), Some(vec![]));
    assert_eq!(words.is_learned("lone"), Ok(true));
}

#[test]
fn word_that_translates_itself_gets_both_records() {
    let mut words = Words::new();
    let mut day = DayStatistics::default();
    words.add_word("radar".to_string(), to_learn(&["radar"]), Day(0), &mut day);
    assert_eq!(words.statuses("radar"), Some(vec![fresh("radar", 0), fresh("radar", 0)]));
    assert!(mirrored(&words));
}

#[test]
fn is_learned_reports_an_unknown_word() {
    let mut words = Words::new();
    let mut day = DayStatistics::default();
    assert_eq!(words.is_learned("apple"), Err(Inconsistency::UnknownWord));
    words.add_word("apple".to_string(), to_learn(&["yabloko"]), Day(0), &mut day);
    assert_eq!(words.is_learned("apple"), Ok(false));
    words.change_record("apple", 0, learned("yabloko"));
    words.put_record("apple", 1, WordStatus::KnowPreviously);
    assert_eq!(words.statuses("apple"), Some(vec![learned("yabloko"), WordStatus::KnowPreviously]));
    assert_eq!(words.is_learned("apple"), Ok(true));
}

#[test]
fn removing_apple_removes_the_mirror_and_the_emptied_translation() {
    let mut words = Words::new();
    let mut day = DayStatistics::default();
    words.add_word("apple".to_string(), to_learn(&["yablokoo"]), Day(0), &mut day);
    assert!(words.contains_word("yablokoo"));
    words.remove_word("apple");
    assert!(!words.contains_word("apple"));
    assert!(!words.contains_word("yablokoo"));
    assert_eq!(words.len(), 0);
}

#[test]
fn removing_a_word_keeps_translations_that_have_other_records() {
    let mut words = Words::new();
    let mut day = DayStatistics::default();
    words.add_word("apple".to_string(), to_learn(&["yabloko"]), Day(0), &mut day);
    words.add_word("paradise apple".to_string(), to_learn(&["yabloko"]), Day(0), &mut day);
    words.remove_word("apple");
    assert!(!words.contains_word("apple"));
    assert_eq!(words.statuses("yabloko"), Some(vec![fresh("paradise apple", 0)]));
    assert_eq!(words.statuses("paradise apple"), Some(vec![fresh("yabloko", 0)]));
    assert!(mirrored(&words));
}

#[test]
fn removing_a_learned_pair_removes_its_mirror_too() {
    let mut words = Words::new();
    let mut day = DayStatistics::default();
    let info = WordsToAdd::ToLearn { learned: vec!["haus".to_string()], translations: vec![] };
    words.add_word("home".to_string(), info, Day(1), &mut day);
    words.remove_word("home");
    assert_eq!(words.len(), 0);
}

#[test]
fn removing_a_word_that_translates_itself_works() {
    let mut words = Words::new();
    let mut day = DayStatistics::default();
    words.add_word("radar".to_string(), to_learn(&["radar", "locator"]), Day(0), &mut day);
    words.remove_word("radar");
    assert_eq!(words.len(), 0);
}

#[test]
fn rename_moves_the_records_and_retargets_the_mirrors() {
    let mut words = Words::new();
    let mut day = DayStatistics::default();
    words.add_word("apple".to_string(), to_learn(&["yabloko"]), Day(0), &mut day);
    words.add_word("pear".to_string(), to_learn(&["grusha", "yabloko"]), Day(0), &mut day);
    words.rename_word("apple", "appel");
    assert!(!words.contains_word("apple"));
    assert_eq!(words.statuses("appel"), Some(vec![fresh("yabloko", 0)]));
    assert_eq!(words.statuses("yabloko"), Some(vec![fresh("appel", 0), fresh("pear", 0)]));
    assert_eq!(words.statuses("pear"), Some(vec![fresh("grusha", 0), fresh("yabloko", 0)]));
    assert!(mirrored(&words));
}

#[test]
fn rename_to_the_same_name_changes_nothing() {
    let mut words = Words::new();
    let mut day = DayStatistics::default();
    words.add_word("apple".to_string(), to_learn(&["yabloko"]), Day(0), &mut day);
    words.rename_word("apple", "apple");
    assert_eq!(words.statuses("apple"), Some(vec![fresh("yabloko", 0)]));
    assert_eq!(words.statuses("yabloko"), Some(vec![fresh("apple", 0)]));
    assert_eq!(words.len(), 2);
}

#[test]
fn rename_onto_a_word_that_exists_joins_the_records() {
    let mut words = Words::new();
    let mut day = DayStatistics::default();
    words.add_word("a".to_string(), to_learn(&["x"]), Day(0), &mut day);
    words.add_word("b".to_string(), to_learn(&["y"]), Day(0), &mut day);
    words.rename_word("a", "b");
    assert!(!words.contains_word("a"));
    assert_eq!(words.statuses("b"), Some(vec![fresh("y", 0), fresh("x", 0)]));
    assert_eq!(words.statuses("x"), Some(vec![fresh("b", 0)]));
    assert_eq!(words.statuses("y"), Some(vec![fresh("b", 0)]));
    assert_eq!(words.len(), 3);
    assert!(mirrored(&words));
}

#[test]
fn rename_onto_its_own_translation_keeps_the_mirrors() {
    let mut words = Words::new();
    let mut day = DayStatistics::default();
    words.add_word("a".to_string(), to_learn(&["b", "c"]), Day(0), &mut day);
    words.rename_word("a", "b");
    assert_eq!(words.statuses("b"), Some(vec![fresh("b", 0), fresh("b", 0), fresh("c", 0)]));
    assert_eq!(words.statuses("c"), Some(vec![fresh("b", 0)]));
    assert_eq!(words.len(), 2);
    assert!(mirrored(&words));
}

#[test]
fn words_are_held_in_the_order_of_strings() {
    let mut words = Words::new();
    let mut day = DayStatistics::default();
    words.add_word("pear".to_string(), to_learn(&["grusha", "Birne"]), Day(0), &mut day);
    words.add_word("apple".to_string(), to_learn(&["yabloko"]), Day(0), &mut day);
    words.add_word("apples".to_string(), WordsToAdd::TrashWord, Day(0), &mut day);
    let expected = vec!["Birne", "apple", "apples", "grusha", "pear", "yabloko"];
    assert_eq!(words.calculate_known_words(), expected);
    let listed: Vec<String> = words.entries().into_iter().map(|entry| entry.0).collect();
    assert_eq!(listed, expected);
    assert_eq!(words.position("apples"), Some(2));
    assert_eq!(words.word_at(0), "Birne");
    words.rename_word("apple", "zebra");
    assert_eq!(words.calculate_known_words(), vec!["Birne", "apples", "grusha", "pear", "yabloko", "zebra"]);
    words.remove_word("pear");
    assert_eq!(words.calculate_known_words(), vec!["apples", "yabloko", "zebra"]);
    words.add_word("b".to_string(), to_learn(&[]), Day(0), &mut day);
    words.add_word("a".to_string(), to_learn(&[]), Day(0), &mut day);
    assert_eq!(words.calculate_known_words(), vec!["a", "apples", "b", "yabloko", "zebra"]);
}

#[test]
fn attempt_goes_to_the_first_record_of_the_translation() {
    let mut words = Words::new();
    let mut day = DayStatistics::default();
    let ladder = ladder();
    words.add_word("apple".to_string(), to_learn(&["yabloko", "yablochko"]), Day(0), &mut day);
    let outcome = words.register_attempt("apple", "yablochko", true, Day(0), &mut day, &ladder);
    assert_eq!(outcome, Ok(()));
    let records = words.statuses("apple").unwrap();
    assert_eq!(records[0], fresh("yabloko", 0));
    assert_eq!(
        records[1],
        WordStatus::ToLearn {
            translation: "yablochko".to_string(),
            last_learn: Day(0),
            current_level: 0,
            current_count: 1,
            stats: TypingStats { right: 1, wrong: 0 },
        }
    );
    assert_eq!(words.statuses("yablochko"), Some(vec![fresh("apple", 0)]));
    assert_eq!(day.attempts, TypingStats { right: 1, wrong: 0 });
    assert!(mirrored(&words));
}

#[test]
fn attempt_on_a_missing_word_or_translation_is_reported() {
    let mut words = Words::new();
    let mut day = DayStatistics::default();
    let ladder = ladder();
    words.add_word("apple".to_string(), to_learn(&["yabloko"]), Day(0), &mut day);
    assert!(words.attempt_allowed("pear", "grusha", true, &day, &ladder));
    assert_eq!(
        words.register_attempt("pear", "grusha", true, Day(0), &mut day, &ladder),
        Err(Inconsistency::UnknownWord)
    );
    assert_eq!(
        words.register_attempt("apple", "grusha", true, Day(0), &mut day, &ladder),
        Err(Inconsistency::UnknownTranslation)
    );
    assert_eq!(words.statuses("apple"), Some(vec![fresh("yabloko", 0)]));
    assert_eq!(day.attempts, TypingStats { right: 0, wrong: 0 });
}

#[test]
fn attempt_on_a_learned_record_is_refused() {
    let mut words = Words::new();
    let mut day = DayStatistics::default();
    let ladder = ladder();
    let info = WordsToAdd::ToLearn { learned: vec!["haus".to_string()], translations: vec![] };
    words.add_word("home".to_string(), info, Day(1), &mut day);
    assert!(!words.attempt_allowed("home", "haus", true, &day, &ladder));
    assert_eq!(
        words.try_register_attempt("home", "haus", true, Day(1), &mut day, &ladder),
        Err(Inconsistency::AttemptRefused)
    );
    assert_eq!(
        words.try_register_attempt("away", "haus", true, Day(1), &mut day, &ladder),
        Err(Inconsistency::UnknownWord)
    );
    assert_eq!(
        words.try_register_attempt("home", "heim", true, Day(1), &mut day, &ladder),
        Err(Inconsistency::UnknownTranslation)
    );
    assert_eq!(words.statuses("home"), Some(vec![learned("haus")]));
    assert_eq!(day.attempts, TypingStats { right: 0, wrong: 0 });
}

#[test]
fn attempts_through_the_store_reach_learned_after_five() {
    let mut words = Words::new();
    let mut day = DayStatistics::default();
    let ladder = ladder();
    words.add_word("cat".to_string(), to_learn(&["kot"]), Day(0), &mut day);
    for _ in 0..5 {
        assert_eq!(words.try_register_attempt("cat", "kot", true, Day(0), &mut day, &ladder), Ok(()));
    }
    assert_eq!(
        words.statuses("cat"),
        Some(vec![WordStatus::Learned { translation: "kot".to_string(), stats: TypingStats { right: 5, wrong: 0 } }])
    );
    assert_eq!(words.statuses("kot"), Some(vec![fresh("cat", 0)]));
    assert_eq!(words.is_learned("cat"), Ok(true));
    assert_eq!(words.is_learned("kot"), Ok(false));
    assert!(mirrored(&words));
}

#[test]
fn export_and_import_give_the_same_store() {
    let mut words = Words::new();
    let mut day = DayStatistics::default();
    let ladder = ladder();
    words.add_word("the".to_string(), WordsToAdd::KnowPreviously, Day(0), &mut day);
    words.add_word("zzz".to_string(), WordsToAdd::TrashWord, Day(0), &mut day);
    let info = WordsToAdd::ToLearn { learned: vec!["haus".to_string()], translations: vec!["heim".to_string()] };
    words.add_word("home".to_string(), info, Day(1), &mut day);
    assert_eq!(words.register_attempt("home", "heim", true, Day(2), &mut day, &ladder), Ok(()));
    let exported = words.entries();
    assert_eq!(exported.len(), 5);
    let back = Words::from_entries(words.entries());
    assert_eq!(back.entries(), exported);
    assert_eq!(back.len(), words.len());
    for pos in 0..words.len() {
        assert_eq!(back.word_at(pos), words.word_at(pos));
        assert_eq!(back.statuses(words.word_at(pos)), words.statuses(words.word_at(pos)));
    }
    assert!(mirrored(&back));
}

#[test]
fn import_lets_a_later_entry_replace_an_earlier_one() {
    let list = vec![
        ("a".to_string(), vec![WordStatus::TrashWord]),
        ("b".to_string(), vec![WordStatus::KnowPreviously]),
        ("a".to_string(), vec![WordStatus::KnowPreviously, WordStatus::TrashWord]),
    ];
    let words = Words::from_entries(list);
    assert_eq!(words.len(), 2);
    assert_eq!(words.statuses("a"), Some(vec![WordStatus::KnowPreviously, WordStatus::TrashWord]));
    assert_eq!(words.position("b"), Some(1));
    assert_eq!(words.position("c"), None);
    assert_eq!(words.statuses_at(1), &vec![WordStatus::KnowPreviously]);
}

#[test]
fn rename_onto_a_word_without_records_keeps_the_mirrors() {
    let mut words = Words::new();
    let mut day = DayStatistics::default();
    words.add_word("a".to_string(), to_learn(&["x"]), Day(0), &mut day);
    words.add_word("b".to_string(), to_learn(&[]), Day(0), &mut day);
    words.rename_word("a", "b");
    assert_eq!(words.statuses("b"), Some(vec![fresh("x", 0)]));
    assert_eq!(words.statuses("x"), Some(vec![fresh("b", 0)]));
    assert_eq!(words.len(), 2);
    assert!(mirrored(&words));
}

#[test]
fn rename_of_a_word_that_translates_itself_moves_both_ends() {
    let mut words = Words::new();
    let mut day = DayStatistics::default();
    words.add_word("a".to_string(), to_learn(&["a"]), Day(0), &mut day);
    words.rename_word("a", "b");
    assert_eq!(words.statuses("b"), Some(vec![fresh("b", 0), fresh("b", 0)]));
    assert!(!words.contains_word("a"));
    assert_eq!(words.len(), 1);
    assert!(mirrored(&words));
}

#[test]
fn deleting_a_record_prunes_its_mirror() {
    let mut words = Words::new();
    let mut day = DayStatistics::default();
    words.add_word("apple".to_string(), to_learn(&["yabloko", "yablochko"]), Day(0), &mut day);
    words.add_word("pear".to_string(), to_learn(&["yabloko"]), Day(0), &mut day);
    let gone = words.remove_record("apple", 0);
    assert_eq!(gone, fresh("yabloko", 0));
    assert_eq!(words.statuses("apple"), Some(vec![fresh("yablochko", 0)]));
    assert_eq!(words.statuses("yabloko"), Some(vec![fresh("pear", 0)]));
    assert!(mirrored(&words));
    words.remove_record("apple", 0);
    assert_eq!(words.statuses("apple"), Some(vec![]));
    assert!(!words.contains_word("yablochko"));
    assert!(mirrored(&words));
}

#[test]
fn deleting_one_of_two_records_of_a_pair_keeps_the_mirror() {
    let mut words = Words::new();
    let mut day = DayStatistics::default();
    words.add_word("a".to_string(), to_learn(&["x", "x"]), Day(0), &mut day);
    words.remove_record("a", 1);
    assert_eq!(words.statuses("a"), Some(vec![fresh("x", 0)]));
    assert_eq!(words.statuses("x"), Some(vec![fresh("a", 0), fresh("a", 0)]));
    assert!(mirrored(&words));
    words.remove_record("a", 0);
    assert!(!words.contains_word("x"));
    assert!(mirrored(&words));
}

#[test]
fn putting_a_record_adds_the_mirror_that_is_missing() {
    let mut words = Words::new();
    let mut day = DayStatistics::default();
    words.add_word("a".to_string(), to_learn(&["x"]), Day(0), &mut day);
    let record = WordStatus::ToLearn {
        translation: "y".to_string(),
        last_learn: Day(7),
        current_level: 1,
        current_count: 2,
        stats: TypingStats { right: 4, wrong: 1 },
    };
    words.put_record("a", 0, record.clone());
    assert_eq!(words.statuses("a"), Some(vec![record.clone(), fresh("x", 0)]));
    assert_eq!(words.statuses("y"), Some(vec![fresh("a", 7)]));
    words.put_record("a", 2, learned("x"));
    assert_eq!(words.statuses("x"), Some(vec![fresh("a", 0)]));
    words.put_record("new", 0, learned("z"));
    assert_eq!(words.statuses("new"), Some(vec![learned("z")]));
    assert_eq!(words.statuses("z"), Some(vec![learned("new")]));
    words.put_record("new", 1, WordStatus::TrashWord);
    assert_eq!(words.statuses("new"), Some(vec![learned("z"), WordStatus::TrashWord]));
    assert!(mirrored(&words));
}

#[test]
fn changing_a_record_moves_its_mirror() {
    let mut words = Words::new();
    let mut day = DayStatistics::default();
    words.add_word("apple".to_string(), to_learn(&["yablokoo", "pomme"]), Day(0), &mut day);
    words.change_record("apple", 0, fresh("yabloko", 3));
    assert_eq!(words.statuses("apple"), Some(vec![fresh("yabloko", 3), fresh("pomme", 0)]));
    assert!(!words.contains_word("yablokoo"));
    assert_eq!(words.statuses("yabloko"), Some(vec![fresh("apple", 3)]));
    assert!(mirrored(&words));
    let further = WordStatus::ToLearn {
        translation: "yabloko".to_string(),
        last_learn: Day(9),
        current_level: 1,
        current_count: 1,
        stats: TypingStats { right: 3, wrong: 0 },
    };
    words.change_record("apple", 0, further.clone());
    assert_eq!(words.statuses("apple"), Some(vec![further, fresh("pomme", 0)]));
    assert_eq!(words.statuses("yabloko"), Some(vec![fresh("apple", 3)]));
    words.change_record("apple", 1, WordStatus::KnowPreviously);
    assert!(!words.contains_word("pomme"));
    assert!(mirrored(&words));
}
