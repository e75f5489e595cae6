use learn_words::checking::match_guesses;
use learn_words::day::Day;
use learn_words::ladder::LearnType;
use learn_words::random::{shuffle, shuffle_with};
use learn_words::schedule::WordsToLearn;
use learn_words::session::{are_all_right, check_answers, keep_wanted, word_plan, LearnWords, LearnWordsWindow};
use learn_words::stats::{DayStatistics, TypingStats};
use learn_words::status::WordStatus;
use learn_words::words::{Words, WordsToAdd};

fn strings(list: &[&str]) -> Vec<String> {
    list.iter().map(|x| x.to_string()).collect()
}

fn ladder() -> Vec<LearnType> {
    vec![LearnType::show(0, 2), LearnType::guess(0, 3)]
}

fn plan(to_type: &[&str], to_guess: &[&str]) -> WordsToLearn {
    WordsToLearn { known_words: vec![], words_to_type: strings(to_type), words_to_guess: strings(to_guess) }
}

fn wrong(expected: &str, typed: &str) -> Result<String, (String, String)> {
    Err((expected.to_string(), typed.to_string()))
}

fn right(text: &str) -> Result<String, (String, String)> {
    Ok(text.to_string())
}

#[test]
fn guesses_in_another_order_are_both_right() {
    let checking = check_answers(&plan(&[], &["cat", "dog"]), &vec![], &strings(&["dog", "cat"]));
    assert_eq!(checking.pairing, vec![1, 0]);
    assert_eq!(checking.answers, vec![right("dog"), right("cat")]);
    assert!(are_all_right(&checking.answers));
}

#[test]
fn wrong_guess_is_paired_with_the_expected_translation_that_is_left() {
    let checking = check_answers(&plan(&[], &["cat", "dog"]), &vec![], &strings(&["cat", "cow"]));
    assert_eq!(checking.pairing, vec![0, 1]);
    assert_eq!(checking.answers, vec![right("cat"), wrong("dog", "cow")]);
    assert!(!are_all_right(&checking.answers));
}

#[test]
fn guess_typed_twice_is_right_only_once() {
    let pairing = match_guesses(&strings(&["cat", "dog"]), &strings(&["dog", "dog"]));
    assert_eq!(pairing, vec![1, 0]);
    let pairing = match_guesses(&strings(&["a", "b", "a", "c"]), &strings(&["a", "x", "a", "a"]));
    assert_eq!(pairing, vec![0, 1, 2, 3]);
    let pairing = match_guesses(&strings(&["a", "b", "c"]), &strings(&["c", "z"]));
    assert_eq!(pairing, vec![2, 0]);
    let pairing = match_guesses(&strings(&["a", "b", "c"]), &strings(&["z", "y", "a"]));
    assert_eq!(pairing, vec![1, 2, 0]);
    assert_eq!(match_guesses(&strings(&[]), &strings(&[])), Vec::<usize>::new());
}

#[test]
fn typed_translations_are_checked_place_by_place() {
    let checking = check_answers(&plan(&["one", "two"], &["cat"]), &strings(&["two", "two"]), &strings(&["cat"]));
    assert_eq!(checking.answers, vec![wrong("one", "two"), right("two"), right("cat")]);
    let checking = check_answers(&plan(&["one", "two"], &[]), &strings(&["one"]), &vec![]);
    assert_eq!(checking.answers, vec![right("one")]);
}

#[test]
fn shuffle_with_follows_the_draws() {
    let mut list = strings(&["a", "b", "c", "d"]);
    shuffle_with(&mut list, &[5, 1, 0]);
    assert_eq!(list, strings(&["b", "c", "a", "d"]));
    let mut list = strings(&["a", "b", "c"]);
    shuffle_with(&mut list, &[]);
    assert_eq!(list, strings(&["a", "b", "c"]));
    let mut list = strings(&["a", "b", "c"]);
    shuffle_with(&mut list, &[2, 2, 2, 2, 2]);
    assert_eq!(list, strings(&["c", "a", "b"]));
    let mut list: Vec<String> = vec![];
    shuffle_with(&mut list, &[7]);
    assert_eq!(list, strings(&[]));
}

#[test]
fn shuffle_keeps_every_word() {
    let mut list = strings(&["a", "b", "c", "d", "e", "f", "b"]);
    shuffle(&mut list);
    list.sort();
    assert_eq!(list, strings(&["a", "b", "b", "c", "d", "e", "f"]));
}

fn store() -> Words {
    let mut words = Words::new();
    let mut day = DayStatistics::default();
    let info = WordsToAdd::ToLearn { learned: vec![], translations: strings(&["kot"]) };
    words.add_word("cat".to_string(), info, Day(0), &mut day);
    words
}

#[test]
fn word_plan_is_given_only_for_words_that_ask_for_something() {
    let words = store();
    let ladder = ladder();
    let plan = word_plan(&words, "cat", Day(0), &ladder).unwrap();
    assert_eq!(plan.words_to_type, strings(&["kot"]));
    assert!(word_plan(&words, "dog", Day(0), &ladder).is_none());
    let waiting = vec![LearnType::show(3, 1)];
    assert!(word_plan(&words, "cat", Day(2), &waiting).is_none());
    assert_eq!(keep_wanted(&words, &strings(&["dog", "kot", "cat"]), false, Day(0), &ladder), strings(&["kot", "cat"]));
    let guess_only = vec![LearnType::guess(0, 1)];
    assert_eq!(keep_wanted(&words, &strings(&["kot", "cat"]), true, Day(0), &guess_only), strings(&[]));
    assert_eq!(keep_wanted(&words, &strings(&["kot", "cat"]), false, Day(0), &guess_only), strings(&["kot", "cat"]));
}

#[test]
fn new_session_waits_for_a_batch_when_words_are_due() {
    let words = store();
    let window = LearnWordsWindow::new(&words, Day(0), &ladder());
    assert!(matches!(window.current, LearnWords::Choose { repeat_count: 0, new_count: 2 }));
    assert_eq!(window.to_learn, strings(&["cat", "kot"]));
    assert_eq!(window.to_repeat, strings(&[]));
    assert_eq!(window.to_type_today, strings(&[]));
}

#[test]
fn new_session_is_idle_when_nothing_is_due() {
    let window = LearnWordsWindow::new(&Words::new(), Day(0), &ladder());
    assert!(matches!(window.current, LearnWords::Idle));
    let words = store();
    let waiting = vec![LearnType::show(3, 1)];
    let window = LearnWordsWindow::new(&words, Day(2), &waiting);
    assert!(matches!(window.current, LearnWords::Idle));
}

#[test]
fn session_walks_both_directions_of_a_pair_until_they_are_learned() {
    let mut words = store();
    let ladder = ladder();
    let mut day = DayStatistics::default();
    let mut window = LearnWordsWindow::new(&words, Day(0), &ladder);
    window.choose_batch(&words, 0, 1, Day(0), &ladder);
    assert_eq!(window.to_learn, strings(&[]));
    let mut prompts = 0;
    loop {
        let (typed, guessed) = match &window.current {
            LearnWords::Typing { word, correct_answer } => {
                assert!(word == "cat" || word == "kot");
                assert_eq!(correct_answer.words_to_type.len() + correct_answer.words_to_guess.len(), 1);
                (correct_answer.words_to_type.clone(), correct_answer.words_to_guess.clone())
            },
            LearnWords::Idle => break,
            _ => panic!("the session must present a word or be idle"),
        };
        let (checking, every) = window.check(&mut words, &typed, &guessed, Day(0), &mut day, &ladder);
        assert!(are_all_right(&checking.answers));
        assert!(every);
        prompts += 1;
        assert!(prompts <= 10);
    }
    assert_eq!(prompts, 10);
    assert_eq!(day.attempts, TypingStats { right: 10, wrong: 0 });
    assert_eq!(words.is_learned("cat"), Ok(true));
    assert_eq!(words.is_learned("kot"), Ok(true));
    assert_eq!(
        words.statuses("cat"),
        Some(vec![WordStatus::Learned { translation: "kot".to_string(), stats: TypingStats { right: 5, wrong: 0 } }])
    );
    assert_eq!(window.to_type_today, strings(&[]));
}

#[test]
fn words_with_a_hint_go_before_words_to_guess() {
    let mut words = Words::from_entries(vec![
        (
            "guess".to_string(),
            vec![WordStatus::ToLearn {
                translation: "raten".to_string(),
                last_learn: Day(0),
                current_level: 1,
                current_count: 0,
                stats: TypingStats { right: 2, wrong: 0 },
            }],
        ),
        (
            "hint".to_string(),
            vec![WordStatus::ToLearn {
                translation: "hinweis".to_string(),
                last_learn: Day(0),
                current_level: 0,
                current_count: 1,
                stats: TypingStats { right: 1, wrong: 0 },
            }],
        ),
    ]);
    let ladder = ladder();
    let mut day = DayStatistics::default();
    let mut window = LearnWordsWindow::new(&words, Day(0), &ladder);
    assert!(matches!(window.current, LearnWords::Choose { repeat_count: 1, new_count: 1 }));
    window.choose_batch(&words, 1, 1, Day(0), &ladder);
    match &window.current {
        LearnWords::Typing { word, correct_answer } => {
            assert_eq!(word, "hint");
            assert_eq!(correct_answer.words_to_type, strings(&["hinweis"]));
        },
        _ => panic!("a word must be presented"),
    }
    assert_eq!(window.round, strings(&[]));
    assert_eq!(window.to_type_today, strings(&["guess", "hint"]));
    let (checking, every) = window.check(&mut words, &strings(&["hinweis"]), &vec![], Day(0), &mut day, &ladder);
    assert_eq!(checking.answers, vec![right("hinweis")]);
    assert!(every);
    assert!(matches!(&window.current, LearnWords::Typing { .. }));
}

#[test]
fn wrong_answer_is_shown_and_registered_at_once() {
    let mut words = Words::from_entries(vec![(
        "hint".to_string(),
        vec![
            WordStatus::ToLearn {
                translation: "hinweis".to_string(),
                last_learn: Day(0),
                current_level: 0,
                current_count: 0,
                stats: TypingStats { right: 0, wrong: 0 },
            },
            WordStatus::Learned { translation: "tipp".to_string(), stats: TypingStats { right: 5, wrong: 0 } },
        ],
    )]);
    let ladder = ladder();
    let mut day = DayStatistics::default();
    let mut window = LearnWordsWindow::new(&words, Day(0), &ladder);
    window.choose_batch(&words, 0, 1, Day(0), &ladder);
    let (checking, every) = window.check(&mut words, &strings(&["hinwies"]), &vec![], Day(0), &mut day, &ladder);
    assert_eq!(checking.answers, vec![wrong("hinweis", "hinwies")]);
    assert!(every);
    match &window.current {
        LearnWords::Checked { word, known_words, answers } => {
            assert_eq!(word, "hint");
            assert_eq!(known_words, &strings(&["tipp"]));
            assert_eq!(answers, &vec![wrong("hinweis", "hinwies")]);
        },
        _ => panic!("the checked answers must be shown"),
    }
    assert_eq!(day.attempts, TypingStats { right: 0, wrong: 1 });
    let records = words.statuses("hint").unwrap();
    assert_eq!(
        records[0],
        WordStatus::ToLearn {
            translation: "hinweis".to_string(),
            last_learn: Day(0),
            current_level: 0,
            current_count: 0,
            stats: TypingStats { right: 0, wrong: 1 },
        }
    );
    window.next(&words, Day(0), &ladder);
    match &window.current {
        LearnWords::Typing { word, .. } => assert_eq!(word, "hint"),
        _ => panic!("the word is still due and must be presented again"),
    }
}

#[test]
fn update_drops_the_pool_and_computes_the_due_words_afresh() {
    let mut words = store();
    let ladder = ladder();
    let mut window = LearnWordsWindow::new(&words, Day(0), &ladder);
    window.choose_batch(&words, 0, 2, Day(0), &ladder);
    assert!(matches!(&window.current, LearnWords::Typing { .. }));
    words.remove_word("cat");
    window.update(&words, Day(0), &ladder);
    assert!(matches!(window.current, LearnWords::Idle));
    assert_eq!(window.to_type_today, strings(&[]));
    assert_eq!(window.round, strings(&[]));
}

#[test]
fn word_removed_during_the_session_is_passed_over() {
    let mut words = store();
    let ladder = ladder();
    let mut window = LearnWordsWindow::new(&words, Day(0), &ladder);
    window.choose_batch(&words, 0, 2, Day(0), &ladder);
    words.remove_word("cat");
    window.next(&words, Day(0), &ladder);
    assert!(matches!(window.current, LearnWords::Idle));
    assert_eq!(window.to_type_today, strings(&[]));
}

#[test]
fn attempt_that_the_store_refuses_is_reported() {
    let mut words = store();
    let ladder = ladder();
    let mut day = DayStatistics::default();
    let mut window = LearnWordsWindow::new(&words, Day(0), &ladder);
    window.choose_batch_with_draws(&words, 0, 1, Day(0), &ladder, &[0, 0]);
    let word = match &window.current {
        LearnWords::Typing { word, .. } => word.clone(),
        _ => panic!("a word must be presented"),
    };
    assert_eq!(word, "cat");
    words.remove_word("cat");
    let (checking, every) = window.check_with_draws(&mut words, &strings(&["kot"]), &vec![], Day(0), &mut day, &ladder, &[]);
    assert_eq!(checking.answers, vec![right("kot")]);
    assert!(!every);
    assert_eq!(day.attempts, TypingStats { right: 0, wrong: 0 });
    assert!(matches!(window.current, LearnWords::Idle));
}

#[test]
fn given_draws_fix_the_order_of_the_round() {
    let mut words = Words::new();
    let mut day = DayStatistics::default();
    for (word, back) in [("a", "1"), ("b", "2"), ("c", "3")] {
        let info = WordsToAdd::ToLearn { learned: vec![], translations: strings(&[back]) };
        words.add_word(word.to_string(), info, Day(0), &mut day);
    }
    let ladder = ladder();
    let mut window = LearnWordsWindow::new(&words, Day(0), &ladder);
    assert_eq!(window.to_learn, strings(&["1", "2", "3", "a", "b", "c"]));
    window.choose_batch_with_draws(&words, 0, 2, Day(0), &ladder, &[3, 0, 1]);
    assert_eq!(window.to_type_today, strings(&["1", "a", "2", "b"]));
    assert_eq!(window.to_learn, strings(&["3", "c"]));
    match &window.current {
        LearnWords::Typing { word, correct_answer } => {
            assert_eq!(word, "b");
            assert_eq!(correct_answer.words_to_type, strings(&["2"]));
        },
        _ => panic!("a word must be presented"),
    }
    assert_eq!(window.round, strings(&["1", "2", "a"]));
    window.next_with_draws(&words, Day(0), &ladder, &[]);
    match &window.current {
        LearnWords::Typing { word, .. } => assert_eq!(word, "1"),
        _ => panic!("a word must be presented"),
    }
    assert_eq!(window.round, strings(&["2", "a"]));
    words.remove_word("2");
    window.pick_with_draws(&words, Day(0), &ladder, &[]);
    match &window.current {
        LearnWords::Typing { word, .. } => assert_eq!(word, "a"),
        _ => panic!("a word must be presented"),
    }
    assert_eq!(window.round, strings(&[]));
    assert_eq!(window.to_type_today, strings(&["1", "a", "2", "b"]));
    window.pick_with_draws(&words, Day(0), &ladder, &[1]);
    assert_eq!(window.to_type_today, strings(&["1", "a"]));
    match &window.current {
        LearnWords::Typing { word, .. } => assert_eq!(word, "a"),
        _ => panic!("a word must be presented"),
    }
    assert_eq!(window.round, strings(&["1"]));
}
