use learn_words::calendar::{boundary, date_from_day, Boundary, CalendarDate};
use learn_words::choice::ComboBoxChoosable;
use learn_words::day::Day;
use learn_words::keyboard::{KeyboardLayout, LayoutError};
use learn_words::ladder::LearnType;
use learn_words::search::{insert_by_distance, near, ACCEPTED_LEVENSHTEIN};
use learn_words::settings::Settings;
use learn_words::stats::TypingStats;
use learn_words::status::WordStatus;
use learn_words::text::{chars_of, lines_of};
use learn_words::words::Words;

#[test]
fn layout_changes_text_typed_in_the_wrong_language() {
    let layout = KeyboardLayout::new("qwe rty", "йцу кен").unwrap();
    let mut typed = "qw e".to_string();
    layout.change("йцукен", &mut typed);
    assert_eq!(typed, "йц у");
    let mut typed = "кен! q".to_string();
    layout.change("query", &mut typed);
    assert_eq!(typed, "rty! q");
    assert_eq!(layout.in_second('q'), Some('й'));
    assert_eq!(layout.in_first('й'), Some('q'));
    assert_eq!(layout.in_second('й'), None);
    assert_eq!(layout.in_second(' '), Some(' '));
    assert_eq!(layout.pairs(), vec![(' ', ' '), ('e', 'у'), ('q', 'й'), ('r', 'к'), ('t', 'е'), ('w', 'ц'), ('y', 'н')]);
    assert_eq!(layout.second_pairs()[0], (' ', ' '));
    assert_eq!(layout.second_pairs()[1], ('е', 't'));
}

#[test]
fn layout_ignores_line_breaks_and_takes_the_last_of_a_repeated_symbol() {
    let layout = KeyboardLayout::new("ab\na", "x\nyz").unwrap();
    assert_eq!(layout.in_second('a'), Some('z'));
    assert_eq!(layout.in_second('b'), Some('y'));
    assert_eq!(layout.in_first('x'), Some('a'));
    assert_eq!(layout.in_first('z'), Some('a'));
    assert_eq!(layout.pairs(), vec![('a', 'z'), ('b', 'y')]);
}

#[test]
fn layout_of_lists_of_different_length_is_refused() {
    assert_eq!(KeyboardLayout::new("ab", "xyz").unwrap_err(), LayoutError::LengthsDiffer { first: 2, second: 3 });
    assert_eq!(KeyboardLayout::new("a\nb\n", "x").unwrap_err(), LayoutError::LengthsDiffer { first: 2, second: 1 });
}

#[test]
fn layout_with_a_symbol_on_both_sides_is_refused() {
    assert_eq!(KeyboardLayout::new("abc", "xcb").unwrap_err(), LayoutError::SharedSymbol { symbol: 'b' });
    assert!(KeyboardLayout::new("a b", "x y").is_ok());
    assert!(KeyboardLayout::new("", "").is_ok());
}

#[test]
fn empty_layout_changes_nothing() {
    let layout = KeyboardLayout::empty();
    let mut typed = "hello".to_string();
    layout.change("x", &mut typed);
    assert_eq!(typed, "hello");
    assert_eq!(layout.pairs(), vec![]);
}

#[test]
fn characters_of_a_text_are_listed_in_order() {
    assert_eq!(chars_of("aй-"), vec!['a', 'й', '-']);
    assert_eq!(chars_of(""), Vec::<char>::new());
}

#[test]
fn lines_that_are_not_empty_are_listed() {
    assert_eq!(lines_of("one\n\ntwo words\nthree"), vec!["one", "two words", "three"]);
    assert_eq!(lines_of("\n\none\n"), vec!["one"]);
    assert_eq!(lines_of(""), Vec::<String>::new());
    assert_eq!(lines_of("\n\n"), Vec::<String>::new());
    assert_eq!(lines_of(" "), vec![" "]);
}

#[test]
fn near_words_are_found_and_ordered_by_distance() {
    let words = Words::from_entries(vec![
        ("kitten".to_string(), vec![]),
        ("elephant".to_string(), vec![]),
        ("sitting".to_string(), vec![]),
        ("sittin".to_string(), vec![]),
        ("mitten".to_string(), vec![]),
    ]);
    let found = words.find_near("sitting");
    assert_eq!(
        found,
        vec![(0, "sitting".to_string()), (1, "sittin".to_string()), (3, "kitten".to_string()), (3, "mitten".to_string())]
    );
    assert_eq!(words.find_near("zzzzzzzzzzzz"), vec![]);
    assert_eq!(Words::new().find_near("a"), vec![]);
}

#[test]
fn nearness_has_a_fixed_threshold() {
    assert_eq!(ACCEPTED_LEVENSHTEIN, 4);
    assert!(near(0));
    assert!(near(3));
    assert!(!near(4));
    let mut list = vec![(1, "a".to_string()), (3, "b".to_string())];
    insert_by_distance(&mut list, 1, "c".to_string());
    insert_by_distance(&mut list, 0, "d".to_string());
    insert_by_distance(&mut list, 9, "e".to_string());
    assert_eq!(
        list,
        vec![
            (0, "d".to_string()),
            (1, "a".to_string()),
            (1, "c".to_string()),
            (3, "b".to_string()),
            (9, "e".to_string())
        ]
    );
}

#[test]
fn default_settings_hold_the_five_rung_ladder() {
    let settings = Settings::default();
    assert_eq!(
        settings.type_count,
        vec![
            LearnType::show(0, 2),
            LearnType::guess(0, 3),
            LearnType::guess(2, 5),
            LearnType::guess(7, 5),
            LearnType::guess(20, 5),
        ]
    );
    assert!(!settings.use_keyboard_layout);
    assert_eq!(settings.keyboard_layout.pairs(), vec![]);
}

#[test]
fn variant_of_a_record_is_read_by_number() {
    assert_eq!(WordStatus::variants(), vec!["Known", "Trash", "To learn", "Learned."]);
    assert_eq!(WordStatus::KnowPreviously.get_number(), 0);
    assert_eq!(WordStatus::TrashWord.get_number(), 1);
    let learning = WordStatus::ToLearn {
        translation: "a".to_string(),
        last_learn: Day(9),
        current_level: 3,
        current_count: 1,
        stats: TypingStats { right: 5, wrong: 6 },
    };
    assert_eq!(learning.get_number(), 2);
    let learned = WordStatus::Learned { translation: "a".to_string(), stats: TypingStats { right: 5, wrong: 6 } };
    assert_eq!(learned.get_number(), 3);
}

#[test]
fn variant_of_a_record_is_set_by_number() {
    let learning = WordStatus::ToLearn {
        translation: "a".to_string(),
        last_learn: Day(9),
        current_level: 3,
        current_count: 1,
        stats: TypingStats { right: 5, wrong: 6 },
    };
    let learned = WordStatus::Learned { translation: "a".to_string(), stats: TypingStats { right: 5, wrong: 6 } };
    let mut record = learning.clone();
    record.set_number(3);
    assert_eq!(record, learned);
    record.set_number(2);
    assert_eq!(
        record,
        WordStatus::ToLearn {
            translation: "a".to_string(),
            last_learn: Day(0),
            current_level: 0,
            current_count: 0,
            stats: TypingStats { right: 5, wrong: 6 },
        }
    );
    record.set_number(0);
    assert_eq!(record, WordStatus::KnowPreviously);
    record.set_number(3);
    assert_eq!(record, WordStatus::Learned { translation: String::new(), stats: TypingStats { right: 0, wrong: 0 } });
    record.set_number(1);
    assert_eq!(record, WordStatus::TrashWord);
    record.set_number(2);
    assert_eq!(
        record,
        WordStatus::ToLearn {
            translation: String::new(),
            last_learn: Day(0),
            current_level: 0,
            current_count: 0,
            stats: TypingStats { right: 0, wrong: 0 },
        }
    );
    let mut again = learning.clone();
    again.set_number(2);
    assert_eq!(
        again,
        WordStatus::ToLearn {
            translation: String::new(),
            last_learn: Day(0),
            current_level: 0,
            current_count: 0,
            stats: TypingStats { right: 0, wrong: 0 },
        }
    );
}

#[test]
fn day_has_the_date_of_the_calendar() {
    let first = date_from_day(Day(0)).unwrap();
    assert_eq!(first, CalendarDate { year: 1970, month: 1, day: 1, weekday: 4 });
    let leap = date_from_day(Day(19782)).unwrap();
    assert_eq!(leap, CalendarDate { year: 2024, month: 2, day: 29, weekday: 4 });
    let next = date_from_day(Day(19783)).unwrap();
    assert_eq!(next, CalendarDate { year: 2024, month: 3, day: 1, weekday: 5 });
    assert_eq!(boundary(leap, next), Boundary::Month);
    assert_eq!(boundary(first, leap), Boundary::Year);
    assert_eq!(boundary(next, next), Boundary::Nothing);
    let eve = date_from_day(Day(364)).unwrap();
    let new_year = date_from_day(Day(365)).unwrap();
    assert_eq!(boundary(eve, new_year), Boundary::Year);
    assert_eq!(date_from_day(Day(u64::MAX)), None);
    assert_eq!(date_from_day(Day(u64::MAX / 86400)), None);
    assert_eq!(date_from_day(Day(1 << 40)), None);
}
