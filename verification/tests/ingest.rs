use learn_words::ingest::{
    get_words, group, rank_words, read_letters, scan_letters, utf8_width, word_symbol, words_of_letters, Letter,
    WordsWithContext,
};
use learn_words::subtitles::{get_words_subtitles, words_of_items};
use learn_words::words::Words;

fn entry(word: &str, places: &[(usize, usize)]) -> (String, Vec<(usize, usize)>) {
    (word.to_string(), places.to_vec())
}

#[test]
fn words_are_listed_with_their_places_most_frequent_first() {
    let result = get_words("The cat and the dog. The end!");
    assert_eq!(result.text, "The cat and the dog. The end!");
    assert_eq!(
        result.words_with_context.0,
        vec![
            entry("the", &[(0, 3), (12, 15), (21, 24)]),
            entry("and", &[(8, 11)]),
            entry("cat", &[(4, 7)]),
            entry("dog", &[(16, 19)]),
            entry("end", &[(25, 28)]),
        ]
    );
}

#[test]
fn word_at_the_very_end_of_the_text_is_not_listed() {
    assert_eq!(get_words("hello world").words_with_context.0, vec![entry("hello", &[(0, 5)])]);
    assert_eq!(get_words("hello").words_with_context.0, vec![]);
    assert_eq!(get_words("").words_with_context.0, vec![]);
    assert_eq!(get_words("  ...  ").words_with_context.0, vec![]);
}

#[test]
fn apostrophes_and_hyphens_belong_to_words() {
    let result = get_words("Don't say well-known, -- x");
    assert_eq!(
        result.words_with_context.0,
        vec![
            entry("--", &[(22, 24)]),
            entry("don't", &[(0, 5)]),
            entry("say", &[(6, 9)]),
            entry("well-known", &[(10, 20)]),
        ]
    );
}

#[test]
fn places_are_counted_in_bytes_and_words_are_lowered() {
    let result = get_words("Ёж и ёж!");
    assert_eq!(result.words_with_context.0, vec![entry("ёж", &[(0, 4), (8, 12)]), entry("и", &[(5, 7)])]);
    let result = get_words("İ 𝒜b ");
    assert_eq!(result.words_with_context.0, vec![entry("i\u{307}", &[(0, 2)]), entry("𝒜b", &[(3, 8)])]);
}

#[test]
fn scan_lists_every_occurrence_in_order() {
    let hits = scan_letters(&read_letters("b a b "));
    let listed: Vec<(String, usize, usize)> = hits.iter().map(|h| (h.word.clone(), h.start, h.end)).collect();
    assert_eq!(listed, vec![("b".to_string(), 0, 1), ("a".to_string(), 2, 3), ("b".to_string(), 4, 5)]);
    let filed = group(&hits);
    assert_eq!(filed, vec![entry("b", &[(0, 1), (4, 5)]), entry("a", &[(2, 3)])]);
}

fn letter(in_word: bool, lower: &str, width: usize) -> Letter {
    Letter { in_word, lower: lower.chars().collect(), width }
}

#[test]
fn letters_say_all_that_the_search_needs() {
    let letters = read_letters("Aж-");
    let listed: Vec<(bool, String, usize)> =
        letters.iter().map(|l| (l.in_word, l.lower.iter().collect(), l.width)).collect();
    assert_eq!(
        listed,
        vec![(true, "a".to_string(), 1), (true, "ж".to_string(), 2), (true, "-".to_string(), 1)]
    );
    assert_eq!(read_letters("").len(), 0);
    let letters = read_letters(" 1");
    assert!(!letters[0].in_word && !letters[1].in_word);
}

#[test]
fn words_are_found_among_letters_given_as_plain_values() {
    let letters = vec![
        letter(true, "x", 1),
        letter(true, "yz", 3),
        letter(false, " ", 1),
        letter(false, "!", 2),
        letter(true, "q", 4),
        letter(false, ".", 1),
        letter(true, "x", 1),
        letter(true, "yz", 1),
        letter(false, " ", 1),
        letter(true, "end", 1),
    ];
    assert_eq!(words_of_letters(&letters), vec![entry("xyz", &[(0, 4), (12, 14)]), entry("q", &[(7, 11)])]);
    assert_eq!(words_of_letters(&vec![]), vec![]);
    assert_eq!(words_of_letters(&vec![letter(true, "a", 1)]), vec![]);
    assert_eq!(words_of_letters(&vec![letter(true, "", 1), letter(false, "", 1)]), vec![entry("", &[(0, 1)])]);
}

#[test]
fn ranking_orders_by_count_and_then_by_word() {
    let sorted = rank_words(vec![
        entry("pear", &[(0, 1)]),
        entry("fig", &[(2, 3), (4, 5)]),
        entry("apple", &[(6, 7)]),
        entry("date", &[(8, 9), (10, 11)]),
        entry("apples", &[(12, 13)]),
        entry("Zebra", &[(14, 15)]),
    ]);
    let order: Vec<&str> = sorted.iter().map(|e| e.0.as_str()).collect();
    assert_eq!(order, vec!["date", "fig", "Zebra", "apple", "apples", "pear"]);
    assert_eq!(rank_words(vec![]), vec![]);
}

#[test]
fn width_and_symbols_follow_the_character() {
    assert_eq!(utf8_width('a'), 1);
    assert_eq!(utf8_width('\u{7f}'), 1);
    assert_eq!(utf8_width('\u{80}'), 2);
    assert_eq!(utf8_width('ж'), 2);
    assert_eq!(utf8_width('\u{7ff}'), 2);
    assert_eq!(utf8_width('\u{800}'), 3);
    assert_eq!(utf8_width('€'), 3);
    assert_eq!(utf8_width('\u{ffff}'), 3);
    assert_eq!(utf8_width('\u{10000}'), 4);
    assert_eq!(utf8_width('𝒜'), 4);
    assert!(word_symbol('a'));
    assert!(word_symbol('Ж'));
    assert!(word_symbol('\''));
    assert!(word_symbol('-'));
    assert!(!word_symbol(' '));
    assert!(!word_symbol('1'));
    assert!(!word_symbol('.'));
}

#[test]
fn known_words_are_dropped_from_the_list() {
    let words = Words::from_entries(vec![("the".to_string(), vec![]), ("dog".to_string(), vec![])]);
    let mut found = get_words("The cat and the dog. ").words_with_context;
    found.drop_known(&words);
    assert_eq!(found.0, vec![entry("and", &[(8, 11)]), entry("cat", &[(4, 7)])]);
    let mut none = WordsWithContext(vec![]);
    none.drop_known(&words);
    assert_eq!(none.0, vec![]);
}

#[test]
fn subtitles_are_read_item_by_item() {
    let input = "1\n00:00:01,100 --> 00:00:02,120\nHello there!\n\n2\n00:00:03,000 --> 00:00:04,000\nHello again,\nfriend.\n";
    let result = get_words_subtitles(input).unwrap();
    assert_eq!(result.text, "Hello there!\nHello again,\nfriend.");
    assert_eq!(
        result.words_with_context.0,
        vec![
            entry("hello", &[(0, 5), (13, 18)]),
            entry("again", &[(19, 24)]),
            entry("friend", &[(26, 32)]),
            entry("there", &[(6, 11)]),
        ]
    );
}

#[test]
fn subtitles_that_cannot_be_read_give_a_report() {
    let error = get_words_subtitles("not a subtitle\n").unwrap_err();
    assert!(error.message.contains("BadPosition"));
    let error = get_words_subtitles("1\n").unwrap_err();
    assert!(error.message.contains("UnexpectedEnd"));
    assert_eq!(get_words_subtitles("").unwrap().text, "");
}

#[test]
fn items_are_joined_by_line_breaks() {
    let result = words_of_items(&vec!["one two".to_string(), "two".to_string(), "".to_string(), "end.".to_string()]);
    assert_eq!(result.text, "one two\ntwo\n\nend.");
    assert_eq!(
        result.words_with_context.0,
        vec![entry("two", &[(4, 7), (8, 11)]), entry("end", &[(13, 16)]), entry("one", &[(0, 3)])]
    );
    assert_eq!(words_of_items(&vec![]).text, "");
    assert_eq!(words_of_items(&vec!["a".to_string()]).text, "a");
}
