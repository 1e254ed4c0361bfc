use autocomplete::text::{chars_of, string_of};
use autocomplete::tokenizer::{split, tokenize, trim};

fn strings(words: &[&str]) -> Vec<String> {
    words.iter().map(|w| w.to_string()).collect()
}

#[test]
fn tokenize_lowercases_and_strips_punctuation() {
    assert_eq!(tokenize("Hello, World!"), strings(&["hello", "world"]));
}

#[test]
fn tokenize_keeps_interior_punctuation() {
    assert_eq!(tokenize("Don't stop--believing"), strings(&["don't", "stop--believing"]));
    assert_eq!(tokenize("--x-y--"), strings(&["x-y"]));
}

#[test]
fn tokenize_drops_pieces_without_letters_or_digits() {
    assert_eq!(tokenize("a -- b ... !? c"), strings(&["a", "b", "c"]));
}

#[test]
fn tokenize_of_empty_or_blank_text_is_empty() {
    assert_eq!(tokenize(""), Vec::<String>::new());
    assert_eq!(tokenize("   \t \n "), Vec::<String>::new());
    assert_eq!(tokenize("?!"), Vec::<String>::new());
}

#[test]
fn tokenize_cuts_at_every_kind_of_white_space() {
    assert_eq!(
        tokenize("one\ttwo\nthree\r\nfour\u{a0}five\u{2003}six"),
        strings(&["one", "two", "three", "four", "five", "six"])
    );
}

#[test]
fn tokenize_keeps_the_order_of_the_line() {
    assert_eq!(tokenize("c b a b c"), strings(&["c", "b", "a", "b", "c"]));
}

#[test]
fn tokenize_keeps_digits() {
    assert_eq!(tokenize("(42) 3.14, 2nd"), strings(&["42", "3.14", "2nd"]));
}

#[test]
fn tokenize_folds_letters_outside_ascii() {
    assert_eq!(tokenize("ÄPFEL Éclair ΣΟΦΙΑ"), strings(&["äpfel", "éclair", "σοφια"]));
}

#[test]
fn tokenize_strips_punctuation_outside_ascii() {
    assert_eq!(tokenize("«Bonjour» “quoted”"), strings(&["bonjour", "quoted"]));
}

#[test]
fn tokens_hold_no_white_space() {
    for token in tokenize("  a\tb \n c\u{2028}d  ") {
        assert!(!token.chars().any(|c| c.is_whitespace()));
        assert!(!token.is_empty());
    }
}

#[test]
fn split_cuts_at_runs_of_white_space() {
    let chars = chars_of("  alpha   beta\tgamma ");
    assert_eq!(split(&chars), strings(&["alpha", "beta", "gamma"]));
}

#[test]
fn split_leaves_punctuation_in_place() {
    let chars = chars_of("Hi, there!");
    assert_eq!(split(&chars), strings(&["Hi,", "there!"]));
}

#[test]
fn split_of_nothing_is_nothing() {
    assert_eq!(split(&chars_of("")), Vec::<String>::new());
    assert_eq!(split(&chars_of(" \n ")), Vec::<String>::new());
}

#[test]
fn trim_strips_both_ends_only() {
    assert_eq!(trim("\"it's\","), "it's");
    assert_eq!(trim("word"), "word");
    assert_eq!(trim("...a"), "a");
    assert_eq!(trim("a..."), "a");
    assert_eq!(trim("?!"), "");
    assert_eq!(trim(""), "");
}

#[test]
fn chars_of_gives_the_characters_in_order() {
    assert_eq!(chars_of("héllo"), vec!['h', 'é', 'l', 'l', 'o']);
    assert_eq!(chars_of(""), Vec::<char>::new());
}

#[test]
fn string_of_gives_the_range() {
    let chars = chars_of("abcdef");
    assert_eq!(string_of(&chars, 1, 4), "bcd");
    assert_eq!(string_of(&chars, 2, 2), "");
    assert_eq!(string_of(&chars, 0, 6), "abcdef");
}
