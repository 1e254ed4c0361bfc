use autocomplete::query::{first_at_least, predict, suggest, MAX_SUGGESTIONS};
use autocomplete::record::Entry;
use autocomplete::vocab::Vocabulary;

fn entry(w1: u32, w2: u32, w3: u32, count: u32) -> Entry {
    Entry { w1, w2, w3, count }
}

fn strings(words: &[&str]) -> Vec<String> {
    words.iter().map(|w| w.to_string()).collect()
}

fn vocab(words: &[&str]) -> Vocabulary {
    Vocabulary::from_words(strings(words))
}

/// Words 0..=9 are "w0".."w9". The context (1, 2) has three entries, the
/// context (3, 4) has seven.
fn sample() -> (Vec<Entry>, Vocabulary) {
    let entries = vec![
        entry(0, 1, 2, 9),
        entry(1, 2, 3, 8),
        entry(1, 2, 0, 5),
        entry(1, 2, 9, 2),
        entry(1, 3, 4, 2),
        entry(3, 4, 0, 9),
        entry(3, 4, 1, 8),
        entry(3, 4, 2, 7),
        entry(3, 4, 5, 6),
        entry(3, 4, 6, 5),
        entry(3, 4, 7, 4),
        entry(3, 4, 8, 3),
        entry(9, 9, 9, 2),
    ];
    let v = vocab(&["w0", "w1", "w2", "w3", "w4", "w5", "w6", "w7", "w8", "w9"]);
    (entries, v)
}

#[test]
fn predict_returns_every_continuation_of_the_context_and_no_other() {
    let (entries, v) = sample();
    assert_eq!(predict(&entries, &v, "w1", "w2"), strings(&["w3", "w0", "w9"]));
    assert_eq!(predict(&entries, &v, "w1", "w3"), strings(&["w4"]));
}

#[test]
fn predict_finds_the_first_and_the_last_context() {
    let (entries, v) = sample();
    assert_eq!(predict(&entries, &v, "w0", "w1"), strings(&["w2"]));
    assert_eq!(predict(&entries, &v, "w9", "w9"), strings(&["w9"]));
}

#[test]
fn predict_returns_the_first_five_of_a_longer_run() {
    let (entries, v) = sample();
    let got = predict(&entries, &v, "w3", "w4");
    assert_eq!(got.len(), MAX_SUGGESTIONS);
    assert_eq!(got, strings(&["w0", "w1", "w2", "w5", "w6"]));
}

#[test]
fn predict_starts_at_the_first_entry_of_a_run_wherever_the_search_lands() {
    // One context with five entries, at every offset in indexes of many sizes.
    let words: Vec<String> = (0..40).map(|i| format!("w{}", i)).collect();
    let v = Vocabulary::from_words(words);
    for before in 0..12u32 {
        for after in 0..12u32 {
            let mut entries = Vec::new();
            for i in 0..before {
                entries.push(entry(1, i, 0, 1));
            }
            for c in 0..5u32 {
                entries.push(entry(20, 20, 30 + c, 9 - c));
            }
            for i in 0..after {
                entries.push(entry(21 + i, 0, 0, 1));
            }
            assert_eq!(
                predict(&entries, &v, "w20", "w20"),
                strings(&["w30", "w31", "w32", "w33", "w34"])
            );
        }
    }
}

#[test]
fn predict_of_an_unknown_word_is_empty() {
    let (entries, v) = sample();
    assert_eq!(predict(&entries, &v, "nope", "w2"), Vec::<String>::new());
    assert_eq!(predict(&entries, &v, "w1", "nope"), Vec::<String>::new());
    assert_eq!(predict(&entries, &v, "", ""), Vec::<String>::new());
}

#[test]
fn predict_of_a_context_that_was_never_seen_is_empty() {
    let (entries, v) = sample();
    assert_eq!(predict(&entries, &v, "w2", "w1"), Vec::<String>::new());
    assert_eq!(predict(&entries, &v, "w1", "w1"), Vec::<String>::new());
    assert_eq!(predict(&entries, &v, "w5", "w5"), Vec::<String>::new());
}

#[test]
fn predict_on_an_empty_index_is_empty() {
    let v = vocab(&["a", "b"]);
    assert_eq!(predict(&[], &v, "a", "b"), Vec::<String>::new());
}

#[test]
fn predict_does_not_fold_case() {
    let (entries, v) = sample();
    assert_eq!(predict(&entries, &v, "W1", "W2"), Vec::<String>::new());
}

#[test]
fn first_at_least_finds_the_start_of_a_run() {
    let (entries, _) = sample();
    assert_eq!(first_at_least(&entries, 0, 0), 0);
    assert_eq!(first_at_least(&entries, 0, 1), 0);
    assert_eq!(first_at_least(&entries, 1, 2), 1);
    assert_eq!(first_at_least(&entries, 1, 3), 4);
    assert_eq!(first_at_least(&entries, 2, 0), 5);
    assert_eq!(first_at_least(&entries, 3, 4), 5);
    assert_eq!(first_at_least(&entries, 3, 5), 12);
    assert_eq!(first_at_least(&entries, 9, 9), 12);
    assert_eq!(first_at_least(&entries, 9, 10), 13);
    assert_eq!(first_at_least(&[], 1, 1), 0);
}

#[test]
fn suggest_uses_the_last_two_pieces_in_lower_case() {
    let (entries, v) = sample();
    assert_eq!(suggest(&entries, &v, "w9 w8 W1 w2"), strings(&["w3", "w0", "w9"]));
    assert_eq!(suggest(&entries, &v, "  W1\t W2  \n"), strings(&["w3", "w0", "w9"]));
    assert_eq!(suggest(&entries, &v, "w1 w2 w1 w3"), strings(&["w4"]));
}

#[test]
fn suggest_needs_two_pieces() {
    let (entries, v) = sample();
    assert_eq!(suggest(&entries, &v, ""), Vec::<String>::new());
    assert_eq!(suggest(&entries, &v, "   "), Vec::<String>::new());
    assert_eq!(suggest(&entries, &v, "w1"), Vec::<String>::new());
    assert_eq!(suggest(&entries, &v, " w2 "), Vec::<String>::new());
}

#[test]
fn suggest_does_not_strip_punctuation() {
    let (entries, v) = sample();
    assert_eq!(suggest(&entries, &v, "w1 w2,"), Vec::<String>::new());
    assert_eq!(suggest(&entries, &v, "w1, w2"), Vec::<String>::new());
}

#[test]
fn predict_on_an_index_out_of_order_returns_words_of_the_context_only() {
    let v = vocab(&["w0", "w1", "w2", "w3", "w4"]);
    let entries = vec![
        entry(4, 4, 0, 2),
        entry(1, 2, 3, 5),
        entry(0, 0, 1, 2),
        entry(1, 2, 4, 2),
        entry(3, 3, 2, 2),
        entry(1, 2, 0, 2),
    ];
    let allowed = strings(&["w3", "w4", "w0"]);
    for got in predict(&entries, &v, "w1", "w2") {
        assert!(allowed.contains(&got));
    }
    for got in predict(&entries, &v, "w0", "w0") {
        assert_eq!(got, "w1");
    }
}
