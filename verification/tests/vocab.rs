use autocomplete::vocab::{get_id, Vocabulary};

#[test]
fn ids_are_dense_and_in_order_of_first_sight() {
    let mut vocab = Vocabulary::new();
    assert_eq!(get_id("the", &mut vocab), 0);
    assert_eq!(get_id("cat", &mut vocab), 1);
    assert_eq!(get_id("the", &mut vocab), 0);
    assert_eq!(get_id("sat", &mut vocab), 2);
    assert_eq!(vocab.len(), 3);
}

#[test]
fn different_words_get_different_ids_and_ids_are_stable() {
    let mut vocab = Vocabulary::new();
    let a = get_id("alpha", &mut vocab);
    let b = get_id("beta", &mut vocab);
    assert_ne!(a, b);
    assert_eq!(get_id("alpha", &mut vocab), a);
    assert_eq!(get_id("beta", &mut vocab), b);
    assert_eq!(vocab.len(), 2);
}

#[test]
fn every_id_gives_back_its_word() {
    let mut vocab = Vocabulary::new();
    let words = ["one", "two", "three", "two", "four", "one"];
    for w in words {
        let id = get_id(w, &mut vocab);
        assert_eq!(vocab.word(id).map(|s| s.as_str()), Some(w));
        assert_eq!(vocab.lookup(w), Some(id));
    }
    assert_eq!(vocab.len(), 4);
    assert_eq!(vocab.word(4), None);
}

#[test]
fn a_fresh_vocabulary_knows_no_word() {
    let vocab = Vocabulary::new();
    assert_eq!(vocab.len(), 0);
    assert_eq!(vocab.lookup("anything"), None);
    assert_eq!(vocab.word(0), None);
    assert!(vocab.words().is_empty());
}

#[test]
fn lookup_does_not_add_words() {
    let mut vocab = Vocabulary::new();
    get_id("known", &mut vocab);
    assert_eq!(vocab.lookup("unknown"), None);
    assert_eq!(vocab.len(), 1);
}

#[test]
fn words_differ_by_case() {
    let mut vocab = Vocabulary::new();
    assert_eq!(get_id("a", &mut vocab), 0);
    assert_eq!(get_id("A", &mut vocab), 1);
}

#[test]
fn from_words_numbers_the_words_by_position() {
    let words = vec!["zero".to_string(), "one".to_string(), "two".to_string()];
    let vocab = Vocabulary::from_words(words.clone());
    assert_eq!(vocab.len(), 3);
    assert_eq!(vocab.lookup("zero"), Some(0));
    assert_eq!(vocab.lookup("one"), Some(1));
    assert_eq!(vocab.lookup("two"), Some(2));
    assert_eq!(vocab.lookup("three"), None);
    assert_eq!(vocab.words(), &words);
}

#[test]
fn from_words_finds_a_repeated_word_at_its_last_position() {
    let words = vec!["x".to_string(), "y".to_string(), "x".to_string()];
    let vocab = Vocabulary::from_words(words);
    assert_eq!(vocab.lookup("x"), Some(2));
    assert_eq!(vocab.lookup("y"), Some(1));
    assert_eq!(vocab.word(0).map(|s| s.as_str()), Some("x"));
}

#[test]
fn get_id_continues_a_loaded_vocabulary() {
    let mut vocab = Vocabulary::from_words(vec!["a".to_string(), "b".to_string()]);
    assert_eq!(get_id("b", &mut vocab), 1);
    assert_eq!(get_id("c", &mut vocab), 2);
    assert_eq!(vocab.len(), 3);
}
