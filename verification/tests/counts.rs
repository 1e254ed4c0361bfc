use autocomplete::counts::TrigramCounts;
use autocomplete::index::{build_index, precedes, sort};
use autocomplete::record::Entry;

fn entry(w1: u32, w2: u32, w3: u32, count: u32) -> Entry {
    Entry { w1, w2, w3, count }
}

#[test]
fn a_repeated_phrase_is_counted_once_for_each_window() {
    // a b c a b c a b c
    let mut counts = TrigramCounts::new();
    counts.observe(&[0, 1, 2, 0, 1, 2, 0, 1, 2]);
    assert_eq!(counts.count(0, 1, 2), 3);
    assert_eq!(counts.count(1, 2, 0), 2);
    assert_eq!(counts.count(2, 0, 1), 2);
    assert_eq!(counts.count(0, 2, 1), 0);
}

#[test]
fn short_lines_have_no_trigram() {
    let mut counts = TrigramCounts::new();
    counts.observe(&[]);
    counts.observe(&[7]);
    counts.observe(&[7, 8]);
    assert!(counts.flatten().is_empty());
    counts.observe(&[7, 8, 9]);
    assert_eq!(counts.flatten(), vec![entry(7, 8, 9, 1)]);
}

#[test]
fn windows_do_not_reach_from_one_line_into_the_next() {
    let mut counts = TrigramCounts::new();
    counts.observe(&[1, 2, 3]);
    counts.observe(&[4, 5, 6]);
    assert_eq!(counts.count(1, 2, 3), 1);
    assert_eq!(counts.count(4, 5, 6), 1);
    assert_eq!(counts.count(2, 3, 4), 0);
    assert_eq!(counts.count(3, 4, 5), 0);
}

#[test]
fn record_counts_one_at_a_time() {
    let mut counts = TrigramCounts::new();
    assert_eq!(counts.count(5, 6, 7), 0);
    counts.record(5, 6, 7);
    assert_eq!(counts.count(5, 6, 7), 1);
    counts.record(5, 6, 7);
    counts.record(5, 6, 8);
    assert_eq!(counts.count(5, 6, 7), 2);
    assert_eq!(counts.count(5, 6, 8), 1);
}

#[test]
fn trigrams_are_told_apart_by_each_of_their_ids() {
    let mut counts = TrigramCounts::new();
    counts.record(u32::MAX, 0, 0);
    counts.record(0, u32::MAX, 0);
    counts.record(0, 0, u32::MAX);
    counts.record(0, 0, 0);
    counts.record(u32::MAX, u32::MAX, u32::MAX);
    assert_eq!(counts.count(u32::MAX, 0, 0), 1);
    assert_eq!(counts.count(0, u32::MAX, 0), 1);
    assert_eq!(counts.count(0, 0, u32::MAX), 1);
    assert_eq!(counts.count(0, 0, 0), 1);
    assert_eq!(counts.count(u32::MAX, u32::MAX, u32::MAX), 1);
    assert_eq!(counts.count(1, 0, 0), 0);
    let mut entries = counts.flatten();
    entries.sort_by_key(|e| (e.w1, e.w2, e.w3));
    assert_eq!(
        entries,
        vec![
            entry(0, 0, 0, 1),
            entry(0, 0, u32::MAX, 1),
            entry(0, u32::MAX, 0, 1),
            entry(u32::MAX, 0, 0, 1),
            entry(u32::MAX, u32::MAX, u32::MAX, 1),
        ]
    );
}

#[test]
fn prune_removes_what_was_seen_too_rarely() {
    let mut counts = TrigramCounts::new();
    counts.observe(&[1, 2, 3]);
    counts.observe(&[1, 2, 4]);
    counts.observe(&[1, 2, 4]);
    counts.observe(&[1, 2, 5]);
    counts.observe(&[1, 2, 5]);
    counts.observe(&[1, 2, 5]);
    counts.prune(2);
    assert_eq!(counts.count(1, 2, 3), 0);
    assert_eq!(counts.count(1, 2, 4), 2);
    assert_eq!(counts.count(1, 2, 5), 3);
    counts.prune(3);
    assert_eq!(counts.count(1, 2, 4), 0);
    assert_eq!(counts.count(1, 2, 5), 3);
}

#[test]
fn prune_with_a_threshold_of_one_or_less_keeps_everything() {
    let mut counts = TrigramCounts::new();
    counts.observe(&[1, 2, 3, 4]);
    counts.prune(0);
    assert_eq!(counts.count(1, 2, 3), 1);
    counts.prune(1);
    assert_eq!(counts.count(2, 3, 4), 1);
    assert_eq!(counts.flatten().len(), 2);
}

#[test]
fn flatten_gives_each_trigram_once_with_its_count() {
    let mut counts = TrigramCounts::new();
    counts.observe(&[1, 2, 3, 1, 2, 3]);
    let mut entries = counts.flatten();
    entries.sort_by_key(|e| (e.w1, e.w2, e.w3));
    assert_eq!(
        entries,
        vec![entry(1, 2, 3, 2), entry(2, 3, 1, 1), entry(3, 1, 2, 1)]
    );
}

#[test]
fn an_index_is_ordered_by_context_then_count_then_continuation() {
    let mut counts = TrigramCounts::new();
    for _ in 0..3 {
        counts.record(2, 1, 9);
    }
    counts.record(2, 1, 4);
    counts.record(2, 1, 3);
    counts.record(1, 7, 0);
    for _ in 0..2 {
        counts.record(2, 0, 8);
    }
    counts.record(1, 2, 5);
    assert_eq!(
        build_index(&counts),
        vec![
            entry(1, 2, 5, 1),
            entry(1, 7, 0, 1),
            entry(2, 0, 8, 2),
            entry(2, 1, 9, 3),
            entry(2, 1, 3, 1),
            entry(2, 1, 4, 1),
        ]
    );
}

#[test]
fn every_context_of_an_index_stands_in_one_run() {
    let mut counts = TrigramCounts::new();
    let mut x: u32 = 12345;
    for _ in 0..2000 {
        x = x.wrapping_mul(1664525).wrapping_add(1013904223);
        counts.record((x >> 28) & 3, (x >> 24) & 3, (x >> 16) & 15);
    }
    let index = build_index(&counts);
    assert_eq!(index.len(), counts.flatten().len());
    for pair in index.windows(2) {
        assert!((pair[0].w1, pair[0].w2) <= (pair[1].w1, pair[1].w2));
        assert!(precedes(&pair[0], &pair[1]));
        assert_ne!(pair[0], pair[1]);
    }
    let mut seen: Vec<(u32, u32)> = Vec::new();
    for e in &index {
        let key = (e.w1, e.w2);
        if seen.last() != Some(&key) {
            assert!(!seen.contains(&key));
            seen.push(key);
        }
    }
    for e in &index {
        assert_eq!(counts.count(e.w1, e.w2, e.w3), e.count);
    }
}

#[test]
fn the_index_of_nothing_is_empty() {
    assert!(build_index(&TrigramCounts::new()).is_empty());
}

#[test]
fn sort_keeps_every_entry() {
    let entries = vec![
        entry(3, 0, 0, 1),
        entry(1, 0, 0, 1),
        entry(2, 0, 0, 1),
        entry(1, 0, 0, 1),
        entry(1, 0, 1, 5),
    ];
    assert_eq!(
        sort(entries),
        vec![
            entry(1, 0, 1, 5),
            entry(1, 0, 0, 1),
            entry(1, 0, 0, 1),
            entry(2, 0, 0, 1),
            entry(3, 0, 0, 1),
        ]
    );
    assert_eq!(sort(Vec::new()), Vec::<Entry>::new());
    assert_eq!(sort(vec![entry(9, 9, 9, 9)]), vec![entry(9, 9, 9, 9)]);
}

#[test]
fn precedes_orders_as_the_index_does() {
    assert!(precedes(&entry(1, 9, 9, 1), &entry(2, 0, 0, 9)));
    assert!(!precedes(&entry(2, 0, 0, 9), &entry(1, 9, 9, 1)));
    assert!(precedes(&entry(1, 1, 9, 1), &entry(1, 2, 0, 9)));
    assert!(precedes(&entry(1, 1, 9, 5), &entry(1, 1, 0, 4)));
    assert!(!precedes(&entry(1, 1, 0, 4), &entry(1, 1, 9, 5)));
    assert!(precedes(&entry(1, 1, 3, 4), &entry(1, 1, 7, 4)));
    assert!(!precedes(&entry(1, 1, 7, 4), &entry(1, 1, 3, 4)));
    assert!(precedes(&entry(1, 1, 3, 4), &entry(1, 1, 3, 4)));
}

#[test]
fn has_key_compares_both_words_of_the_context() {
    let e = entry(4, 5, 6, 7);
    assert!(e.has_key(4, 5));
    assert!(!e.has_key(5, 4));
    assert!(!e.has_key(4, 6));
}
