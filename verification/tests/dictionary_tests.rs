use std::sync::Arc;

use keyvi::dictionary::Dictionary;
use keyvi::index::{build_index, OpenError};
use keyvi::strategy::LoadingStrategyTypes;

fn sample_image() -> Vec<u8> {
    // Keys must be in strictly increasing lexicographic order.
    let keys: Vec<Vec<u8>> = vec![b"car".to_vec(), b"cat".to_vec(), b"dog".to_vec()];
    let values: Vec<Vec<u8>> = vec![b"2".to_vec(), b"1".to_vec(), b"3".to_vec()];
    build_index(&keys, &values).unwrap()
}

fn sample_dictionary() -> Dictionary {
    Dictionary::new(sample_image()).unwrap()
}

#[test]
fn get_present_key_round_trips_value() {
    let d = sample_dictionary();
    let m = d.get(&b"cat".to_vec());
    assert!(!m.is_empty());
    assert_eq!(m.matched_key(), &b"cat".to_vec());
    assert_eq!(m.value_bytes(), &b"1".to_vec());
    assert_eq!(m.get_score(), 0);
}

#[test]
fn get_every_built_key_returns_its_value() {
    let keys: Vec<Vec<u8>> = vec![b"a".to_vec(), b"ab".to_vec(), b"b".to_vec(), b"ba".to_vec()];
    let values: Vec<Vec<u8>> = vec![b"1".to_vec(), b"22".to_vec(), vec![], b"4444".to_vec()];
    let image = build_index(&keys, &values).unwrap();
    let d = Dictionary::new(image).unwrap();
    for (k, v) in keys.iter().zip(values.iter()) {
        let m = d.get(k);
        assert!(!m.is_empty());
        assert_eq!(m.matched_key(), k);
        assert_eq!(m.value_bytes(), v);
    }
}

#[test]
fn get_absent_key_returns_empty_match() {
    let d = sample_dictionary();
    let m = d.get(&b"ca".to_vec());
    assert!(m.is_empty());
    assert_eq!(m.value_bytes().len(), 0);
    let m2 = d.get(&b"zebra".to_vec());
    assert!(m2.is_empty());
}

#[test]
fn size_counts_entries() {
    let d = sample_dictionary();
    assert_eq!(d.size(), 3);
}

#[test]
fn statistics_reports_size() {
    let d = sample_dictionary();
    assert_eq!(d.statistics(), "size=3");
}

#[test]
fn get_all_items_enumerates_each_entry_once_in_key_order() {
    let d = sample_dictionary();
    let mut it = d.get_all_items();
    let mut seen: Vec<(Vec<u8>, Vec<u8>)> = Vec::new();
    while !it.is_exhausted() {
        let m = it.current();
        assert!(!m.is_empty());
        seen.push((m.matched_key().clone(), m.value_bytes().clone()));
        it.advance();
    }
    assert_eq!(seen.len(), d.size());
    assert_eq!(
        seen,
        vec![
            (b"car".to_vec(), b"2".to_vec()),
            (b"cat".to_vec(), b"1".to_vec()),
            (b"dog".to_vec(), b"3".to_vec()),
        ]
    );
}

#[test]
fn iterator_protocol_reports_remaining_and_exhaustion() {
    let d = sample_dictionary();
    let mut it = d.get_all_items();
    assert_eq!(it.remaining(), 3);
    assert!(!it.is_exhausted());
    it.advance();
    it.advance();
    assert_eq!(it.remaining(), 1);
    it.advance();
    assert!(it.is_exhausted());
    assert_eq!(it.remaining(), 0);
}

#[test]
fn prefix_completions_unbounded_returns_all_matches_in_order() {
    let d = sample_dictionary();
    let mut it = d.get_prefix_completions(&b"ca".to_vec(), 0);
    let mut keys: Vec<Vec<u8>> = Vec::new();
    while !it.is_exhausted() {
        keys.push(it.current().matched_key().clone());
        it.advance();
    }
    assert_eq!(keys, vec![b"car".to_vec(), b"cat".to_vec()]);
}

#[test]
fn prefix_completions_respect_cutoff() {
    let d = sample_dictionary();
    let it = d.get_prefix_completions(&b"ca".to_vec(), 1);
    assert_eq!(it.remaining(), 1);
    let m = it.current();
    assert_eq!(m.matched_key(), &b"car".to_vec());
}

#[test]
fn prefix_completions_of_absent_prefix_are_empty() {
    let d = sample_dictionary();
    let it = d.get_prefix_completions(&b"x".to_vec(), 0);
    assert!(it.is_exhausted());
}

#[test]
fn empty_prefix_completes_to_everything() {
    let d = sample_dictionary();
    let it = d.get_prefix_completions(&Vec::new(), 0);
    assert_eq!(it.remaining(), 3);
}

#[test]
fn fuzzy_returns_only_keys_within_distance() {
    let d = sample_dictionary();
    // "cot": "cat" at distance 1; "car" at 2; "dog" at 2 - only "cat" survives.
    let mut it = d.get_fuzzy(&b"cot".to_vec(), 1);
    assert_eq!(it.remaining(), 1);
    let m = it.current();
    assert_eq!(m.matched_key(), &b"cat".to_vec());
    assert_eq!(m.value_bytes(), &b"1".to_vec());
    // Similarity score: distance 1 out of a budget of 1 leaves 0.
    assert_eq!(m.get_score(), 0);
    it.advance();
    assert!(it.is_exhausted());
}

#[test]
fn fuzzy_orders_by_distance_then_key() {
    let d = sample_dictionary();
    let mut it = d.get_fuzzy(&b"cat".to_vec(), 2);
    let mut seen: Vec<(Vec<u8>, usize)> = Vec::new();
    while !it.is_exhausted() {
        seen.push((it.current().matched_key().clone(), it.current().get_score()));
        it.advance();
    }
    // "cat" at distance 0, "car" at distance 1; "dog" at 3 stays out.
    // Scores rank by similarity: the closer match scores higher.
    assert_eq!(seen, vec![(b"cat".to_vec(), 2), (b"car".to_vec(), 1)]);
    assert!(seen[0].1 > seen[1].1);
}

#[test]
fn fuzzy_distance_zero_is_exact_lookup() {
    let d = sample_dictionary();
    let it = d.get_fuzzy(&b"dog".to_vec(), 0);
    assert_eq!(it.remaining(), 1);
    assert_eq!(it.current().matched_key(), &b"dog".to_vec());
    assert_eq!(it.current().get_score(), 0);
}

#[test]
fn multi_word_completions_normalize_whitespace() {
    let keys: Vec<Vec<u8>> = vec![
        b"mobile case".to_vec(),
        b"mobile phone".to_vec(),
        b"mobile phones".to_vec(),
    ];
    let values: Vec<Vec<u8>> = vec![b"c".to_vec(), b"p".to_vec(), b"q".to_vec()];
    let image = build_index(&keys, &values).unwrap();
    let d = Dictionary::new(image).unwrap();
    let mut it = d.get_multi_word_completions(&b"  mobile \t ph".to_vec(), 0);
    let mut seen: Vec<Vec<u8>> = Vec::new();
    while !it.is_exhausted() {
        seen.push(it.current().matched_key().clone());
        it.advance();
    }
    assert_eq!(seen, vec![b"mobile phone".to_vec(), b"mobile phones".to_vec()]);
}

#[test]
fn multi_word_completions_respect_cutoff() {
    let keys: Vec<Vec<u8>> = vec![b"pet bed".to_vec(), b"pet bowl".to_vec()];
    let values: Vec<Vec<u8>> = vec![b"1".to_vec(), b"2".to_vec()];
    let image = build_index(&keys, &values).unwrap();
    let d = Dictionary::new(image).unwrap();
    let it = d.get_multi_word_completions(&b"pet b".to_vec(), 1);
    assert_eq!(it.remaining(), 1);
    assert_eq!(it.current().matched_key(), &b"pet bed".to_vec());
}

#[test]
fn multi_word_completions_of_empty_phrase_return_everything() {
    let d = sample_dictionary();
    let it = d.get_multi_word_completions(&Vec::new(), 0);
    assert_eq!(it.remaining(), 3);
}

#[test]
fn fuzzy_with_empty_query_matches_only_short_keys() {
    let keys: Vec<Vec<u8>> = vec![b"".to_vec(), b"a".to_vec(), b"ab".to_vec()];
    let values: Vec<Vec<u8>> = vec![b"0".to_vec(), b"1".to_vec(), b"2".to_vec()];
    let d = Dictionary::new(build_index(&keys, &values).unwrap()).unwrap();
    let mut it = d.get_fuzzy(&Vec::new(), 1);
    let mut seen: Vec<(Vec<u8>, usize)> = Vec::new();
    while !it.is_exhausted() {
        seen.push((it.current().matched_key().clone(), it.current().get_score()));
        it.advance();
    }
    // The exact match keeps the whole budget of 1; "a" at distance 1 keeps none.
    assert_eq!(seen, vec![(b"".to_vec(), 1), (b"a".to_vec(), 0)]);
}

#[test]
fn the_empty_key_is_a_key_like_any_other() {
    let keys: Vec<Vec<u8>> = vec![b"".to_vec(), b"a".to_vec()];
    let values: Vec<Vec<u8>> = vec![b"root".to_vec(), b"1".to_vec()];
    let d = Dictionary::new(build_index(&keys, &values).unwrap()).unwrap();
    let m = d.get(&Vec::new());
    assert!(!m.is_empty());
    assert_eq!(m.value_bytes(), &b"root".to_vec());
}

#[test]
fn open_with_strategy_keeps_the_strategy() {
    let image = sample_image();
    let d = Dictionary::new_with_strategy(image, LoadingStrategyTypes::POPULATE).unwrap();
    assert_eq!(d.strategy, LoadingStrategyTypes::POPULATE);
    assert_eq!(d.size(), 3);
}

#[test]
fn shared_readers_agree_with_sequential_results() {
    // Queries never take the dictionary mutably, so any number of owners
    // of one shared dictionary read the very results of sequential calls.
    let d = Arc::new(sample_dictionary());
    let expected: Vec<(Vec<u8>, bool, Vec<u8>)> = vec![
        (b"car".to_vec(), true, b"2".to_vec()),
        (b"cat".to_vec(), true, b"1".to_vec()),
        (b"dog".to_vec(), true, b"3".to_vec()),
        (b"ca".to_vec(), false, Vec::new()),
        (b"cart".to_vec(), false, Vec::new()),
    ];
    let readers: Vec<Arc<Dictionary>> = (0..4).map(|_| Arc::clone(&d)).collect();
    for reader in &readers {
        for (k, found, v) in &expected {
            let m = reader.get(k);
            assert_eq!(!m.is_empty(), *found);
            if *found {
                assert_eq!(m.value_bytes(), v);
            }
        }
    }
}

#[test]
fn open_rejects_truncated_image() {
    let mut image = sample_image();
    image.pop();
    assert_eq!(Dictionary::new(image).unwrap_err(), OpenError::CorruptFormat);
}

#[test]
fn open_rejects_trailing_garbage() {
    let mut image = sample_image();
    image.push(0);
    assert_eq!(Dictionary::new(image).unwrap_err(), OpenError::CorruptFormat);
}
