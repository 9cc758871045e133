use ngram_ingest::cache::{OneGramCache, Resolution};
use ngram_ingest::models::OneGram;
use std::collections::HashMap;

/// Drives the resolver protocol against a mock store, counting the
/// store round-trips.
fn resolve_with_store(
    cache: &mut OneGramCache,
    tokens: &Vec<Vec<u8>>,
    store: &HashMap<Vec<u8>, i64>,
    round_trips: &mut usize,
) -> Option<Vec<i64>> {
    loop {
        match cache.resolve_tokens(tokens) {
            Resolution::Resolved(ids) => return Some(ids),
            Resolution::Dropped => return None,
            Resolution::NeedsLookup(word) => {
                *round_trips += 1;
                cache.record(&word, store.get(&word).copied());
            },
        }
    }
}

#[test]
fn cached_resolution_asks_the_store_once() {
    let mut cache = OneGramCache::new(16);
    let mut store = HashMap::new();
    store.insert(b"hello".to_vec(), 4i64);
    store.insert(b"world".to_vec(), 9i64);
    let tokens = vec![b"hello".to_vec(), b"world".to_vec()];

    let mut round_trips = 0usize;
    let first = resolve_with_store(&mut cache, &tokens, &store, &mut round_trips);
    assert_eq!(first, Some(vec![4, 9]));
    assert_eq!(round_trips, 2);

    let second = resolve_with_store(&mut cache, &tokens, &store, &mut round_trips);
    assert_eq!(second, Some(vec![4, 9]));
    assert_eq!(round_trips, 2);
}

#[test]
fn unseen_word_drops_the_sequence_silently() {
    let mut cache = OneGramCache::new(16);
    let store = HashMap::new();
    let tokens = vec![b"unseen".to_vec(), b"phrase".to_vec()];

    let mut round_trips = 0usize;
    let outcome = resolve_with_store(&mut cache, &tokens, &store, &mut round_trips);
    assert_eq!(outcome, None);
    assert_eq!(round_trips, 1);

    // The absence is memoized: asking again costs nothing.
    let outcome = resolve_with_store(&mut cache, &tokens, &store, &mut round_trips);
    assert_eq!(outcome, None);
    assert_eq!(round_trips, 1);
}

#[test]
fn capacity_bounds_the_cache_by_evicting_the_oldest() {
    let mut cache = OneGramCache::new(2);
    cache.record(&b"a".to_vec(), Some(1));
    cache.record(&b"b".to_vec(), Some(2));
    cache.record(&b"c".to_vec(), Some(3));
    assert_eq!(cache.lookup(&b"a".to_vec()), None);
    assert_eq!(cache.lookup(&b"b".to_vec()), Some(Some(2)));
    assert_eq!(cache.lookup(&b"c".to_vec()), Some(Some(3)));
}

#[test]
fn lookups_refresh_recency() {
    let mut cache = OneGramCache::new(2);
    cache.record(&b"a".to_vec(), Some(1));
    cache.record(&b"b".to_vec(), Some(2));
    // Touch "a", making "b" the least recently used.
    assert_eq!(cache.lookup(&b"a".to_vec()), Some(Some(1)));
    cache.record(&b"c".to_vec(), Some(3));
    assert_eq!(cache.lookup(&b"a".to_vec()), Some(Some(1)));
    assert_eq!(cache.lookup(&b"b".to_vec()), None);
}

#[test]
fn updating_a_known_key_evicts_nothing() {
    let mut cache = OneGramCache::new(2);
    cache.record(&b"a".to_vec(), Some(1));
    cache.record(&b"b".to_vec(), Some(2));
    cache.record(&b"a".to_vec(), Some(7));
    assert_eq!(cache.lookup(&b"a".to_vec()), Some(Some(7)));
    assert_eq!(cache.lookup(&b"b".to_vec()), Some(Some(2)));
}

#[test]
fn word_rows_warm_the_cache() {
    let mut cache = OneGramCache::new(8);
    cache.record_row(&OneGram { id: 42, word: "hello".to_string(), score: 5 });
    assert_eq!(cache.lookup(&b"hello".to_vec()), Some(Some(42)));
}
