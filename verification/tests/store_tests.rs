use ngram_ingest::catalog::Language;
use ngram_ingest::codec::NGramRow;
use ngram_ingest::ledger::{pending_queries, Ledger};
use ngram_ingest::models::{NewOneGram, NewTwoGram};
use ngram_ingest::store::Store;

fn two(word1: i64, word2: i64, score: i64) -> NGramRow {
    NGramRow::Two(NewTwoGram { word1, word2, score })
}

#[test]
fn reingesting_a_shard_adds_no_duplicates() {
    let mut store = Store::new();
    let batch = vec![two(1, 2, 10), two(3, 4, 20), two(5, 6, 30)];
    store.write_shard(2, 0, &batch);
    let once = store.row_count();
    store.write_shard(2, 0, &batch);
    assert_eq!(store.row_count(), once);
    assert!(store.is_complete(2, 0));
}

#[test]
fn duplicate_sequences_within_a_batch_are_ignored() {
    let mut store = Store::new();
    let batch = vec![two(1, 2, 10), two(1, 2, 99), two(3, 4, 20)];
    store.write_shard(2, 0, &batch);
    assert_eq!(store.row_count(), 2);
}

#[test]
fn same_ids_in_another_order_are_distinct_rows() {
    let mut store = Store::new();
    store.write_shard(2, 0, &vec![two(1, 2, 10)]);
    store.write_shard(3, 0, &vec![NGramRow::Three(ngram_ingest::models::NewThreeGram {
        word1: 1,
        word2: 2,
        word3: 3,
        score: 5,
    })]);
    assert_eq!(store.row_count(), 2);
}

#[test]
fn duplicate_words_are_ignored() {
    let mut store = Store::new();
    let batch = vec![
        NewOneGram { word: "hello".to_string(), score: 5 },
        NewOneGram { word: "hello".to_string(), score: 7 },
        NewOneGram { word: "world".to_string(), score: 1 },
    ];
    store.write_word_shard(0, &batch);
    assert_eq!(store.word_count(), 2);
    assert!(store.is_complete(1, 0));
}

#[test]
fn interrupted_shard_is_reprocessed_to_the_clean_outcome() {
    // A clean single run of shard (2, 3).
    let full = vec![two(1, 2, 10), two(3, 4, 20), two(5, 6, 30), two(7, 8, 40)];
    let mut clean = Store::new();
    clean.write_shard(2, 3, &full);

    // The same shard partially written, the process killed before
    // the ledger mark.
    let mut store = Store::new();
    let partial = vec![two(1, 2, 10), two(3, 4, 20)];
    store.write_rows(&partial);
    assert!(!store.is_complete(2, 3));

    // On restart the shard is still pending, so it is fetched and
    // fully reprocessed.
    let ledger = Ledger::from_rows(&store.ledger_rows());
    let pending = pending_queries(Language::English, 2, &ledger).unwrap();
    assert!(pending.iter().any(|q| q.idx == 3));
    store.write_shard(2, 3, &full);

    // The record counts match the clean run, and the marker is set.
    assert_eq!(store.row_count(), clean.row_count());
    assert!(store.is_complete(2, 3));

    // A further run skips the shard entirely.
    let ledger = Ledger::from_rows(&store.ledger_rows());
    let pending = pending_queries(Language::English, 2, &ledger).unwrap();
    assert!(pending.iter().all(|q| q.idx != 3));
}
