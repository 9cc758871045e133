use ngram_ingest::catalog::Language;
use ngram_ingest::ledger::{pending_queries, Ledger};
use ngram_ingest::models::FetchedFile;

#[test]
fn markers_are_point_lookups() {
    let mut ledger = Ledger::new();
    assert!(!ledger.is_complete(2, 3));
    ledger.mark_complete(2, 3);
    assert!(ledger.is_complete(2, 3));
    assert!(!ledger.is_complete(2, 4));
    assert!(!ledger.is_complete(3, 3));
}

#[test]
fn marking_twice_changes_nothing() {
    let mut ledger = Ledger::new();
    ledger.mark_complete(1, 7);
    ledger.mark_complete(1, 7);
    assert_eq!(ledger.rows().len(), 1);
}

#[test]
fn resume_skips_completed_shards() {
    let mut ledger = Ledger::new();
    ledger.mark_complete(2, 3);
    ledger.mark_complete(2, 17);
    let pending = pending_queries(Language::English, 2, &ledger).unwrap();
    assert_eq!(pending.len(), 587);
    assert!(pending.iter().all(|q| q.idx != 3 && q.idx != 17));
    assert_eq!(pending[0].idx, 0);
    assert_eq!(pending[3].idx, 4);
}

#[test]
fn fresh_ledger_leaves_all_work_pending() {
    let ledger = Ledger::new();
    let pending = pending_queries(Language::English, 1, &ledger).unwrap();
    assert_eq!(pending.len(), 24);
    assert!(pending_queries(Language::English, 0, &ledger).is_err());
}

#[test]
fn ledger_reloads_from_its_rows() {
    let mut ledger = Ledger::new();
    ledger.mark_complete(4, 11);
    ledger.mark_complete(5, 0);
    let rows = ledger.rows();
    assert_eq!(rows.len(), 2);
    let reloaded = Ledger::from_rows(&rows);
    assert!(reloaded.is_complete(4, 11));
    assert!(reloaded.is_complete(5, 0));
    assert!(!reloaded.is_complete(4, 0));
}

#[test]
fn ledger_loads_from_table_rows() {
    let rows = vec![FetchedFile { n: 2, idx: 3 }, FetchedFile { n: 2, idx: 5 }];
    let ledger = Ledger::from_rows(&rows);
    assert!(ledger.is_complete(2, 3));
    assert!(ledger.is_complete(2, 5));
    assert!(!ledger.is_complete(2, 4));
}
