use ngram_ingest::download::{
    backoff_delay_ms, should_retry, status_is_success, FetchFailure, RetryPolicy,
};

fn policy() -> RetryPolicy {
    RetryPolicy { max_attempts: 5, base_delay_ms: 100, max_delay_ms: 1600 }
}

#[test]
fn backoff_doubles_until_the_cap() {
    let p = policy();
    assert_eq!(backoff_delay_ms(&p, 0), 100);
    assert_eq!(backoff_delay_ms(&p, 1), 200);
    assert_eq!(backoff_delay_ms(&p, 2), 400);
    assert_eq!(backoff_delay_ms(&p, 3), 800);
    assert_eq!(backoff_delay_ms(&p, 4), 1600);
    assert_eq!(backoff_delay_ms(&p, 5), 1600);
    assert_eq!(backoff_delay_ms(&p, 63), 1600);
}

#[test]
fn backoff_never_exceeds_the_cap() {
    let p = RetryPolicy { max_attempts: 3, base_delay_ms: 5000, max_delay_ms: 1600 };
    assert_eq!(backoff_delay_ms(&p, 0), 1600);
    assert_eq!(backoff_delay_ms(&p, 1), 1600);
}

#[test]
fn only_transient_failures_are_retried() {
    let p = policy();
    assert!(should_retry(&p, &FetchFailure::TimedOut, 0));
    assert!(should_retry(&p, &FetchFailure::ConnectFailed, 3));
    assert!(!should_retry(&p, &FetchFailure::TimedOut, 4));
    assert!(!should_retry(&p, &FetchFailure::MalformedResponse, 0));
    assert!(should_retry(&p, &FetchFailure::Status(503), 0));
    assert!(should_retry(&p, &FetchFailure::Status(404), 0));
    assert!(!should_retry(&p, &FetchFailure::Status(204), 0));
}

#[test]
fn success_statuses() {
    assert!(status_is_success(200));
    assert!(status_is_success(299));
    assert!(!status_is_success(199));
    assert!(!status_is_success(300));
    assert!(!status_is_success(404));
}
