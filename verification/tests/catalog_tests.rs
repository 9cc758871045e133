use ngram_ingest::catalog::{
    file_url, gen_queries, total_file_num, CatalogError, Language, Query,
};

#[test]
fn shard_counts_per_order() {
    assert_eq!(total_file_num(Language::English, 1), Ok(24));
    assert_eq!(total_file_num(Language::English, 2), Ok(589));
    assert_eq!(total_file_num(Language::English, 3), Ok(6881));
    assert_eq!(total_file_num(Language::English, 4), Ok(6668));
    assert_eq!(total_file_num(Language::English, 5), Ok(19423));
}

#[test]
fn orders_outside_range_are_errors() {
    assert_eq!(total_file_num(Language::English, 0), Err(CatalogError::InvalidOrder));
    assert_eq!(total_file_num(Language::English, 6), Err(CatalogError::InvalidOrder));
    assert_eq!(total_file_num(Language::English, -1), Err(CatalogError::InvalidOrder));
}

#[test]
fn queries_enumerate_every_shard_in_order() {
    let qs = gen_queries(Language::English, 1).unwrap();
    assert_eq!(qs.len(), 24);
    assert_eq!(qs[0], Query { lang: Language::English, n: 1, idx: 0 });
    assert_eq!(qs[23], Query { lang: Language::English, n: 1, idx: 23 });
    assert!(gen_queries(Language::English, 9).is_err());
}

#[test]
fn shard_url_is_zero_padded() {
    let q = Query { lang: Language::English, n: 1, idx: 0 };
    assert_eq!(
        file_url(&q).unwrap(),
        "http://storage.googleapis.com/books/ngrams/books/20200217/eng/1-00000-of-00024.gz"
    );
    let q = Query { lang: Language::English, n: 2, idx: 7 };
    assert_eq!(
        file_url(&q).unwrap(),
        "http://storage.googleapis.com/books/ngrams/books/20200217/eng/2-00007-of-00589.gz"
    );
    let q = Query { lang: Language::English, n: 5, idx: 19422 };
    assert_eq!(
        file_url(&q).unwrap(),
        "http://storage.googleapis.com/books/ngrams/books/20200217/eng/5-19422-of-19423.gz"
    );
}

#[test]
fn shard_url_rejects_bad_indices() {
    let q = Query { lang: Language::English, n: 1, idx: 24 };
    assert_eq!(file_url(&q), Err(CatalogError::InvalidShardIndex));
    let q = Query { lang: Language::English, n: 1, idx: -1 };
    assert_eq!(file_url(&q), Err(CatalogError::InvalidShardIndex));
    let q = Query { lang: Language::English, n: 7, idx: 0 };
    assert_eq!(file_url(&q), Err(CatalogError::InvalidOrder));
}

#[test]
fn language_codes() {
    assert_eq!(Language::from_code("eng"), Some(Language::English));
    assert_eq!(Language::from_code("de"), None);
    assert_eq!(Language::from_code(""), None);
}
