use ngram_ingest::codec::{ngram_row, parse_tsv_line, render_tsv_line, CodecError, NGramRow};
use ngram_ingest::models::{NewFiveGram, NewTwoGram};
use ngram_ingest::text::{parse_i64_digits, render_dec, split};

#[test]
fn staged_line_layout() {
    let line = render_tsv_line(&vec![3, 5], 12);
    assert_eq!(line, b"3\t5\t12".to_vec());
}

#[test]
fn staged_line_round_trips_order_two() {
    let line = render_tsv_line(&vec![3, 5], 12);
    let row = parse_tsv_line(&line, 2).unwrap();
    assert_eq!(row, NGramRow::Two(NewTwoGram { word1: 3, word2: 5, score: 12 }));
}

#[test]
fn staged_line_round_trips_order_five() {
    let line = render_tsv_line(&vec![1, 2, 3, 4, 5], 99);
    let row = parse_tsv_line(&line, 5).unwrap();
    assert_eq!(
        row,
        NGramRow::Five(NewFiveGram {
            word1: 1,
            word2: 2,
            word3: 3,
            word4: 4,
            word5: 5,
            score: 99,
        })
    );
}

#[test]
fn staged_line_errors() {
    assert_eq!(parse_tsv_line(b"1\t2\t3", 1), Err(CodecError::UnsupportedOrder));
    assert_eq!(parse_tsv_line(b"1\t2\t3", 6), Err(CodecError::UnsupportedOrder));
    assert_eq!(parse_tsv_line(b"1\t2\t3\t4", 2), Err(CodecError::InvalidColumnCount));
    assert_eq!(parse_tsv_line(b"1\tx\t3", 2), Err(CodecError::InvalidNumber));
    assert_eq!(parse_tsv_line(b"1\t\t3", 2), Err(CodecError::InvalidNumber));
}

#[test]
fn row_builder_checks_id_count() {
    assert!(ngram_row(2, &vec![1, 2], 5).is_ok());
    assert_eq!(ngram_row(2, &vec![1], 5), Err(CodecError::InvalidColumnCount));
    assert_eq!(ngram_row(1, &vec![1], 5), Err(CodecError::UnsupportedOrder));
}

#[test]
fn decimal_round_trip() {
    assert_eq!(render_dec(0), b"0".to_vec());
    assert_eq!(render_dec(10230), b"10230".to_vec());
    assert_eq!(parse_i64_digits(b"10230"), Some(10230));
    assert_eq!(parse_i64_digits(b""), None);
    assert_eq!(parse_i64_digits(b"12x"), None);
    assert_eq!(parse_i64_digits(b"9223372036854775807"), Some(i64::MAX));
    assert_eq!(parse_i64_digits(b"9223372036854775808"), None);
}

#[test]
fn splitting_keeps_empty_parts() {
    let parts = split(b"a\t\tb", b'\t');
    assert_eq!(parts, vec![b"a".to_vec(), b"".to_vec(), b"b".to_vec()]);
    assert_eq!(split(b"", b'\t'), vec![b"".to_vec()]);
}
