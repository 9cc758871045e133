use ngram_ingest::parse::{is_valid_word, parse, parse_year_record, ParseError};

#[test]
fn two_gram_line_parses_with_summed_score() {
    let entry = parse(b"hello world\t2012,5,9\t2013,7,10", 2).unwrap();
    assert_eq!(entry.ngram, vec![b"hello".to_vec(), b"world".to_vec()]);
    assert_eq!(entry.score, 12);
}

#[test]
fn pos_suffixed_token_is_rejected() {
    assert_eq!(parse(b"cat_NOUN\t1999,3,4", 1), Err(ParseError::InvalidToken));
}

#[test]
fn bare_pos_marker_is_rejected() {
    assert_eq!(parse(b"_NOUN_\t1999,3,4", 1), Err(ParseError::InvalidToken));
    assert_eq!(parse(b"_X_\t1999,3,4", 1), Err(ParseError::InvalidToken));
}

#[test]
fn line_without_counts_is_invalid() {
    assert_eq!(parse(b"hello", 1), Err(ParseError::InvalidLine));
    assert_eq!(parse(b"", 1), Err(ParseError::InvalidLine));
}

#[test]
fn token_count_must_match_order() {
    assert_eq!(parse(b"a b\t1,2,3", 1), Err(ParseError::InvalidSequenceLength));
    assert_eq!(parse(b"a\t1,2,3", 2), Err(ParseError::InvalidSequenceLength));
}

#[test]
fn empty_token_is_rejected() {
    assert_eq!(parse(b"a \t1,2,3", 2), Err(ParseError::InvalidToken));
}

#[test]
fn malformed_year_records_are_rejected() {
    assert_eq!(parse(b"a\t1,2", 1), Err(ParseError::InvalidYearRecord));
    assert_eq!(parse(b"a\t1,2,3,4", 1), Err(ParseError::InvalidYearRecord));
    assert_eq!(parse(b"a\t1,x,3", 1), Err(ParseError::InvalidYearRecord));
    assert_eq!(parse(b"a\t1,-2,3", 1), Err(ParseError::InvalidYearRecord));
    assert_eq!(parse(b"a\t,,", 1), Err(ParseError::InvalidYearRecord));
}

#[test]
fn overflowing_score_is_rejected() {
    let line = b"a\t2000,9223372036854775807,1\t2001,1,1";
    assert_eq!(parse(line, 1), Err(ParseError::InvalidYearRecord));
}

#[test]
fn score_at_the_limit_is_kept() {
    let line = b"a\t2000,9223372036854775807,1";
    let entry = parse(line, 1).unwrap();
    assert_eq!(entry.score, i64::MAX);
}

#[test]
fn word_validity() {
    assert!(is_valid_word(b"cat"));
    assert!(is_valid_word(b"NOUN"));
    assert!(!is_valid_word(b""));
    assert!(!is_valid_word(b"cat_NOUN"));
    assert!(!is_valid_word(b"cat_."));
    assert!(!is_valid_word(b"_ADV_"));
}

#[test]
fn year_record_match_count() {
    assert_eq!(parse_year_record(b"2012,5,9"), Some(5));
    assert_eq!(parse_year_record(b"2012,5"), None);
    assert_eq!(parse_year_record(b"2012,5,9,1"), None);
    assert_eq!(parse_year_record(b"2012,five,9"), None);
}
