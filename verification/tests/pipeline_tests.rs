use flate2::write::GzEncoder;
use flate2::Compression;
use ngram_ingest::pipeline::{
    batches, bytes_to_string, extract_entries, one_gram_rows, shard_entries, shard_lines,
    ShardError, BULK_INSERT_SIZE,
};
use std::io::Write;

fn gzip(data: &[u8]) -> Vec<u8> {
    let mut encoder = GzEncoder::new(Vec::new(), Compression::default());
    encoder.write_all(data).unwrap();
    encoder.finish().unwrap()
}

#[test]
fn lines_split_and_strip_endings() {
    let lines = shard_lines(b"a\nb\r\nc\n");
    assert_eq!(lines, vec![b"a".to_vec(), b"b".to_vec(), b"c".to_vec()]);
    let lines = shard_lines(b"a\nb");
    assert_eq!(lines, vec![b"a".to_vec(), b"b".to_vec()]);
    assert_eq!(shard_lines(b""), Vec::<Vec<u8>>::new());
}

#[test]
fn malformed_lines_are_skipped_not_fatal() {
    let lines = vec![
        b"hello world\t2012,5,9".to_vec(),
        b"cat_NOUN bad\t1999,3,4".to_vec(),
        b"broken".to_vec(),
        b"good line\t2000,1,1\t2001,2,2".to_vec(),
    ];
    let entries = extract_entries(&lines, 2);
    assert_eq!(entries.len(), 2);
    assert_eq!(entries[0].score, 5);
    assert_eq!(entries[1].score, 3);
}

#[test]
fn shard_bytes_decompress_and_parse() {
    let text = b"hello world\t2012,5,9\t2013,7,10\nbad_NOUN line\t1,1,1\nfoo bar\t1999,2,2\n";
    let gz = gzip(text);
    let entries = shard_entries(&gz, 2).unwrap();
    assert_eq!(entries.len(), 2);
    assert_eq!(entries[0].ngram, vec![b"hello".to_vec(), b"world".to_vec()]);
    assert_eq!(entries[0].score, 12);
    assert_eq!(entries[1].ngram, vec![b"foo".to_vec(), b"bar".to_vec()]);
    assert_eq!(entries[1].score, 2);
}

#[test]
fn corrupt_archive_is_reported() {
    assert_eq!(shard_entries(&b"not gzip".to_vec(), 2), Err(ShardError::CorruptArchive));
}

#[test]
fn word_rows_from_order_one_entries() {
    let gz = gzip(b"hello\t2012,5,9\nworld\t2013,7,10\n");
    let entries = shard_entries(&gz, 1).unwrap();
    let rows = one_gram_rows(&entries);
    assert_eq!(rows.len(), 2);
    assert_eq!(rows[0].word, "hello");
    assert_eq!(rows[0].score, 5);
    assert_eq!(rows[1].word, "world");
    assert_eq!(rows[1].score, 7);
}

#[test]
fn non_text_words_are_skipped() {
    let mut line = vec![0xFFu8];
    line.extend_from_slice(b"\t2000,3,1");
    let entries = extract_entries(&vec![line], 1);
    assert_eq!(entries.len(), 1);
    let rows = one_gram_rows(&entries);
    assert_eq!(rows.len(), 0);
}

#[test]
fn text_decoding() {
    assert_eq!(bytes_to_string(b"abc"), Some("abc".to_string()));
    assert_eq!(bytes_to_string(&[0xFF]), None);
}

#[test]
fn batching_keeps_order_and_bounds() {
    let rows: Vec<u32> = (0..25).collect();
    let chunks = batches(rows, 10);
    assert_eq!(chunks.len(), 3);
    assert_eq!(chunks[0].len(), 10);
    assert_eq!(chunks[1].len(), 10);
    assert_eq!(chunks[2].len(), 5);
    let flat: Vec<u32> = chunks.concat();
    assert_eq!(flat, (0..25).collect::<Vec<u32>>());
    assert_eq!(batches(Vec::<u32>::new(), 10).len(), 0);
    assert_eq!(BULK_INSERT_SIZE, 10000);
}
