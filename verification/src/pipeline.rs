//! The per-shard processing path: decompress the fetched archive,
//! split it into lines, parse each line, and shape what survives
//! into rows for the writer.  Malformed lines are skipped, never
//! fatal to the shard.

use vstd::prelude::*;

use crate::models::NewOneGram;
use crate::parse::{parse, parse_spec, Entry, EntryModel};
use crate::text::{split, split_bytes, views_of};
use vstd::utf8::{decode_utf8, valid_utf8};

verus! {

/// Rows are flushed to the store in batches of this many.
pub const BULK_INSERT_SIZE: usize = 10000;

/// What decompressing a gzip archive yields; a function of the bytes
/// alone, or nothing when the archive is corrupt.
pub uninterp spec fn gunzip_of(gz: Seq<u8>) -> Option<Seq<u8>>;

/// Relies on flate2::read::GzDecoder (read to end over an in-memory
/// buffer): inflates one gzip member, deterministically in the input
/// bytes.
#[verifier::external_body]
fn gunzip(gz: &Vec<u8>) -> (r: Option<Vec<u8>>)
    ensures
        r is Some <==> gunzip_of(gz@) is Some,
        r is Some ==> gunzip_of(gz@) == Some(r.unwrap()@),
{
    let mut out: Vec<u8> = Vec::new();
    let mut decoder = flate2::read::GzDecoder::new(gz.as_slice());
    match std::io::Read::read_to_end(&mut decoder, &mut out) {
        Ok(_) => Some(out),
        Err(_) => None,
    }
}

/// Relies on core::str::from_utf8: `Some` exactly on valid UTF-8,
/// decoding the bytes to their characters.
#[verifier::external_body]
fn utf8_str<'a>(b: &'a [u8]) -> (r: Option<&'a str>)
    ensures
        r is Some <==> valid_utf8(b@),
        r is Some ==> r.unwrap()@ == decode_utf8(b@),
{
    core::str::from_utf8(b).ok()
}

/// The bytes as text, or nothing when they are not UTF-8.
pub fn bytes_to_string(b: &[u8]) -> (r: Option<String>)
    ensures
        r is Some <==> valid_utf8(b@),
        r is Some ==> r.unwrap()@ == decode_utf8(b@),
{
    match utf8_str(b) {
        Some(s) => Some(s.to_owned()),
        None => None,
    }
}

/// A line with its trailing carriage return removed, as text readers
/// treat network line endings.
pub open spec fn strip_cr(s: Seq<u8>) -> Seq<u8> {
    if s.len() > 0 && s.last() == '\r' as u8 {
        s.drop_last()
    } else {
        s
    }
}

/// The lines of a text: newline-separated, a final empty part (from
/// a trailing newline) dropped, carriage returns stripped.
pub open spec fn lines_of(data: Seq<u8>) -> Seq<Seq<u8>> {
    let parts = split_bytes(data, '\n' as u8);
    let trimmed = if parts.last() == Seq::<u8>::empty() {
        parts.drop_last()
    } else {
        parts
    };
    trimmed.map_values(|s: Seq<u8>| strip_cr(s))
}

/// Splits decompressed shard text into lines.
#[verifier::loop_isolation(false)]
pub fn shard_lines(data: &[u8]) -> (r: Vec<Vec<u8>>)
    ensures
        views_of(r@) == lines_of(data@),
{
    let mut parts = split(data, '\n' as u8);
    let ghost raw = split_bytes(data@, '\n' as u8);
    proof {
        crate::text::lemma_split_bytes_len(data@, '\n' as u8);
    }
    if parts.len() > 0 && parts[parts.len() - 1].len() == 0 {
        parts.pop();
        proof {
            assert(raw.last() =~= Seq::<u8>::empty());
            assert(views_of(parts@) =~= raw.drop_last());
        }
    }
    let ghost trimmed = views_of(parts@);
    let mut i: usize = 0;
    while i < parts.len()
        invariant
            0 <= i <= parts@.len(),
            parts@.len() == trimmed.len(),
            forall|j: int| i <= j < trimmed.len() ==> views_of(parts@)[j] == trimmed[j],
            forall|j: int| 0 <= j < i ==> views_of(parts@)[j] == strip_cr(trimmed[j]),
        decreases parts.len() - i,
    {
        let line_len = parts[i].len();
        let ghost before = views_of(parts@);
        if line_len > 0 && parts[i][line_len - 1] == '\r' as u8 {
            let last = parts[i].pop();
            proof {
                assert(views_of(parts@) =~= before.update(i as int, before[i as int].drop_last()));
            }
        }
        i = i + 1;
    }
    proof {
        assert(views_of(parts@) =~= trimmed.map_values(|s: Seq<u8>| strip_cr(s)));
        assert(trimmed =~= (if raw.last() == Seq::<u8>::empty() {
            raw.drop_last()
        } else {
            raw
        }));
    }
    parts
}

/// The views of parsed entries.
pub open spec fn entry_views(es: Seq<Entry>) -> Seq<EntryModel> {
    es.map_values(|e: Entry| e@)
}

/// The entries the parser accepts among `lines` at order `n`, in
/// line order; rejected lines are skipped.
pub open spec fn entries_of(lines: Seq<Seq<u8>>, n: int) -> Seq<EntryModel>
    decreases lines.len(),
{
    if lines.len() == 0 {
        Seq::empty()
    } else {
        entries_of(lines.drop_last(), n) + (match parse_spec(lines.last(), n) {
            Ok(e) => seq![e],
            Err(_) => Seq::<EntryModel>::empty(),
        })
    }
}

/// Parses every line of a shard at order `n`, keeping what is valid.
#[verifier::loop_isolation(false)]
pub fn extract_entries(lines: &Vec<Vec<u8>>, n: i64) -> (r: Vec<Entry>)
    requires
        1 <= n <= 5,
    ensures
        entry_views(r@) == entries_of(views_of(lines@), n as int),
        forall|i: int| 0 <= i < r@.len() ==> (#[trigger] r@[i]).score >= 0 && r@[i].ngram@.len() == n,
{
    let ghost lvs = views_of(lines@);
    let mut out: Vec<Entry> = Vec::new();
    let mut i: usize = 0;
    proof {
        assert(lvs.take(0) =~= Seq::<Seq<u8>>::empty());
        assert(entry_views(out@) =~= entries_of(lvs.take(0), n as int));
    }
    while i < lines.len()
        invariant
            0 <= i <= lines@.len(),
            entry_views(out@) == entries_of(lvs.take(i as int), n as int),
            forall|k: int|
                0 <= k < out@.len() ==> (#[trigger] out@[k]).score >= 0 && out@[k].ngram@.len()
                    == n,
        decreases lines.len() - i,
    {
        proof {
            assert(lvs.take(i + 1).drop_last() =~= lvs.take(i as int));
            assert(lvs.take(i + 1).last() == lvs[i as int]);
        }
        let ghost before = entry_views(out@);
        match parse(lines[i].as_slice(), n) {
            Ok(entry) => {
                out.push(entry);
                proof {
                    assert(entry_views(out@) =~= before.push(entry@));
                    assert(before.push(entry@) =~= entries_of(lvs.take(i + 1), n as int));
                }
            },
            Err(_) => {
                proof {
                    assert(entries_of(lvs.take(i + 1), n as int) =~= entries_of(
                        lvs.take(i as int),
                        n as int,
                    ));
                }
            },
        }
        i = i + 1;
    }
    proof {
        assert(lvs.take(lvs.len() as int) =~= lvs);
    }
    out
}

#[derive(Debug, Clone, Copy, PartialEq, Eq, Structural)]
pub enum ShardError {
    /// The fetched archive does not inflate as gzip.
    CorruptArchive,
}

/// Decompresses a fetched shard and parses its lines at order `n`.
pub fn shard_entries(gz: &Vec<u8>, n: i64) -> (r: Result<Vec<Entry>, ShardError>)
    requires
        1 <= n <= 5,
    ensures
        r is Ok <==> gunzip_of(gz@) is Some,
        r is Ok ==> entry_views(r.unwrap()@) == entries_of(
            lines_of(gunzip_of(gz@).unwrap()),
            n as int,
        ),
        r is Err ==> r == Err::<Vec<Entry>, ShardError>(ShardError::CorruptArchive),
{
    let data = match gunzip(gz) {
        Some(d) => d,
        None => {
            return Err(ShardError::CorruptArchive);
        },
    };
    let lines = shard_lines(data.as_slice());
    Ok(extract_entries(&lines, n))
}

/// The word-table content an entry run stages: one row per entry
/// whose single token is text, as (characters, score).
pub open spec fn one_rows_spec(es: Seq<EntryModel>) -> Seq<(Seq<char>, int)>
    decreases es.len(),
{
    if es.len() == 0 {
        Seq::empty()
    } else {
        let e = es.last();
        one_rows_spec(es.drop_last()) + (if e.ngram.len() == 1 && valid_utf8(e.ngram[0]) {
            seq![(decode_utf8(e.ngram[0]), e.score)]
        } else {
            Seq::<(Seq<char>, int)>::empty()
        })
    }
}

pub open spec fn one_gram_views(rows: Seq<NewOneGram>) -> Seq<(Seq<char>, int)> {
    rows.map_values(|r: NewOneGram| (r.word@, r.score as int))
}

/// Shapes order-one entries into word rows.  An entry whose token is
/// not text, or which is not of order one, is skipped.
#[verifier::loop_isolation(false)]
pub fn one_gram_rows(entries: &Vec<Entry>) -> (r: Vec<NewOneGram>)
    ensures
        one_gram_views(r@) == one_rows_spec(entry_views(entries@)),
{
    let ghost evs = entry_views(entries@);
    let mut out: Vec<NewOneGram> = Vec::new();
    let mut i: usize = 0;
    proof {
        assert(evs.take(0) =~= Seq::<EntryModel>::empty());
        assert(one_gram_views(out@) =~= one_rows_spec(evs.take(0)));
    }
    while i < entries.len()
        invariant
            0 <= i <= entries@.len(),
            one_gram_views(out@) == one_rows_spec(evs.take(i as int)),
        decreases entries.len() - i,
    {
        proof {
            assert(evs.take(i + 1).drop_last() =~= evs.take(i as int));
            assert(evs.take(i + 1).last() == evs[i as int]);
        }
        let ghost before = one_gram_views(out@);
        let entry = &entries[i];
        if entry.ngram.len() == 1 {
            match bytes_to_string(entry.ngram[0].as_slice()) {
                Some(word) => {
                    out.push(NewOneGram { word, score: entry.score });
                    proof {
                        assert(one_gram_views(out@) =~= before.push(
                            (decode_utf8(evs[i as int].ngram[0]), evs[i as int].score),
                        ));
                        assert(one_gram_views(out@) =~= one_rows_spec(evs.take(i + 1)));
                    }
                },
                None => {
                    proof {
                        assert(one_rows_spec(evs.take(i + 1)) =~= one_rows_spec(
                            evs.take(i as int),
                        ));
                    }
                },
            }
        } else {
            proof {
                assert(one_rows_spec(evs.take(i + 1)) =~= one_rows_spec(evs.take(i as int)));
            }
        }
        i = i + 1;
    }
    proof {
        assert(evs.take(evs.len() as int) =~= evs);
    }
    out
}

/// The rows of a run of batches, in order.
pub open spec fn concat_of<T>(bs: Seq<Seq<T>>) -> Seq<T>
    decreases bs.len(),
{
    if bs.len() == 0 {
        Seq::empty()
    } else {
        concat_of(bs.drop_last()) + bs.last()
    }
}

/// Splits rows into flush batches of at most `size`, keeping order:
/// every batch is non-empty, and together they hold exactly the
/// rows.
#[verifier::loop_isolation(false)]
pub fn batches<T>(rows: Vec<T>, size: usize) -> (r: Vec<Vec<T>>)
    requires
        size >= 1,
    ensures
        concat_of(r@.map_values(|b: Vec<T>| b@)) == rows@,
        forall|i: int| 0 <= i < r@.len() ==> 0 < (#[trigger] r@[i])@.len() <= size,
        forall|i: int| 0 <= i < r@.len() - 1 ==> (#[trigger] r@[i])@.len() == size,
{
    let mut rest = rows;
    let ghost whole = rest@;
    let mut out: Vec<Vec<T>> = Vec::new();
    proof {
        assert(concat_of(out@.map_values(|b: Vec<T>| b@)) =~= Seq::<T>::empty());
    }
    while rest.len() > size
        invariant
            concat_of(out@.map_values(|b: Vec<T>| b@)) + rest@ == whole,
            forall|i: int| 0 <= i < out@.len() ==> (#[trigger] out@[i])@.len() == size,
            size >= 1,
        decreases rest.len(),
    {
        let ghost done = out@.map_values(|b: Vec<T>| b@);
        let tail = rest.split_off(size);
        let head = rest;
        rest = tail;
        out.push(head);
        proof {
            assert(out@.map_values(|b: Vec<T>| b@) =~= done.push(head@));
            assert(done.push(head@).drop_last() =~= done);
            assert(concat_of(done.push(head@)) == concat_of(done) + head@);
            assert(concat_of(done) + head@ + rest@ =~= whole);
        }
    }
    if rest.len() > 0 {
        let ghost done = out@.map_values(|b: Vec<T>| b@);
        let last = rest;
        out.push(last);
        proof {
            assert(out@.map_values(|b: Vec<T>| b@) =~= done.push(last@));
            assert(done.push(last@).drop_last() =~= done);
            assert(concat_of(done.push(last@)) == concat_of(done) + last@);
            assert(concat_of(out@.map_values(|b: Vec<T>| b@)) =~= whole);
        }
    } else {
        proof {
            assert(concat_of(out@.map_values(|b: Vec<T>| b@)) + rest@ =~= concat_of(
                out@.map_values(|b: Vec<T>| b@),
            ));
        }
    }
    out
}

} // verus!
