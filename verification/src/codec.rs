//! The staging codec for resolved n-grams of order two through five.
//!
//! A resolved entry is staged as one text line: the constituent word
//! ids and the score, in decimal, separated by tabs.  Staged lines
//! are later read back and turned into rows for the order's table.
//! Writing a line and reading it back returns the same row.

use vstd::prelude::*;

use crate::models::{NewFiveGram, NewFourGram, NewThreeGram, NewTwoGram};
use crate::text::{
    contains_byte, dec_bytes, dec_value, is_digit, is_digits, join_bytes, lemma_dec_round_trip,
    lemma_split_join, parse_i64_digits, render_dec, split, split_bytes, views_of,
};

verus! {

/// A row for one of the order-two to order-five tables, tagged by
/// order.
#[derive(Debug, Clone, Copy, PartialEq, Eq, Structural)]
pub enum NGramRow {
    Two(NewTwoGram),
    Three(NewThreeGram),
    Four(NewFourGram),
    Five(NewFiveGram),
}

pub open spec fn row_order(r: NGramRow) -> int {
    match r {
        NGramRow::Two(_) => 2,
        NGramRow::Three(_) => 3,
        NGramRow::Four(_) => 4,
        NGramRow::Five(_) => 5,
    }
}

/// The constituent word ids of a row, in sequence order.
pub open spec fn row_ids(r: NGramRow) -> Seq<i64> {
    match r {
        NGramRow::Two(g) => seq![g.word1, g.word2],
        NGramRow::Three(g) => seq![g.word1, g.word2, g.word3],
        NGramRow::Four(g) => seq![g.word1, g.word2, g.word3, g.word4],
        NGramRow::Five(g) => seq![g.word1, g.word2, g.word3, g.word4, g.word5],
    }
}

pub open spec fn row_score(r: NGramRow) -> i64 {
    match r {
        NGramRow::Two(g) => g.score,
        NGramRow::Three(g) => g.score,
        NGramRow::Four(g) => g.score,
        NGramRow::Five(g) => g.score,
    }
}

#[derive(Debug, Clone, Copy, PartialEq, Eq, Structural)]
pub enum CodecError {
    /// The order is outside two through five.
    UnsupportedOrder,
    /// The line does not hold order-plus-one tab-separated fields.
    InvalidColumnCount,
    /// Some field is not a decimal number fitting an `i64`.
    InvalidNumber,
}

/// The fields of a staged line: each id in decimal, then the score.
pub open spec fn staged_fields(ids: Seq<i64>, score: int) -> Seq<Seq<u8>> {
    ids.map_values(|v: i64| dec_bytes(v as nat)).push(dec_bytes(score as nat))
}

/// A staged line: the fields joined by tabs.
pub open spec fn staged_line(ids: Seq<i64>, score: int) -> Seq<u8> {
    join_bytes(staged_fields(ids, score), '\t' as u8)
}

/// The row of order `n` holding `ids` and `score`.
pub open spec fn row_of_ids(n: int, ids: Seq<i64>, score: i64) -> NGramRow {
    if n == 2 {
        NGramRow::Two(NewTwoGram { word1: ids[0], word2: ids[1], score })
    } else if n == 3 {
        NGramRow::Three(NewThreeGram { word1: ids[0], word2: ids[1], word3: ids[2], score })
    } else if n == 4 {
        NGramRow::Four(
            NewFourGram { word1: ids[0], word2: ids[1], word3: ids[2], word4: ids[3], score },
        )
    } else {
        NGramRow::Five(
            NewFiveGram {
                word1: ids[0],
                word2: ids[1],
                word3: ids[2],
                word4: ids[3],
                word5: ids[4],
                score,
            },
        )
    }
}

/// Builds the order-`n` row from resolved ids and a score.
pub fn ngram_row(n: i64, ids: &Vec<i64>, score: i64) -> (r: Result<NGramRow, CodecError>)
    ensures
        !(2 <= n <= 5) ==> r == Err::<NGramRow, CodecError>(CodecError::UnsupportedOrder),
        2 <= n <= 5 && ids@.len() != n ==> r == Err::<NGramRow, CodecError>(
            CodecError::InvalidColumnCount,
        ),
        2 <= n <= 5 && ids@.len() == n ==> r == Ok::<NGramRow, CodecError>(
            row_of_ids(n as int, ids@, score),
        ),
{
    if n < 2 || n > 5 {
        return Err(CodecError::UnsupportedOrder);
    }
    if ids.len() != n as usize {
        return Err(CodecError::InvalidColumnCount);
    }
    if n == 2 {
        Ok(NGramRow::Two(NewTwoGram { word1: ids[0], word2: ids[1], score }))
    } else if n == 3 {
        Ok(NGramRow::Three(NewThreeGram { word1: ids[0], word2: ids[1], word3: ids[2], score }))
    } else if n == 4 {
        Ok(
            NGramRow::Four(
                NewFourGram { word1: ids[0], word2: ids[1], word3: ids[2], word4: ids[3], score },
            ),
        )
    } else {
        Ok(
            NGramRow::Five(
                NewFiveGram {
                    word1: ids[0],
                    word2: ids[1],
                    word3: ids[2],
                    word4: ids[3],
                    word5: ids[4],
                    score,
                },
            ),
        )
    }
}

/// The bytes of `parts` each followed by one separator.
pub open spec fn joined_prefix(parts: Seq<Seq<u8>>, sep: u8) -> Seq<u8>
    decreases parts.len(),
{
    if parts.len() == 0 {
        Seq::<u8>::empty()
    } else {
        joined_prefix(parts.drop_last(), sep) + parts.last() + seq![sep]
    }
}

proof fn lemma_joined_prefix(parts: Seq<Seq<u8>>, sep: u8)
    requires
        parts.len() >= 1,
    ensures
        joined_prefix(parts, sep) == join_bytes(parts, sep) + seq![sep],
    decreases parts.len(),
{
    if parts.len() == 1 {
        assert(parts.drop_last().len() == 0);
        assert(joined_prefix(parts.drop_last(), sep) == Seq::<u8>::empty());
        assert(joined_prefix(parts, sep) =~= join_bytes(parts, sep) + seq![sep]);
    } else {
        lemma_joined_prefix(parts.drop_last(), sep);
        assert(joined_prefix(parts, sep) =~= join_bytes(parts, sep) + seq![sep]);
    }
}

/// Stages one resolved entry as a line of tab-separated decimals.
#[verifier::loop_isolation(false)]
pub fn render_tsv_line(ids: &Vec<i64>, score: i64) -> (r: Vec<u8>)
    requires
        ids@.len() >= 1,
        forall|i: int| 0 <= i < ids@.len() ==> ids@[i] >= 0,
        score >= 0,
    ensures
        r@ == staged_line(ids@, score as int),
{
    let ghost id_fields = ids@.map_values(|v: i64| dec_bytes(v as nat));
    let mut out: Vec<u8> = Vec::new();
    let mut i: usize = 0;
    proof {
        assert(id_fields.take(0) =~= Seq::<Seq<u8>>::empty());
        assert(out@ =~= joined_prefix(id_fields.take(0), '\t' as u8));
    }
    while i < ids.len()
        invariant
            0 <= i <= ids@.len(),
            out@ == joined_prefix(id_fields.take(i as int), '\t' as u8),
        decreases ids.len() - i,
    {
        let digits = render_dec(ids[i] as u64);
        out.extend_from_slice(digits.as_slice());
        out.push('\t' as u8);
        proof {
            assert(id_fields.take(i + 1).drop_last() =~= id_fields.take(i as int));
            assert(id_fields.take(i + 1).last() == dec_bytes(ids@[i as int] as nat));
            assert(out@ =~= joined_prefix(id_fields.take(i + 1), '\t' as u8));
        }
        i = i + 1;
    }
    let digits = render_dec(score as u64);
    out.extend_from_slice(digits.as_slice());
    proof {
        assert(id_fields.take(ids@.len() as int) =~= id_fields);
        lemma_joined_prefix(id_fields, '\t' as u8);
        let fields = staged_fields(ids@, score as int);
        assert(fields.drop_last() =~= id_fields);
        assert(join_bytes(fields, '\t' as u8) == join_bytes(id_fields, '\t' as u8).push(
            '\t' as u8,
        ) + dec_bytes(score as nat));
        assert(out@ =~= staged_line(ids@, score as int));
    }
    out
}

/// What reading a staged line returns: the checks run in order, and
/// a well-formed line of order `n` yields its row.
pub open spec fn parse_tsv_spec(line: Seq<u8>, n: int) -> Result<NGramRow, CodecError> {
    if !(2 <= n <= 5) {
        Err(CodecError::UnsupportedOrder)
    } else {
        let fields = split_bytes(line, '\t' as u8);
        if fields.len() != n + 1 {
            Err(CodecError::InvalidColumnCount)
        } else if exists|i: int|
            0 <= i < fields.len() && !(is_digits(#[trigger] fields[i]) && dec_value(fields[i])
                <= i64::MAX) {
            Err(CodecError::InvalidNumber)
        } else {
            Ok(row_of_ids(n, fields.map_values(|f: Seq<u8>| dec_value(f) as i64), dec_value(
                fields[n],
            ) as i64))
        }
    }
}

/// Law: staging a resolved entry and reading the line back returns
/// exactly the row of its ids and score.
pub proof fn lemma_staging_round_trip(ids: Seq<i64>, score: i64, n: int)
    requires
        2 <= n <= 5,
        ids.len() == n,
        forall|i: int| 0 <= i < ids.len() ==> ids[i] >= 0,
        score >= 0,
    ensures
        parse_tsv_spec(staged_line(ids, score as int), n) == Ok::<NGramRow, CodecError>(
            row_of_ids(n, ids, score),
        ),
{
    let sep = '\t' as u8;
    let fields = staged_fields(ids, score as int);
    assert(fields.len() == n + 1);
    assert forall|i: int| 0 <= i < fields.len() implies is_digits(#[trigger] fields[i])
        && dec_value(fields[i]) == (if i < n {
        ids[i] as int
    } else {
        score as int
    }) && dec_value(fields[i]) <= i64::MAX && !contains_byte(fields[i], sep) by {
        let v: nat = if i < n {
            ids[i] as nat
        } else {
            score as nat
        };
        assert(fields[i] == dec_bytes(v));
        lemma_dec_round_trip(v);
        if contains_byte(fields[i], sep) {
            let j = choose|j: int| 0 <= j < fields[i].len() && fields[i][j] == sep;
            assert(is_digit(fields[i][j]));
        }
    }
    lemma_split_join(fields, sep);
    let parsed = fields.map_values(|f: Seq<u8>| dec_value(f) as i64);
    assert(parse_tsv_spec(staged_line(ids, score as int), n) == Ok::<NGramRow, CodecError>(
        row_of_ids(n, parsed, dec_value(fields[n]) as i64),
    ));
    assert(row_of_ids(n, parsed, dec_value(fields[n]) as i64) == row_of_ids(n, ids, score));
}

/// Reads one staged line back as the row of order `n`.
#[verifier::loop_isolation(false)]
pub fn parse_tsv_line(line: &[u8], n: i64) -> (r: Result<NGramRow, CodecError>)
    ensures
        match r {
            Ok(row) => parse_tsv_spec(line@, n as int) == Ok::<NGramRow, CodecError>(row),
            Err(e) => parse_tsv_spec(line@, n as int) == Err::<NGramRow, CodecError>(e),
        },
{
    if n < 2 || n > 5 {
        return Err(CodecError::UnsupportedOrder);
    }
    let fields = split(line, '\t' as u8);
    let ghost spec_fields = split_bytes(line@, '\t' as u8);
    if fields.len() != (n as usize) + 1 {
        return Err(CodecError::InvalidColumnCount);
    }
    let mut vals: Vec<i64> = Vec::new();
    let mut i: usize = 0;
    while i < fields.len()
        invariant
            0 <= i <= fields@.len(),
            vals@.len() == i,
            forall|j: int|
                0 <= j < i ==> is_digits(#[trigger] spec_fields[j]) && dec_value(spec_fields[j])
                    <= i64::MAX && vals@[j] == dec_value(spec_fields[j]),
        decreases fields.len() - i,
    {
        let v = match parse_i64_digits(fields[i].as_slice()) {
            Some(v) => v,
            None => {
                return Err(CodecError::InvalidNumber);
            },
        };
        vals.push(v);
        i = i + 1;
    }
    let ghost all_vals = vals@;
    proof {
        assert(all_vals =~= spec_fields.map_values(|f: Seq<u8>| dec_value(f) as i64));
    }
    let score = vals[(n as usize)];
    vals.truncate(n as usize);
    match ngram_row(n, &vals, score) {
        Ok(row) => {
            proof {
                assert(row == row_of_ids(n as int, all_vals, score));
            }
            Ok(row)
        },
        Err(_) => Err(CodecError::InvalidColumnCount),
    }
}

} // verus!
