//! The entry parser: turns one decompressed corpus line into a
//! validated n-gram with its aggregate score.
//!
//! A line holds a sequence part and one or more year-count parts,
//! separated by tabs.  The sequence part holds exactly `n`
//! space-separated tokens; tokens that are part-of-speech markers or
//! carry a part-of-speech suffix disqualify the whole line.  Each
//! year-count part holds three comma-separated numeric fields (year,
//! match count, volume count); the aggregate score is the sum of the
//! match counts.

use vstd::prelude::*;

use crate::text::{
    bytes_eq, dec_value, ends_with, has_suffix, is_digit, is_digits, lemma_dec_value_nonneg,
    parse_i64_digits, split, split_bytes, views_of,
};
use vstd::string::StrSliceExecFns;
use vstd::utf8::encode_utf8;

verus! {

/// The part-of-speech suffixes that disqualify a token; a token equal
/// to such a suffix with a closing underscore (a bare marker) is
/// disqualified as well.
pub open spec fn pos_suffix_list() -> Seq<Seq<u8>> {
    seq![
        encode_utf8("_NOUN"@),
        encode_utf8("_."@),
        encode_utf8("_VERB"@),
        encode_utf8("_ADP"@),
        encode_utf8("_DET"@),
        encode_utf8("_ADJ"@),
        encode_utf8("_PRON"@),
        encode_utf8("_ADV"@),
        encode_utf8("_NUM"@),
        encode_utf8("_CONJ"@),
        encode_utf8("_PRT"@),
        encode_utf8("_X"@),
    ]
}

/// The bare part-of-speech markers: each suffix closed by an
/// underscore, such as the marker for nouns.
pub open spec fn pos_marker_list() -> Seq<Seq<u8>> {
    pos_suffix_list().map_values(|s: Seq<u8>| s.push('_' as u8))
}

/// A token is part-of-speech-tagged when it is a bare marker or ends
/// in a part-of-speech suffix.
pub open spec fn pos_tagged(w: Seq<u8>) -> bool {
    pos_marker_list().contains(w) || exists|i: int|
        0 <= i < pos_suffix_list().len() && ends_with(w, #[trigger] pos_suffix_list()[i])
}

/// A token may enter the store when it is non-empty and carries no
/// part-of-speech tagging.
pub open spec fn valid_word(w: Seq<u8>) -> bool {
    w.len() > 0 && !pos_tagged(w)
}

/// The twelve part-of-speech suffixes as byte vectors.
pub fn pos_suffixes() -> (r: Vec<Vec<u8>>)
    ensures
        views_of(r@) == pos_suffix_list(),
{
    let mut r: Vec<Vec<u8>> = Vec::new();
    r.push("_NOUN".as_bytes_vec());
    r.push("_.".as_bytes_vec());
    r.push("_VERB".as_bytes_vec());
    r.push("_ADP".as_bytes_vec());
    r.push("_DET".as_bytes_vec());
    r.push("_ADJ".as_bytes_vec());
    r.push("_PRON".as_bytes_vec());
    r.push("_ADV".as_bytes_vec());
    r.push("_NUM".as_bytes_vec());
    r.push("_CONJ".as_bytes_vec());
    r.push("_PRT".as_bytes_vec());
    r.push("_X".as_bytes_vec());
    proof {
        assert(views_of(r@) =~= pos_suffix_list());
    }
    r
}

/// True when `word` is a bare part-of-speech marker or carries a
/// part-of-speech suffix.
pub fn is_pos_tagged(word: &[u8]) -> (r: bool)
    ensures
        r == pos_tagged(word@),
{
    let suffixes = pos_suffixes();
    let mut i: usize = 0;
    while i < suffixes.len()
        invariant
            0 <= i <= suffixes@.len(),
            views_of(suffixes@) == pos_suffix_list(),
            forall|j: int| 0 <= j < i ==> !ends_with(word@, #[trigger] pos_suffix_list()[j]),
            forall|j: int| 0 <= j < i ==> word@ != #[trigger] pos_marker_list()[j],
        decreases suffixes.len() - i,
    {
        let suffix = &suffixes[i];
        if has_suffix(word, suffix.as_slice()) {
            return true;
        }
        let mut marker = suffix.clone();
        marker.push('_' as u8);
        if bytes_eq(word, marker.as_slice()) {
            proof {
                assert(pos_marker_list()[i as int] == word@);
            }
            return true;
        }
        i = i + 1;
    }
    proof {
        assert(forall|j: int|
            0 <= j < pos_marker_list().len() ==> word@ != #[trigger] pos_marker_list()[j]);
        assert(!pos_marker_list().contains(word@));
    }
    false
}

/// True when `word` is non-empty and not part-of-speech-tagged.
pub fn is_valid_word(word: &[u8]) -> (r: bool)
    ensures
        r == valid_word(word@),
{
    if word.len() == 0 {
        return false;
    }
    !is_pos_tagged(word)
}

/// True when every byte of `s` is a decimal digit and `s` is
/// non-empty.
pub fn all_digits(s: &[u8]) -> (r: bool)
    ensures
        r == is_digits(s@),
{
    if s.len() == 0 {
        return false;
    }
    let mut i: usize = 0;
    while i < s.len()
        invariant
            0 <= i <= s.len(),
            forall|j: int| 0 <= j < i ==> is_digit(s@[j]),
        decreases s.len() - i,
    {
        let b = s[i];
        if b < 48 || b > 57 {
            return false;
        }
        i = i + 1;
    }
    true
}

/// A year-count part is well-formed when it has exactly three
/// comma-separated numeric fields and its match count fits an `i64`.
pub open spec fn valid_year_record(part: Seq<u8>) -> bool {
    let fields = split_bytes(part, ',' as u8);
    &&& fields.len() == 3
    &&& is_digits(fields[0])
    &&& is_digits(fields[1])
    &&& is_digits(fields[2])
    &&& dec_value(fields[1]) <= i64::MAX
}

/// The match count (the middle field) of a well-formed year-count
/// part.
pub open spec fn match_count(part: Seq<u8>) -> int {
    dec_value(split_bytes(part, ',' as u8)[1])
}

/// Reads one year-count part, returning its match count.
pub fn parse_year_record(part: &[u8]) -> (r: Option<i64>)
    ensures
        r is Some <==> valid_year_record(part@),
        r is Some ==> r.unwrap() == match_count(part@) && r.unwrap() >= 0,
{
    let fields = split(part, ',' as u8);
    if fields.len() != 3 {
        return None;
    }
    if !all_digits(fields[0].as_slice()) {
        return None;
    }
    if !all_digits(fields[2].as_slice()) {
        return None;
    }
    let mc = parse_i64_digits(fields[1].as_slice());
    match mc {
        Some(v) => {
            proof {
                lemma_dec_value_nonneg(fields@[1]@);
            }
            Some(v)
        },
        None => None,
    }
}

/// The sum of the match counts of a run of year-count parts.
pub open spec fn total_score(parts: Seq<Seq<u8>>) -> int
    decreases parts.len(),
{
    if parts.len() == 0 {
        0
    } else {
        total_score(parts.drop_last()) + match_count(parts.last())
    }
}

pub proof fn lemma_total_score_take_monotone(parts: Seq<Seq<u8>>, i: int)
    requires
        forall|j: int| 0 <= j < parts.len() ==> valid_year_record(#[trigger] parts[j]),
        0 <= i <= parts.len(),
    ensures
        total_score(parts.take(i)) <= total_score(parts),
    decreases parts.len() - i,
{
    if i < parts.len() {
        let t = parts.take(i + 1);
        assert(t.drop_last() =~= parts.take(i));
        lemma_dec_value_nonneg(split_bytes(parts[i], ',' as u8)[1]);
        assert(total_score(parts.take(i)) <= total_score(t));
        lemma_total_score_take_monotone(parts, i + 1);
        assert(parts.take(parts.len() as int) =~= parts);
    } else {
        assert(parts.take(i) =~= parts);
    }
}

/// A parsed n-gram: its tokens and its aggregate score.
#[derive(Debug, Clone, PartialEq, Eq)]
pub struct Entry {
    pub ngram: Vec<Vec<u8>>,
    pub score: i64,
}

/// The mathematical content of an `Entry`.
pub struct EntryModel {
    pub ngram: Seq<Seq<u8>>,
    pub score: int,
}

impl View for Entry {
    type V = EntryModel;

    open spec fn view(&self) -> EntryModel {
        EntryModel { ngram: views_of(self.ngram@), score: self.score as int }
    }
}

/// Why a line was rejected.
#[derive(Debug, Clone, Copy, PartialEq, Eq, Structural)]
pub enum ParseError {
    /// Fewer than two tab-separated fields.
    InvalidLine,
    /// The sequence part does not hold exactly `n` tokens.
    InvalidSequenceLength,
    /// Some token is part-of-speech-tagged or empty.
    InvalidToken,
    /// Some year-count part is malformed, or the aggregate score
    /// overflows.
    InvalidYearRecord,
}

/// What `parse` returns on any line: the checks run in order, and the
/// aggregate score is the sum of the match counts.
pub open spec fn parse_spec(line: Seq<u8>, n: int) -> Result<EntryModel, ParseError> {
    let fields = split_bytes(line, '\t' as u8);
    if fields.len() < 2 {
        Err(ParseError::InvalidLine)
    } else {
        let tokens = split_bytes(fields[0], ' ' as u8);
        let counts = fields.skip(1);
        if tokens.len() != n {
            Err(ParseError::InvalidSequenceLength)
        } else if exists|i: int| 0 <= i < tokens.len() && !valid_word(#[trigger] tokens[i]) {
            Err(ParseError::InvalidToken)
        } else if exists|i: int|
            0 <= i < counts.len() && !valid_year_record(#[trigger] counts[i]) {
            Err(ParseError::InvalidYearRecord)
        } else if total_score(counts) > i64::MAX {
            Err(ParseError::InvalidYearRecord)
        } else {
            Ok(EntryModel { ngram: tokens, score: total_score(counts) })
        }
    }
}

/// Turns one corpus line into a validated entry for order `n`, or
/// says exactly why the line is rejected.
#[verifier::loop_isolation(false)]
pub fn parse(line: &[u8], n: i64) -> (r: Result<Entry, ParseError>)
    requires
        1 <= n <= 5,
    ensures
        match r {
            Ok(e) => parse_spec(line@, n as int) == Ok::<EntryModel, ParseError>(e@),
            Err(pe) => parse_spec(line@, n as int) == Err::<EntryModel, ParseError>(pe),
        },
        r is Ok ==> r.unwrap().score >= 0 && r.unwrap().ngram@.len() == n,
{
    let fields = split(line, '\t' as u8);
    if fields.len() < 2 {
        return Err(ParseError::InvalidLine);
    }
    let tokens = split(fields[0].as_slice(), ' ' as u8);
    let ghost spec_tokens = split_bytes(split_bytes(line@, '\t' as u8)[0], ' ' as u8);
    proof {
        assert(views_of(fields@)[0] == fields@[0]@);
        assert(views_of(tokens@) == spec_tokens);
    }
    if tokens.len() != n as usize {
        return Err(ParseError::InvalidSequenceLength);
    }
    let mut i: usize = 0;
    while i < tokens.len()
        invariant
            0 <= i <= tokens@.len(),
            views_of(tokens@) == spec_tokens,
            forall|j: int| 0 <= j < i ==> valid_word(#[trigger] spec_tokens[j]),
        decreases tokens.len() - i,
    {
        if !is_valid_word(tokens[i].as_slice()) {
            proof {
                assert(!valid_word(spec_tokens[i as int]));
            }
            return Err(ParseError::InvalidToken);
        }
        i = i + 1;
    }
    let ghost counts = split_bytes(line@, '\t' as u8).skip(1);
    let mut score: i64 = 0;
    let mut k: usize = 1;
    while k < fields.len()
        invariant
            1 <= k <= fields@.len(),
            2 <= fields@.len(),
            views_of(fields@) == split_bytes(line@, '\t' as u8),
            counts == split_bytes(line@, '\t' as u8).skip(1),
            forall|j: int| 0 <= j < k - 1 ==> valid_year_record(#[trigger] counts[j]),
            score == total_score(counts.take(k - 1)),
            0 <= score,
        decreases fields.len() - k,
    {
        proof {
            assert(counts[k - 1] == views_of(fields@)[k as int]);
        }
        let mc = match parse_year_record(fields[k].as_slice()) {
            Some(v) => v,
            None => {
                proof {
                    assert(!valid_year_record(counts[k - 1]));
                }
                return Err(ParseError::InvalidYearRecord);
            },
        };
        proof {
            assert(counts.take(k as int).drop_last() =~= counts.take(k - 1));
        }
        if score > i64::MAX - mc {
            proof {
                assert(total_score(counts.take(k as int)) > i64::MAX);
                if forall|j: int| 0 <= j < counts.len() ==> valid_year_record(#[trigger] counts[j]) {
                    lemma_total_score_take_monotone(counts, k as int);
                    assert(total_score(counts) > i64::MAX);
                }
            }
            return Err(ParseError::InvalidYearRecord);
        }
        score = score + mc;
        k = k + 1;
    }
    proof {
        assert(counts.take(counts.len() as int) =~= counts);
        assert(score == total_score(counts));
    }
    Ok(Entry { ngram: tokens, score })
}

/// Law: a line whose sequence part holds a part-of-speech-tagged
/// token is rejected as `InvalidToken`, whenever the line shape and
/// token count themselves pass.
pub proof fn lemma_tagged_token_rejected(line: Seq<u8>, n: int)
    requires
        split_bytes(line, '\t' as u8).len() >= 2,
        split_bytes(split_bytes(line, '\t' as u8)[0], ' ' as u8).len() == n,
        exists|i: int|
            0 <= i < n && pos_tagged(
                #[trigger] split_bytes(split_bytes(line, '\t' as u8)[0], ' ' as u8)[i],
            ),
    ensures
        parse_spec(line, n) == Err::<EntryModel, ParseError>(ParseError::InvalidToken),
{
    let tokens = split_bytes(split_bytes(line, '\t' as u8)[0], ' ' as u8);
    let i = choose|i: int| 0 <= i < n && pos_tagged(#[trigger] tokens[i]);
    assert(!valid_word(tokens[i]));
}

} // verus!
