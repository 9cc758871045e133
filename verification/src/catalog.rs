//! The shard catalog: how many shards each n-gram order has for a
//! language, and the remote URL of each shard.  Deterministic, no
//! side effects; invalid (language, order) pairs are reported, never
//! silently defaulted.

use vstd::prelude::*;

use vstd::string::StringExecFns;

verus! {

/// A corpus language.  Only English is enumerated; adding a language
/// means adding its shard counts.
#[derive(Debug, Clone, Copy, PartialEq, Eq, Structural)]
pub enum Language {
    English,
}

/// One unit of work: a single remote shard of one n-gram order.
#[derive(Debug, Clone, Copy, PartialEq, Eq, Structural)]
pub struct Query {
    pub lang: Language,
    pub n: i64,
    pub idx: i64,
}

#[derive(Debug, Clone, Copy, PartialEq, Eq, Structural)]
pub enum CatalogError {
    /// The n-gram order is outside 1 through 5.
    InvalidOrder,
    /// The shard index is outside the order's shard count.
    InvalidShardIndex,
}

pub open spec fn valid_order(n: int) -> bool {
    1 <= n <= 5
}

/// How many shards the corpus publishes per order.
pub open spec fn shard_count_spec(lang: Language, n: int) -> int {
    match lang {
        Language::English => {
            if n == 1 {
                24
            } else if n == 2 {
                589
            } else if n == 3 {
                6881
            } else if n == 4 {
                6668
            } else {
                19423
            }
        },
    }
}

impl Language {
    /// The language's path component in shard URLs.
    pub fn url_name(&self) -> (r: String)
        ensures
            r@ == self.url_name_spec(),
    {
        match *self {
            Language::English => String::from_str("eng"),
        }
    }

    pub open spec fn url_name_spec(&self) -> Seq<char> {
        match *self {
            Language::English => "eng"@,
        }
    }

    /// Reads a language code; unknown codes are not defaulted.
    pub fn from_code(code: &str) -> (r: Option<Language>)
        ensures
            code@ == "eng"@ ==> r == Some(Language::English),
            code@ != "eng"@ ==> r is None,
    {
        let same = crate::text::bytes_eq(code.as_bytes(), "eng".as_bytes());
        proof {
            if same {
                vstd::utf8::encode_utf8_decode_utf8(code@);
                vstd::utf8::encode_utf8_decode_utf8("eng"@);
            }
        }
        if same {
            Some(Language::English)
        } else {
            None
        }
    }
}

/// The number of shards of order `n`, or an error on an order outside
/// 1 through 5.
pub fn total_file_num(lang: Language, n: i64) -> (r: Result<i64, CatalogError>)
    ensures
        valid_order(n as int) ==> r is Ok && r.unwrap() == shard_count_spec(lang, n as int),
        !valid_order(n as int) ==> r == Err::<i64, CatalogError>(CatalogError::InvalidOrder),
{
    match lang {
        Language::English => {
            if n == 1 {
                Ok(24)
            } else if n == 2 {
                Ok(589)
            } else if n == 3 {
                Ok(6881)
            } else if n == 4 {
                Ok(6668)
            } else if n == 5 {
                Ok(19423)
            } else {
                Err(CatalogError::InvalidOrder)
            }
        },
    }
}

/// All work items of order `n`, one per shard, in shard order.
pub fn gen_queries(lang: Language, n: i64) -> (r: Result<Vec<Query>, CatalogError>)
    ensures
        valid_order(n as int) <==> r is Ok,
        !valid_order(n as int) ==> r == Err::<Vec<Query>, CatalogError>(CatalogError::InvalidOrder),
        r is Ok ==> {
            let qs = r.unwrap()@;
            &&& qs.len() == shard_count_spec(lang, n as int)
            &&& forall|i: int|
                0 <= i < qs.len() ==> qs[i] == (Query { lang, n, idx: i as i64 })
        },
{
    let total = match total_file_num(lang, n) {
        Ok(t) => t,
        Err(e) => {
            return Err(e);
        },
    };
    let mut qs: Vec<Query> = Vec::new();
    let mut idx: i64 = 0;
    while idx < total
        invariant
            0 <= idx <= total,
            total == shard_count_spec(lang, n as int),
            qs@.len() == idx,
            forall|i: int| 0 <= i < idx ==> qs@[i] == (Query { lang, n, idx: i as i64 }),
        decreases total - idx,
    {
        qs.push(Query { lang, n, idx });
        idx = idx + 1;
    }
    Ok(qs)
}

/// The decimal digits of `v` as characters, most significant first,
/// without leading zeros.
pub open spec fn dec_chars(v: nat) -> Seq<char>
    decreases v,
{
    if v < 10 {
        seq![digit_char(v)]
    } else {
        dec_chars(v / 10).push(digit_char(v % 10))
    }
}

pub open spec fn digit_char(d: nat) -> char {
    if d == 0 {
        '0'
    } else if d == 1 {
        '1'
    } else if d == 2 {
        '2'
    } else if d == 3 {
        '3'
    } else if d == 4 {
        '4'
    } else if d == 5 {
        '5'
    } else if d == 6 {
        '6'
    } else if d == 7 {
        '7'
    } else if d == 8 {
        '8'
    } else {
        '9'
    }
}

pub open spec fn zero_pad(k: nat) -> Seq<char>
    decreases k,
{
    if k == 0 {
        Seq::<char>::empty()
    } else {
        zero_pad((k - 1) as nat).push('0')
    }
}

/// `v` in decimal, left-padded with zeros to at least five digits, as
/// the corpus file names carry shard numbers.
pub open spec fn padded5(v: nat) -> Seq<char> {
    if dec_chars(v).len() >= 5 {
        dec_chars(v)
    } else {
        zero_pad((5 - dec_chars(v).len()) as nat) + dec_chars(v)
    }
}

/// The remote URL of a shard: base, language, then
/// `{order}-{index:05}-of-{count:05}.gz`.
pub open spec fn url_chars(lang: Language, n: int, idx: int) -> Seq<char> {
    "http://storage.googleapis.com/books/ngrams/books/20200217/"@ + lang.url_name_spec() + "/"@
        + dec_chars(n as nat) + "-"@ + padded5(idx as nat) + "-of-"@ + padded5(
        shard_count_spec(lang, n) as nat,
    ) + ".gz"@
}

fn digit_str(d: u64) -> (r: &'static str)
    requires
        d < 10,
    ensures
        r@ == seq![digit_char(d as nat)],
{
    proof {
        reveal_strlit("0");
        reveal_strlit("1");
        reveal_strlit("2");
        reveal_strlit("3");
        reveal_strlit("4");
        reveal_strlit("5");
        reveal_strlit("6");
        reveal_strlit("7");
        reveal_strlit("8");
        reveal_strlit("9");
    }
    if d == 0 {
        "0"
    } else if d == 1 {
        "1"
    } else if d == 2 {
        "2"
    } else if d == 3 {
        "3"
    } else if d == 4 {
        "4"
    } else if d == 5 {
        "5"
    } else if d == 6 {
        "6"
    } else if d == 7 {
        "7"
    } else if d == 8 {
        "8"
    } else {
        "9"
    }
}

fn append_dec(s: &mut String, v: u64)
    ensures
        final(s)@ == old(s)@ + dec_chars(v as nat),
    decreases v,
{
    if v < 10 {
        s.append(digit_str(v));
    } else {
        append_dec(s, v / 10);
        s.append(digit_str(v % 10));
    }
}

pub proof fn lemma_dec_chars_width(v: nat)
    ensures
        v < 10 ==> dec_chars(v).len() == 1,
        10 <= v < 100 ==> dec_chars(v).len() == 2,
        100 <= v < 1000 ==> dec_chars(v).len() == 3,
        1000 <= v < 10000 ==> dec_chars(v).len() == 4,
        10000 <= v ==> dec_chars(v).len() >= 5,
    decreases v,
{
    if v >= 10 {
        lemma_dec_chars_width(v / 10);
    }
}

fn append_padded5(s: &mut String, v: u64)
    ensures
        final(s)@ == old(s)@ + padded5(v as nat),
{
    proof {
        lemma_dec_chars_width(v as nat);
        reveal_strlit("0");
        reveal_strlit("00");
        reveal_strlit("000");
        reveal_strlit("0000");
        reveal_with_fuel(zero_pad, 6);
    }
    if v < 10 {
        s.append("0000");
        proof {
            assert("0000"@ =~= zero_pad(4));
        }
    } else if v < 100 {
        s.append("000");
        proof {
            assert("000"@ =~= zero_pad(3));
        }
    } else if v < 1000 {
        s.append("00");
        proof {
            assert("00"@ =~= zero_pad(2));
        }
    } else if v < 10000 {
        s.append("0");
        proof {
            assert("0"@ =~= zero_pad(1));
        }
    }
    append_dec(s, v);
    proof {
        assert(s@ =~= old(s)@ + padded5(v as nat));
    }
}

/// The URL of the shard `query` names, or an error on an invalid
/// order or shard index.
pub fn file_url(query: &Query) -> (r: Result<String, CatalogError>)
    ensures
        !valid_order(query.n as int) ==> r == Err::<String, CatalogError>(
            CatalogError::InvalidOrder,
        ),
        valid_order(query.n as int) && !(0 <= query.idx < shard_count_spec(
            query.lang,
            query.n as int,
        )) ==> r == Err::<String, CatalogError>(CatalogError::InvalidShardIndex),
        valid_order(query.n as int) && 0 <= query.idx < shard_count_spec(
            query.lang,
            query.n as int,
        ) ==> r is Ok && r.unwrap()@ == url_chars(query.lang, query.n as int, query.idx as int),
{
    let total = match total_file_num(query.lang, query.n) {
        Ok(t) => t,
        Err(e) => {
            return Err(e);
        },
    };
    if query.idx < 0 || query.idx >= total {
        return Err(CatalogError::InvalidShardIndex);
    }
    let mut s = String::from_str("http://storage.googleapis.com/books/ngrams/books/20200217/");
    let name = query.lang.url_name();
    s.append(name.as_str());
    s.append("/");
    append_dec(&mut s, query.n as u64);
    s.append("-");
    append_padded5(&mut s, query.idx as u64);
    s.append("-of-");
    append_padded5(&mut s, total as u64);
    s.append(".gz");
    proof {
        assert(s@ =~= url_chars(query.lang, query.n as int, query.idx as int));
    }
    Ok(s)
}

} // verus!
