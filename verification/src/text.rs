//! Byte-string helpers shared by the parser, the staging codec and the
//! shard catalog: splitting on a separator byte, joining, suffix tests,
//! and decimal rendering and reading of integers.

use vstd::prelude::*;

verus! {

/// The views of a sequence of byte vectors.
pub open spec fn views_of(vs: Seq<Vec<u8>>) -> Seq<Seq<u8>> {
    vs.map_values(|v: Vec<u8>| v@)
}

/// Splitting `s` on `sep` always yields one part more than there are
/// separators; the empty input yields one empty part.
pub open spec fn split_bytes(s: Seq<u8>, sep: u8) -> Seq<Seq<u8>>
    decreases s.len(),
{
    if s.len() == 0 {
        seq![Seq::<u8>::empty()]
    } else {
        let parts = split_bytes(s.drop_last(), sep);
        if s.last() == sep {
            parts.push(Seq::<u8>::empty())
        } else {
            parts.update(parts.len() - 1, parts.last().push(s.last()))
        }
    }
}

pub open spec fn join_bytes(parts: Seq<Seq<u8>>, sep: u8) -> Seq<u8>
    decreases parts.len(),
{
    if parts.len() == 0 {
        Seq::<u8>::empty()
    } else if parts.len() == 1 {
        parts[0]
    } else {
        join_bytes(parts.drop_last(), sep).push(sep) + parts.last()
    }
}

pub open spec fn contains_byte(s: Seq<u8>, b: u8) -> bool {
    exists|i: int| 0 <= i < s.len() && s[i] == b
}

pub proof fn lemma_split_bytes_len(s: Seq<u8>, sep: u8)
    ensures
        split_bytes(s, sep).len() >= 1,
    decreases s.len(),
{
    if s.len() != 0 {
        lemma_split_bytes_len(s.drop_last(), sep);
    }
}

/// A separator-free string splits into itself alone.
pub proof fn lemma_split_no_sep(s: Seq<u8>, sep: u8)
    requires
        !contains_byte(s, sep),
    ensures
        split_bytes(s, sep) == seq![s],
    decreases s.len(),
{
    if s.len() == 0 {
        assert(split_bytes(s, sep) == seq![Seq::<u8>::empty()]);
        assert(s =~= Seq::<u8>::empty());
    } else {
        assert(!contains_byte(s.drop_last(), sep)) by {
            if contains_byte(s.drop_last(), sep) {
                let i = choose|i: int|
                    0 <= i < s.drop_last().len() && s.drop_last()[i] == sep;
                assert(s[i] == sep);
            }
        }
        lemma_split_no_sep(s.drop_last(), sep);
        assert(s.last() != sep) by {
            if s.last() == sep {
                assert(s[s.len() - 1] == sep);
            }
        }
        assert(split_bytes(s, sep) =~= seq![s.drop_last().push(s.last())]);
        assert(s.drop_last().push(s.last()) =~= s);
    }
}

/// Appending separator-free bytes extends the final part.
pub proof fn lemma_split_append_no_sep(s: Seq<u8>, t: Seq<u8>, sep: u8)
    requires
        !contains_byte(t, sep),
    ensures
        split_bytes(s + t, sep) == split_bytes(s, sep).update(
            split_bytes(s, sep).len() - 1,
            split_bytes(s, sep).last() + t,
        ),
    decreases t.len(),
{
    lemma_split_bytes_len(s, sep);
    let parts = split_bytes(s, sep);
    if t.len() == 0 {
        assert(s + t =~= s);
        assert(parts.last() + t =~= parts.last());
        assert(parts.update(parts.len() - 1, parts.last()) =~= parts);
    } else {
        assert(!contains_byte(t.drop_last(), sep)) by {
            if contains_byte(t.drop_last(), sep) {
                let i = choose|i: int|
                    0 <= i < t.drop_last().len() && t.drop_last()[i] == sep;
                assert(t[i] == sep);
            }
        }
        lemma_split_append_no_sep(s, t.drop_last(), sep);
        let prev = split_bytes(s + t.drop_last(), sep);
        assert(t.last() != sep) by {
            if t.last() == sep {
                assert(t[t.len() - 1] == sep);
            }
        }
        assert((s + t).drop_last() =~= s + t.drop_last());
        assert((s + t).last() == t.last());
        assert(split_bytes(s + t, sep) == prev.update(prev.len() - 1, prev.last().push(t.last())));
        assert(prev.last() == parts.last() + t.drop_last());
        assert((parts.last() + t.drop_last()).push(t.last()) =~= parts.last() + t);
        assert(split_bytes(s + t, sep) =~= parts.update(parts.len() - 1, parts.last() + t));
    }
}

/// Joining parts and splitting again returns the parts, provided no
/// part holds the separator.
pub proof fn lemma_split_join(parts: Seq<Seq<u8>>, sep: u8)
    requires
        parts.len() >= 1,
        forall|i: int| 0 <= i < parts.len() ==> !contains_byte(#[trigger] parts[i], sep),
    ensures
        split_bytes(join_bytes(parts, sep), sep) == parts,
    decreases parts.len(),
{
    if parts.len() == 1 {
        lemma_split_no_sep(parts[0], sep);
        assert(split_bytes(join_bytes(parts, sep), sep) =~= parts);
    } else {
        lemma_split_join(parts.drop_last(), sep);
        let prefix = join_bytes(parts.drop_last(), sep);
        let whole = join_bytes(parts, sep);
        assert(whole == prefix.push(sep) + parts.last());
        assert(split_bytes(prefix.push(sep), sep) == split_bytes(prefix, sep).push(
            Seq::<u8>::empty(),
        )) by {
            assert(prefix.push(sep).drop_last() =~= prefix);
        }
        lemma_split_append_no_sep(prefix.push(sep), parts.last(), sep);
        let mid = split_bytes(prefix.push(sep), sep);
        assert(mid == parts.drop_last().push(Seq::<u8>::empty()));
        assert(mid.last() + parts.last() =~= parts.last());
        assert(split_bytes(whole, sep) =~= parts);
    }
}

/// Splits `s` on the byte `sep`.
pub fn split(s: &[u8], sep: u8) -> (r: Vec<Vec<u8>>)
    ensures
        views_of(r@) == split_bytes(s@, sep),
{
    let ghost whole: Seq<u8> = s@;
    let mut parts: Vec<Vec<u8>> = Vec::new();
    let mut cur: Vec<u8> = Vec::new();
    let mut i: usize = 0;
    proof {
        assert(whole.take(0) =~= Seq::<u8>::empty());
        assert(views_of(parts@).push(cur@) =~= split_bytes(whole.take(0), sep));
    }
    while i < s.len()
        invariant
            0 <= i <= s.len(),
            whole == s@,
            views_of(parts@).push(cur@) == split_bytes(whole.take(i as int), sep),
        decreases s.len() - i,
    {
        let b = s[i];
        let ghost old_parts = views_of(parts@);
        let ghost old_cur = cur@;
        proof {
            assert(whole.take(i + 1).drop_last() =~= whole.take(i as int));
            assert(whole.take(i + 1).last() == b);
        }
        if b == sep {
            parts.push(cur);
            cur = Vec::new();
            proof {
                assert(views_of(parts@) =~= old_parts.push(old_cur));
                assert(views_of(parts@).push(cur@) =~= split_bytes(
                    whole.take(i as int),
                    sep,
                ).push(Seq::<u8>::empty()));
            }
        } else {
            cur.push(b);
            proof {
                let prev = split_bytes(whole.take(i as int), sep);
                assert(prev == old_parts.push(old_cur));
                assert(views_of(parts@).push(cur@) =~= prev.update(
                    prev.len() - 1,
                    prev.last().push(b),
                ));
            }
        }
        i = i + 1;
    }
    proof {
        assert(whole.take(s@.len() as int) =~= whole);
    }
    let ghost old_parts = views_of(parts@);
    parts.push(cur);
    proof {
        assert(views_of(parts@) =~= old_parts.push(cur@));
    }
    parts
}

/// True when `a` and `b` hold the same bytes.
pub fn bytes_eq(a: &[u8], b: &[u8]) -> (r: bool)
    ensures
        r == (a@ == b@),
{
    if a.len() != b.len() {
        return false;
    }
    let mut i: usize = 0;
    while i < a.len()
        invariant
            0 <= i <= a.len(),
            a@.len() == b@.len(),
            forall|j: int| 0 <= j < i ==> a@[j] == b@[j],
        decreases a.len() - i,
    {
        if a[i] != b[i] {
            return false;
        }
        i = i + 1;
    }
    proof {
        assert(a@ =~= b@);
    }
    true
}

pub open spec fn ends_with(s: Seq<u8>, suffix: Seq<u8>) -> bool {
    suffix.len() <= s.len() && s.subrange(s.len() - suffix.len(), s.len() as int) == suffix
}

/// True when `s` ends with the bytes of `suffix`.
pub fn has_suffix(s: &[u8], suffix: &[u8]) -> (r: bool)
    ensures
        r == ends_with(s@, suffix@),
{
    if suffix.len() > s.len() {
        return false;
    }
    let tail = vstd::slice::slice_subrange(s, s.len() - suffix.len(), s.len());
    bytes_eq(tail, suffix)
}

pub open spec fn is_digit(b: u8) -> bool {
    48 <= b <= 57
}

/// A non-empty run of decimal digit bytes.
pub open spec fn is_digits(s: Seq<u8>) -> bool {
    s.len() > 0 && forall|i: int| 0 <= i < s.len() ==> is_digit(s[i])
}

/// The number a run of digit bytes denotes, most significant first.
pub open spec fn dec_value(s: Seq<u8>) -> int
    decreases s.len(),
{
    if s.len() == 0 {
        0
    } else {
        dec_value(s.drop_last()) * 10 + (s.last() - 48)
    }
}

/// The decimal digit bytes of `v`, without leading zeros.
pub open spec fn dec_bytes(v: nat) -> Seq<u8>
    decreases v,
{
    if v < 10 {
        seq![(48 + v) as u8]
    } else {
        dec_bytes(v / 10).push((48 + v % 10) as u8)
    }
}

pub proof fn lemma_dec_value_nonneg(s: Seq<u8>)
    requires
        forall|i: int| 0 <= i < s.len() ==> is_digit(s[i]),
    ensures
        dec_value(s) >= 0,
    decreases s.len(),
{
    if s.len() > 0 {
        lemma_dec_value_nonneg(s.drop_last());
    }
}

pub proof fn lemma_dec_value_take_monotone(s: Seq<u8>, i: int)
    requires
        forall|j: int| 0 <= j < s.len() ==> is_digit(s[j]),
        0 <= i <= s.len(),
    ensures
        dec_value(s.take(i)) <= dec_value(s),
    decreases s.len() - i,
{
    if i < s.len() {
        let t = s.take(i + 1);
        assert(t.drop_last() =~= s.take(i));
        lemma_dec_value_nonneg(s.take(i));
        assert(dec_value(s.take(i)) <= dec_value(t));
        lemma_dec_value_take_monotone(s, i + 1);
        assert(s.take(s.len() as int) =~= s);
    } else {
        assert(s.take(i) =~= s);
    }
}

/// Rendering a number and reading it back returns the number.
pub proof fn lemma_dec_round_trip(v: nat)
    ensures
        is_digits(dec_bytes(v)),
        dec_value(dec_bytes(v)) == v,
    decreases v,
{
    if v < 10 {
        let s = dec_bytes(v);
        assert(s == seq![(48 + v) as u8]);
        assert(s.drop_last() =~= Seq::<u8>::empty());
        assert(dec_value(s) == dec_value(s.drop_last()) * 10 + (s.last() - 48));
        assert(dec_value(s) == v);
    } else {
        lemma_dec_round_trip(v / 10);
        let prefix = dec_bytes(v / 10);
        let whole = prefix.push((48 + v % 10) as u8);
        assert(whole.drop_last() =~= prefix);
        assert(dec_value(whole) == dec_value(prefix) * 10 + v % 10);
        assert(v / 10 * 10 + v % 10 == v) by {
            vstd::arithmetic::div_mod::lemma_fundamental_div_mod(v as int, 10);
        }
    }
}

/// Reads a non-empty run of decimal digits as an `i64`.  Returns `None`
/// on any non-digit byte, on an empty input, and on a value above
/// `i64::MAX`.
pub fn parse_i64_digits(s: &[u8]) -> (r: Option<i64>)
    ensures
        r is Some <==> is_digits(s@) && dec_value(s@) <= i64::MAX,
        r is Some ==> r.unwrap() == dec_value(s@),
{
    if s.len() == 0 {
        return None;
    }
    let mut acc: i64 = 0;
    let mut i: usize = 0;
    while i < s.len()
        invariant
            0 <= i <= s.len(),
            s@.len() > 0,
            forall|j: int| 0 <= j < i ==> is_digit(s@[j]),
            acc == dec_value(s@.take(i as int)),
            0 <= acc,
        decreases s.len() - i,
    {
        let b = s[i];
        if b < 48 || b > 57 {
            return None;
        }
        let d: i64 = (b - 48) as i64;
        proof {
            assert(s@.take(i + 1).drop_last() =~= s@.take(i as int));
        }
        if acc > (i64::MAX - d) / 10 {
            proof {
                assert(dec_value(s@.take(i + 1)) == acc * 10 + d);
                assert(acc * 10 + d > i64::MAX) by (nonlinear_arith)
                    requires
                        acc > (i64::MAX - d) / 10,
                        0 <= d <= 9,
                        0 <= acc,
                ;
                if is_digits(s@) {
                    lemma_dec_value_take_monotone(s@, i + 1);
                }
            }
            return None;
        }
        proof {
            assert(acc * 10 + d <= i64::MAX) by (nonlinear_arith)
                requires
                    acc <= (i64::MAX - d) / 10,
                    0 <= d <= 9,
                    0 <= acc,
            ;
        }
        acc = acc * 10 + d;
        i = i + 1;
    }
    proof {
        assert(s@.take(s@.len() as int) =~= s@);
    }
    Some(acc)
}

/// Renders `v` as decimal digit bytes.
pub fn render_dec(v: u64) -> (r: Vec<u8>)
    ensures
        r@ == dec_bytes(v as nat),
    decreases v,
{
    if v < 10 {
        let mut r: Vec<u8> = Vec::new();
        r.push(48 + v as u8);
        proof {
            assert(r@ =~= seq![(48 + v as nat) as u8]);
        }
        r
    } else {
        let mut r = render_dec(v / 10);
        r.push(48 + (v % 10) as u8);
        r
    }
}

} // verus!
