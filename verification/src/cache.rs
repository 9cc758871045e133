//! The sequence resolver's bounded cache: word text to its
//! store-assigned id, or to a confirmed absence.  Backed by a radix
//! trie, bounded in entry count, evicting the least recently used
//! key.  The cache is not authoritative: a miss is reported to the
//! caller, who consults the store and records what it said.

use vstd::prelude::*;

use crate::models::OneGram;
use crate::text::{bytes_eq, views_of};
use radix_trie::Trie;
use vstd::slice::slice_to_vec;
use vstd::string::StrSliceExecFns;
use vstd::utf8::encode_utf8;

verus! {

#[verifier::external_type_specification]
#[verifier::external_body]
#[verifier::reject_recursive_types(K)]
#[verifier::reject_recursive_types(V)]
pub struct ExTrie<K, V>(Trie<K, V>);

/// The backing structure: word bytes to the store's answer.
pub type WordTrie = Trie<Vec<u8>, Option<i64>>;

/// What a cache trie holds: its key-to-value map.  `Vec<u8>` keys
/// reach the trie unencoded, so the trie behaves as a map on the
/// bytes themselves.
pub uninterp spec fn trie_entries(t: WordTrie) -> Map<Seq<u8>, Option<i64>>;

/// The map of a trie that holds nothing.
pub open spec fn no_entries() -> Map<Seq<u8>, Option<i64>> {
    Map::empty()
}

/// Relies on radix_trie::Trie::new: an empty trie holds nothing.
#[verifier::external_body]
fn trie_new() -> (r: WordTrie)
    ensures
        trie_entries(r) == no_entries(),
{
    Trie::new()
}

/// Relies on radix_trie::Trie::get: the value stored at exactly this
/// key, if any.
#[verifier::external_body]
fn trie_get(t: &WordTrie, key: &Vec<u8>) -> (r: Option<Option<i64>>)
    ensures
        r == if trie_entries(*t).contains_key(key@) {
            Some(trie_entries(*t)[key@])
        } else {
            None::<Option<i64>>
        },
{
    t.get(key).cloned()
}

/// Relies on radix_trie::Trie::insert: maps the key to the value and
/// returns what the key mapped to before.
#[verifier::external_body]
fn trie_insert(t: &mut WordTrie, key: Vec<u8>, value: Option<i64>) -> (r: Option<Option<i64>>)
    ensures
        trie_entries(*final(t)) == trie_entries(*old(t)).insert(key@, value),
        r == if trie_entries(*old(t)).contains_key(key@) {
            Some(trie_entries(*old(t))[key@])
        } else {
            None::<Option<i64>>
        },
{
    t.insert(key, value)
}

/// Relies on radix_trie::Trie::remove: unmaps the key and returns
/// what it mapped to.
#[verifier::external_body]
fn trie_remove(t: &mut WordTrie, key: &Vec<u8>) -> (r: Option<Option<i64>>)
    ensures
        trie_entries(*final(t)) == trie_entries(*old(t)).remove(key@),
        r == if trie_entries(*old(t)).contains_key(key@) {
            Some(trie_entries(*old(t))[key@])
        } else {
            None::<Option<i64>>
        },
{
    t.remove(key)
}

/// The views of the keys a recency queue holds.
pub open spec fn key_set(s: Seq<Vec<u8>>) -> Set<Seq<u8>> {
    views_of(s).to_set()
}

/// No two queue slots hold the same key.
pub open spec fn distinct_views(s: Seq<Vec<u8>>) -> bool {
    forall|i: int, j: int| 0 <= i < j < s.len() ==> s[i]@ != s[j]@
}

proof fn lemma_key_set_contains(s: Seq<Vec<u8>>, x: Seq<u8>)
    ensures
        key_set(s).contains(x) <==> exists|i: int| 0 <= i < s.len() && s[i]@ == x,
{
    if key_set(s).contains(x) {
        let i = choose|i: int| 0 <= i < views_of(s).len() && views_of(s)[i] == x;
        assert(s[i]@ == x);
    }
    if exists|i: int| 0 <= i < s.len() && s[i]@ == x {
        let i = choose|i: int| 0 <= i < s.len() && s[i]@ == x;
        assert(views_of(s)[i] == x);
        assert(views_of(s).contains(x));
    }
}

proof fn lemma_remove_push(s: Seq<Vec<u8>>, i: int)
    requires
        0 <= i < s.len(),
    ensures
        s.remove(i).push(s[i]).len() == s.len(),
        key_set(s.remove(i).push(s[i])) == key_set(s),
        distinct_views(s) ==> distinct_views(s.remove(i).push(s[i])),
{
    s.remove_ensures(i);
    let t = s.remove(i).push(s[i]);
    let n = s.len() as int;
    assert forall|x: Seq<u8>| key_set(t).contains(x) <==> key_set(s).contains(x) by {
        lemma_key_set_contains(t, x);
        lemma_key_set_contains(s, x);
        if exists|w: int| 0 <= w < t.len() && t[w]@ == x {
            let w = choose|w: int| 0 <= w < t.len() && t[w]@ == x;
            if w == n - 1 {
                assert(s[i]@ == x);
            } else if w < i {
                assert(s[w]@ == x);
            } else {
                assert(s[w + 1]@ == x);
            }
        }
        if exists|w: int| 0 <= w < s.len() && s[w]@ == x {
            let w = choose|w: int| 0 <= w < s.len() && s[w]@ == x;
            if w == i {
                assert(t[n - 1]@ == x);
            } else if w < i {
                assert(t[w]@ == x);
            } else {
                assert(t[w - 1]@ == x);
            }
        }
    }
    assert(key_set(t) =~= key_set(s));
    if distinct_views(s) {
        assert forall|a: int, b: int| 0 <= a < b < t.len() implies t[a]@ != t[b]@ by {
            let a2: int = if a < i {
                a
            } else {
                a + 1
            };
            let b2: int = if b == n - 1 {
                i
            } else if b < i {
                b
            } else {
                b + 1
            };
            assert(t[a]@ == s[a2]@);
            assert(t[b]@ == s[b2]@);
            assert(a2 != b2);
        }
    }
}

proof fn lemma_remove_front(s: Seq<Vec<u8>>)
    requires
        s.len() >= 1,
        distinct_views(s),
    ensures
        s.remove(0).len() == s.len() - 1,
        key_set(s.remove(0)) == key_set(s).remove(s[0]@),
        distinct_views(s.remove(0)),
        !key_set(s.remove(0)).contains(s[0]@),
{
    s.remove_ensures(0);
    let t = s.remove(0);
    assert forall|x: Seq<u8>| key_set(t).contains(x) <==> (key_set(s).contains(x) && x
        != s[0]@) by {
        lemma_key_set_contains(t, x);
        lemma_key_set_contains(s, x);
        if exists|w: int| 0 <= w < t.len() && t[w]@ == x {
            let w = choose|w: int| 0 <= w < t.len() && t[w]@ == x;
            assert(s[w + 1]@ == x);
        }
        if key_set(s).contains(x) && x != s[0]@ {
            let w = choose|w: int| 0 <= w < s.len() && s[w]@ == x;
            assert(w != 0);
            assert(t[w - 1]@ == x);
        }
    }
    assert(key_set(t) =~= key_set(s).remove(s[0]@));
    assert forall|a: int, b: int| 0 <= a < b < t.len() implies t[a]@ != t[b]@ by {
        assert(t[a]@ == s[a + 1]@);
        assert(t[b]@ == s[b + 1]@);
    }
}

proof fn lemma_push_key(s: Seq<Vec<u8>>, k: Vec<u8>)
    ensures
        key_set(s.push(k)) == key_set(s).insert(k@),
        distinct_views(s) && !key_set(s).contains(k@) ==> distinct_views(s.push(k)),
{
    let t = s.push(k);
    assert forall|x: Seq<u8>| key_set(t).contains(x) <==> (key_set(s).contains(x) || x
        == k@) by {
        lemma_key_set_contains(t, x);
        lemma_key_set_contains(s, x);
        if exists|w: int| 0 <= w < t.len() && t[w]@ == x {
            let w = choose|w: int| 0 <= w < t.len() && t[w]@ == x;
            if w < s.len() {
                assert(s[w]@ == x);
            }
        }
        if key_set(s).contains(x) {
            let w = choose|w: int| 0 <= w < s.len() && s[w]@ == x;
            assert(t[w]@ == x);
        }
        if x == k@ {
            assert(t[s.len() as int]@ == x);
        }
    }
    assert(key_set(t) =~= key_set(s).insert(k@));
    if distinct_views(s) && !key_set(s).contains(k@) {
        assert forall|a: int, b: int| 0 <= a < b < t.len() implies t[a]@ != t[b]@ by {
            if b == s.len() as int {
                lemma_key_set_contains(s, t[a]@);
            }
        }
    }
}

/// The bounded word cache: a trie from word bytes to `Some(id)` or
/// confirmed absence, and a recency queue over the same keys, least
/// recently used first.
pub struct OneGramCache {
    map: WordTrie,
    recency: Vec<Vec<u8>>,
    capacity: usize,
}

impl OneGramCache {
    /// What the cache currently knows: word bytes to the store's
    /// answer.
    pub closed spec fn entries(self) -> Map<Seq<u8>, Option<i64>> {
        trie_entries(self.map)
    }

    pub closed spec fn cap(self) -> nat {
        self.capacity as nat
    }

    pub closed spec fn size(self) -> nat {
        self.recency@.len()
    }

    /// The key evicted next if a new key arrives at capacity.
    pub closed spec fn lru_key(self) -> Seq<u8> {
        self.recency@[0]@
    }

    /// The trie and the recency queue hold exactly the same keys,
    /// without duplicates, within capacity.
    pub closed spec fn wf(self) -> bool {
        &&& self.capacity >= 1
        &&& self.recency@.len() <= self.capacity
        &&& distinct_views(self.recency@)
        &&& self.entries().dom() == key_set(self.recency@)
    }

    /// An empty cache bounded to `capacity` entries.
    pub fn new(capacity: usize) -> (r: OneGramCache)
        requires
            capacity >= 1,
        ensures
            r.wf(),
            r.cap() == capacity,
            r.size() == 0,
            r.entries() == Map::<Seq<u8>, Option<i64>>::empty(),
    {
        let r = OneGramCache { map: trie_new(), recency: Vec::new(), capacity };
        proof {
            assert(r.entries().dom() =~= key_set(r.recency@));
        }
        r
    }

    /// A cache hit, `Some(answer)`, or a miss, `None`; the knowledge
    /// of the cache is unchanged, only recency moves.
    pub fn lookup(&mut self, key: &Vec<u8>) -> (r: Option<Option<i64>>)
        requires
            old(self).wf(),
        ensures
            final(self).wf(),
            final(self).entries() == old(self).entries(),
            final(self).cap() == old(self).cap(),
            final(self).size() == old(self).size(),
            r == if old(self).entries().contains_key(key@) {
                Some(old(self).entries()[key@])
            } else {
                None::<Option<i64>>
            },
    {
        let r = trie_get(&self.map, key);
        if r.is_some() {
            touch(&mut self.recency, key);
        }
        r
    }

    /// Records what the store said about `key`: `Some(id)` or
    /// confirmed absence.  A known key is updated in place; a new
    /// key within capacity is added; a new key at capacity evicts
    /// the least recently used one.
    pub fn record(&mut self, key: &Vec<u8>, value: Option<i64>)
        requires
            old(self).wf(),
        ensures
            final(self).wf(),
            final(self).cap() == old(self).cap(),
            final(self).entries().contains_key(key@),
            final(self).entries()[key@] == value,
            old(self).entries().contains_key(key@) ==> {
                &&& final(self).entries() == old(self).entries().insert(key@, value)
                &&& final(self).size() == old(self).size()
            },
            !old(self).entries().contains_key(key@) && old(self).size() < old(self).cap() ==> {
                &&& final(self).entries() == old(self).entries().insert(key@, value)
                &&& final(self).size() == old(self).size() + 1
            },
            !old(self).entries().contains_key(key@) && old(self).size() == old(self).cap() ==> {
                &&& final(self).entries() == old(self).entries().remove(old(self).lru_key()).insert(
                    key@,
                    value,
                )
                &&& final(self).size() == old(self).size()
            },
    {
        let present = trie_get(&self.map, key);
        if present.is_some() {
            let owned = slice_to_vec(key.as_slice());
            trie_insert(&mut self.map, owned, value);
            touch(&mut self.recency, key);
            proof {
                assert(self.entries().dom() =~= old(self).entries().dom());
            }
        } else {
            if self.recency.len() >= self.capacity {
                let ghost before = self.recency@;
                let lru = self.recency.remove(0);
                trie_remove(&mut self.map, &lru);
                proof {
                    lemma_remove_front(before);
                    lemma_key_set_contains(before, before[0]@);
                }
            }
            let owned = slice_to_vec(key.as_slice());
            let owned2 = slice_to_vec(key.as_slice());
            let ghost mid_rec = self.recency@;
            let ghost mid_map = trie_entries(self.map);
            trie_insert(&mut self.map, owned, value);
            self.recency.push(owned2);
            proof {
                lemma_push_key(mid_rec, owned2);
                lemma_key_set_contains(mid_rec, key@);
                assert(self.entries().dom() =~= key_set(self.recency@));
            }
        }
    }
}

impl OneGramCache {
    /// Records one loaded word row: the row's word, as its bytes,
    /// now resolves to the row's id.
    pub fn record_row(&mut self, row: &OneGram)
        requires
            old(self).wf(),
        ensures
            final(self).wf(),
            final(self).cap() == old(self).cap(),
            final(self).entries().contains_key(encode_utf8(row.word@)),
            final(self).entries()[encode_utf8(row.word@)] == Some(row.id),
            final(self).size() <= old(self).size() + 1,
    {
        let key = row.word.as_str().as_bytes_vec();
        self.record(&key, Some(row.id));
    }
}

/// What one pass over a token sequence yields.
#[derive(Debug, Clone, PartialEq, Eq)]
pub enum Resolution {
    /// Every token is cached with an id; the ids, in token order.
    Resolved(Vec<i64>),
    /// Some token is cached as absent from the store: the sequence
    /// is dropped, not an error.
    Dropped,
    /// The cache does not know this token; the caller must ask the
    /// store and record the answer.
    NeedsLookup(Vec<u8>),
}

/// The spec-level counterpart of `Resolution`.
pub enum ResolutionModel {
    ResolvedM(Seq<i64>),
    DroppedM,
    NeedsLookupM(Seq<u8>),
}

/// What resolving `tokens` against cache knowledge `m` yields,
/// scanning tokens left to right.
pub open spec fn resolution_spec(m: Map<Seq<u8>, Option<i64>>, tokens: Seq<Seq<u8>>) -> ResolutionModel
    decreases tokens.len(),
{
    if tokens.len() == 0 {
        ResolutionModel::ResolvedM(Seq::empty())
    } else if !m.contains_key(tokens[0]) {
        ResolutionModel::NeedsLookupM(tokens[0])
    } else {
        match m[tokens[0]] {
            None => ResolutionModel::DroppedM,
            Some(id) => match resolution_spec(m, tokens.drop_first()) {
                ResolutionModel::ResolvedM(rest) => ResolutionModel::ResolvedM(
                    seq![id] + rest,
                ),
                other => other,
            },
        }
    }
}

impl OneGramCache {
    /// One pass of the resolver over a token sequence, answering
    /// from the cache alone.  The cache's knowledge is unchanged;
    /// only recency moves.
    #[verifier::loop_isolation(false)]
    pub fn resolve_tokens(&mut self, tokens: &Vec<Vec<u8>>) -> (r: Resolution)
        requires
            old(self).wf(),
        ensures
            final(self).wf(),
            final(self).entries() == old(self).entries(),
            final(self).cap() == old(self).cap(),
            final(self).size() == old(self).size(),
            match r {
                Resolution::Resolved(ids) => resolution_spec(old(self).entries(), views_of(tokens@))
                    == ResolutionModel::ResolvedM(ids@),
                Resolution::Dropped => resolution_spec(old(self).entries(), views_of(tokens@))
                    == ResolutionModel::DroppedM,
                Resolution::NeedsLookup(w) => resolution_spec(
                    old(self).entries(),
                    views_of(tokens@),
                ) == ResolutionModel::NeedsLookupM(w@),
            },
    {
        let ghost m = old(self).entries();
        let ghost toks = views_of(tokens@);
        let mut ids: Vec<i64> = Vec::new();
        let mut j: usize = 0;
        proof {
            assert(toks.skip(0) =~= toks);
            match resolution_spec(m, toks) {
                ResolutionModel::ResolvedM(rest) => {
                    assert(Seq::<i64>::empty() + rest =~= rest);
                },
                _ => {},
            }
        }
        while j < tokens.len()
            invariant
                0 <= j <= tokens@.len(),
                ids@.len() == j,
                self.wf(),
                self.entries() == m,
                self.cap() == old(self).cap(),
                self.size() == old(self).size(),
                forall|k: int|
                    #![trigger toks[k]]
                    #![trigger ids@[k]]
                    0 <= k < j ==> m.contains_key(toks[k]) && m[toks[k]] == Some(ids@[k]),
                (match resolution_spec(m, toks.skip(j as int)) {
                    ResolutionModel::ResolvedM(rest) => resolution_spec(m, toks)
                        == ResolutionModel::ResolvedM(ids@ + rest),
                    other => resolution_spec(m, toks) == other,
                }),
            decreases tokens.len() - j,
        {
            let ghost tail = toks.skip(j as int);
            proof {
                assert(tail[0] == toks[j as int]);
                assert(tail.drop_first() =~= toks.skip(j + 1));
            }
            let token = &tokens[j];
            match self.lookup(token) {
                None => {
                    let w = slice_to_vec(token.as_slice());
                    return Resolution::NeedsLookup(w);
                },
                Some(None) => {
                    return Resolution::Dropped;
                },
                Some(Some(id)) => {
                    let ghost old_ids = ids@;
                    ids.push(id);
                    proof {
                        assert(toks[j as int] == tokens@[j as int]@);
                        assert(m.contains_key(toks[j as int]));
                        assert(m[toks[j as int]] == Some(id));
                        assert forall|k: int|
                            #![trigger toks[k]]
                            #![trigger ids@[k]]
                            0 <= k < j + 1 implies m.contains_key(toks[k]) && m[toks[k]] == Some(
                            ids@[k],
                        ) by {
                            if k < j {
                                assert(ids@[k] == old_ids[k]);
                                assert(m.contains_key(toks[k]) && m[toks[k]] == Some(old_ids[k]));
                            } else {
                                assert(ids@[k] == id);
                            }
                        }
                        let rest_j1 = resolution_spec(m, toks.skip(j + 1));
                        match rest_j1 {
                            ResolutionModel::ResolvedM(rest) => {
                                assert(resolution_spec(m, tail) == ResolutionModel::ResolvedM(
                                    seq![id] + rest,
                                ));
                                assert(old_ids + (seq![id] + rest) =~= ids@ + rest);
                            },
                            _ => {},
                        }
                    }
                },
            }
            j = j + 1;
        }
        proof {
            assert(toks.skip(toks.len() as int) =~= Seq::<Seq<u8>>::empty());
            assert(ids@ + Seq::<i64>::empty() =~= ids@);
        }
        Resolution::Resolved(ids)
    }
}

/// Law (cache correctness): when a token sequence resolved once,
/// resolving it again with the cache's knowledge unchanged in
/// between returns the same ids, and the second pass reports no
/// token for a store lookup: it is answered by the cache alone.
pub proof fn lemma_second_resolution_cached(
    m1: Map<Seq<u8>, Option<i64>>,
    m2: Map<Seq<u8>, Option<i64>>,
    tokens: Seq<Seq<u8>>,
)
    requires
        m2 == m1,
        resolution_spec(m1, tokens) is ResolvedM,
    ensures
        resolution_spec(m2, tokens) == resolution_spec(m1, tokens),
        !(resolution_spec(m2, tokens) is NeedsLookupM),
{
}

/// Moves `key` to the most recent slot if the queue holds it; the
/// key set itself does not change.
fn touch(rec: &mut Vec<Vec<u8>>, key: &Vec<u8>)
    ensures
        final(rec)@.len() == old(rec)@.len(),
        key_set(final(rec)@) == key_set(old(rec)@),
        distinct_views(old(rec)@) ==> distinct_views(final(rec)@),
{
    let mut i: usize = 0;
    while i < rec.len()
        invariant
            0 <= i <= rec@.len(),
            rec@ == old(rec)@,
        decreases rec.len() - i,
    {
        if bytes_eq(rec[i].as_slice(), key.as_slice()) {
            let ghost before = rec@;
            let k = rec.remove(i);
            rec.push(k);
            proof {
                lemma_remove_push(before, i as int);
            }
            return;
        }
        i = i + 1;
    }
}

} // verus!
