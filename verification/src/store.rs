//! The batch writer's view of the persisted store: per-order tables
//! with insert-or-ignore semantics, and the completion ledger written
//! in the same step as the rows it protects.
//!
//! Duplicate sequences are never inserted twice, so re-processing a
//! partially committed shard after a crash adds nothing that is
//! already there.  The driving code maps each `write_shard` call onto
//! one store transaction.

use vstd::prelude::*;

use crate::codec::{row_ids, row_order, NGramRow};
use crate::ledger::Ledger;
use crate::models::{FetchedFile, NewOneGram};
use vstd::string::StringExecFns;

verus! {

/// Does some row of `table` carry the key `k`?
pub open spec fn has_key<T, K>(table: Seq<T>, key: spec_fn(T) -> K, k: K) -> bool {
    exists|i: int| 0 <= i < table.len() && key(#[trigger] table[i]) == k
}

/// Inserting one row: kept out when its key is already present.
pub open spec fn insert_ignore_one<T, K>(table: Seq<T>, key: spec_fn(T) -> K, r: T) -> Seq<T> {
    if has_key(table, key, key(r)) {
        table
    } else {
        table.push(r)
    }
}

/// Inserting a batch of rows in order, ignoring duplicates.
pub open spec fn insert_ignore_all<T, K>(table: Seq<T>, key: spec_fn(T) -> K, batch: Seq<T>) -> Seq<
    T,
>
    decreases batch.len(),
{
    if batch.len() == 0 {
        table
    } else {
        insert_ignore_one(insert_ignore_all(table, key, batch.drop_last()), key, batch.last())
    }
}

/// No two rows of `table` share a key.
pub open spec fn unique_keys<T, K>(table: Seq<T>, key: spec_fn(T) -> K) -> bool {
    forall|i: int, j: int|
        0 <= i < j < table.len() ==> key(#[trigger] table[i]) != key(#[trigger] table[j])
}

proof fn lemma_batch_keys_present<T, K>(table: Seq<T>, key: spec_fn(T) -> K, batch: Seq<T>)
    ensures
        forall|i: int|
            0 <= i < batch.len() ==> has_key(
                insert_ignore_all(table, key, batch),
                key,
                key(#[trigger] batch[i]),
            ),
    decreases batch.len(),
{
    if batch.len() != 0 {
        let sub = batch.drop_last();
        lemma_batch_keys_present(table, key, sub);
        let prev = insert_ignore_all(table, key, sub);
        let out = insert_ignore_all(table, key, batch);
        assert(out == insert_ignore_one(prev, key, batch.last()));
        assert forall|i: int| 0 <= i < batch.len() implies has_key(
            out,
            key,
            key(#[trigger] batch[i]),
        ) by {
            if i < batch.len() - 1 {
                assert(sub[i] == batch[i]);
                assert(has_key(prev, key, key(sub[i])));
                let j = choose|j: int|
                    0 <= j < prev.len() && key(#[trigger] prev[j]) == key(batch[i]);
                assert(key(out[j]) == key(batch[i]));
            } else {
                if has_key(prev, key, key(batch.last())) {
                    let j = choose|j: int|
                        0 <= j < prev.len() && key(#[trigger] prev[j]) == key(batch.last());
                    assert(key(out[j]) == key(batch[i]));
                } else {
                    assert(out == prev.push(batch.last()));
                    assert(key(out[out.len() - 1]) == key(batch[i]));
                }
            }
        }
    }
}

proof fn lemma_all_present_identity<T, K>(table: Seq<T>, key: spec_fn(T) -> K, batch: Seq<T>)
    requires
        forall|i: int|
            0 <= i < batch.len() ==> has_key(table, key, key(#[trigger] batch[i])),
    ensures
        insert_ignore_all(table, key, batch) == table,
    decreases batch.len(),
{
    if batch.len() != 0 {
        lemma_all_present_identity(table, key, batch.drop_last());
    }
}

/// Law: inserting the same batch twice leaves the table exactly as
/// inserting it once did; re-ingestion creates no duplicate records.
pub proof fn lemma_reingest_idempotent<T, K>(table: Seq<T>, key: spec_fn(T) -> K, batch: Seq<T>)
    ensures
        insert_ignore_all(insert_ignore_all(table, key, batch), key, batch) == insert_ignore_all(
            table,
            key,
            batch,
        ),
{
    let once = insert_ignore_all(table, key, batch);
    lemma_batch_keys_present(table, key, batch);
    lemma_all_present_identity(once, key, batch);
}

/// Law: committing one shard's rows and marker twice leaves both
/// tables and the ledger exactly as one commit does; re-running a
/// shard after a crash or restart produces no duplicate records.
pub proof fn lemma_shard_rewrite_idempotent(
    table: Seq<NGramRow>,
    ledger: Set<(i64, i64)>,
    batch: Seq<NGramRow>,
    n: i64,
    idx: i64,
)
    ensures
        insert_ignore_all(insert_ignore_all(table, ngram_key(), batch), ngram_key(), batch)
            == insert_ignore_all(table, ngram_key(), batch),
        ledger.insert((n, idx)).insert((n, idx)) == ledger.insert((n, idx)),
{
    lemma_reingest_idempotent(table, ngram_key(), batch);
    assert(ledger.insert((n, idx)).insert((n, idx)) =~= ledger.insert((n, idx)));
}

/// Law: a table without duplicate keys stays without them under
/// insert-or-ignore.
pub proof fn lemma_unique_keys_preserved<T, K>(table: Seq<T>, key: spec_fn(T) -> K, batch: Seq<T>)
    requires
        unique_keys(table, key),
    ensures
        unique_keys(insert_ignore_all(table, key, batch), key),
    decreases batch.len(),
{
    if batch.len() != 0 {
        lemma_unique_keys_preserved(table, key, batch.drop_last());
        let prev = insert_ignore_all(table, key, batch.drop_last());
        let r = batch.last();
        if !has_key(prev, key, key(r)) {
            let out = prev.push(r);
            assert forall|i: int, j: int| 0 <= i < j < out.len() implies key(
                #[trigger] out[i],
            ) != key(#[trigger] out[j]) by {
                if j == out.len() - 1 {
                    assert(key(out[i]) != key(r)) by {
                        if key(out[i]) == key(r) {
                            assert(key(prev[i]) == key(r));
                        }
                    }
                }
            }
        }
    }
}

/// The key a staged n-gram row is deduplicated by: its order and its
/// word-id sequence, never its score.
pub open spec fn ngram_key() -> spec_fn(NGramRow) -> (int, Seq<i64>) {
    |r: NGramRow| (row_order(r), row_ids(r))
}

/// The key a word row is deduplicated by: its text.
pub open spec fn word_key() -> spec_fn(NewOneGram) -> Seq<char> {
    |w: NewOneGram| w.word@
}

/// True when `a` and `b` name the same sequence of the same order.
pub fn same_ngram_key(a: &NGramRow, b: &NGramRow) -> (r: bool)
    ensures
        r == (ngram_key()(*a) == ngram_key()(*b)),
{
    let r = match (a, b) {
        (NGramRow::Two(x), NGramRow::Two(y)) => x.word1 == y.word1 && x.word2 == y.word2,
        (NGramRow::Three(x), NGramRow::Three(y)) => x.word1 == y.word1 && x.word2 == y.word2
            && x.word3 == y.word3,
        (NGramRow::Four(x), NGramRow::Four(y)) => x.word1 == y.word1 && x.word2 == y.word2
            && x.word3 == y.word3 && x.word4 == y.word4,
        (NGramRow::Five(x), NGramRow::Five(y)) => x.word1 == y.word1 && x.word2 == y.word2
            && x.word3 == y.word3 && x.word4 == y.word4 && x.word5 == y.word5,
        _ => false,
    };
    proof {
        if r {
            assert(row_ids(*a) =~= row_ids(*b));
        } else {
            if row_order(*a) == row_order(*b) {
                assert(row_ids(*a) != row_ids(*b)) by {
                    if row_ids(*a) == row_ids(*b) {
                        assert(forall|i: int|
                            0 <= i < row_ids(*a).len() ==> row_ids(*a)[i] == row_ids(*b)[i]);
                    }
                }
            }
        }
    }
    r
}

/// The store as the writer sees it: the word table, one logical
/// table for the higher orders, and the completion ledger.  Writes
/// are insert-or-ignore; each write also records the shard marker,
/// standing for one transaction.
pub struct Store {
    words: Vec<NewOneGram>,
    rows: Vec<NGramRow>,
    ledger: Ledger,
}

impl Store {
    pub closed spec fn words(self) -> Seq<NewOneGram> {
        self.words@
    }

    pub closed spec fn rows(self) -> Seq<NGramRow> {
        self.rows@
    }

    pub closed spec fn ledger(self) -> Set<(i64, i64)> {
        self.ledger@
    }

    /// Neither table holds two rows with one key.
    pub open spec fn wf(self) -> bool {
        unique_keys(self.words(), word_key()) && unique_keys(self.rows(), ngram_key())
    }

    /// An empty store, as migration leaves it.
    pub fn new() -> (r: Store)
        ensures
            r.words() == Seq::<NewOneGram>::empty(),
            r.rows() == Seq::<NGramRow>::empty(),
            r.ledger() == Set::<(i64, i64)>::empty(),
            r.wf(),
    {
        Store { words: Vec::new(), rows: Vec::new(), ledger: Ledger::new() }
    }

    /// Point lookup in the completion ledger.
    pub fn is_complete(&self, n: i64, idx: i64) -> (r: bool)
        ensures
            r == self.ledger().contains((n, idx)),
    {
        self.ledger.is_complete(n, idx)
    }

    pub fn row_count(&self) -> (r: usize)
        ensures
            r == self.rows().len(),
    {
        self.rows.len()
    }

    pub fn word_count(&self) -> (r: usize)
        ensures
            r == self.words().len(),
    {
        self.words.len()
    }

    fn contains_ngram_key(&self, r: &NGramRow) -> (b: bool)
        ensures
            b == has_key(self.rows(), ngram_key(), ngram_key()(*r)),
    {
        let mut i: usize = 0;
        while i < self.rows.len()
            invariant
                0 <= i <= self.rows@.len(),
                forall|j: int|
                    0 <= j < i ==> ngram_key()(#[trigger] self.rows@[j]) != ngram_key()(*r),
            decreases self.rows.len() - i,
        {
            if same_ngram_key(&self.rows[i], r) {
                return true;
            }
            i = i + 1;
        }
        false
    }

    fn contains_word_key(&self, w: &NewOneGram) -> (b: bool)
        ensures
            b == has_key(self.words(), word_key(), word_key()(*w)),
    {
        let mut i: usize = 0;
        while i < self.words.len()
            invariant
                0 <= i <= self.words@.len(),
                forall|j: int|
                    0 <= j < i ==> word_key()(#[trigger] self.words@[j]) != word_key()(*w),
            decreases self.words.len() - i,
        {
            if self.words[i].word.eq(&w.word) {
                return true;
            }
            i = i + 1;
        }
        false
    }

    /// One flush of staged rows, without a completion marker: what a
    /// shard leaves behind when the process dies before its marker
    /// is recorded.
    #[verifier::loop_isolation(false)]
    pub fn write_rows(&mut self, batch: &Vec<NGramRow>)
        ensures
            final(self).rows() == insert_ignore_all(old(self).rows(), ngram_key(), batch@),
            final(self).words() == old(self).words(),
            final(self).ledger() == old(self).ledger(),
            old(self).wf() ==> final(self).wf(),
    {
        let mut i: usize = 0;
        while i < batch.len()
            invariant
                0 <= i <= batch@.len(),
                self.rows@ == insert_ignore_all(
                    old(self).rows(),
                    ngram_key(),
                    batch@.take(i as int),
                ),
                self.words@ == old(self).words(),
                self.ledger@ == old(self).ledger(),
            decreases batch.len() - i,
        {
            proof {
                assert(batch@.take(i + 1).drop_last() =~= batch@.take(i as int));
            }
            let row = batch[i];
            if !self.contains_ngram_key(&row) {
                self.rows.push(row);
            }
            i = i + 1;
        }
        proof {
            assert(batch@.take(batch@.len() as int) =~= batch@);
            if old(self).wf() {
                lemma_unique_keys_preserved(old(self).rows(), ngram_key(), batch@);
            }
        }
    }

    /// Commits one shard of order two through five: the batch is
    /// inserted ignoring duplicates, and the shard's completion
    /// marker is recorded in the same step.
    pub fn write_shard(&mut self, n: i64, idx: i64, batch: &Vec<NGramRow>)
        ensures
            final(self).rows() == insert_ignore_all(old(self).rows(), ngram_key(), batch@),
            final(self).words() == old(self).words(),
            final(self).ledger() == old(self).ledger().insert((n, idx)),
            old(self).wf() ==> final(self).wf(),
    {
        self.write_rows(batch);
        self.ledger.mark_complete(n, idx);
    }

    /// Commits one order-one shard: word rows inserted ignoring
    /// duplicate words, and the shard marker recorded in the same
    /// step.
    #[verifier::loop_isolation(false)]
    pub fn write_word_shard(&mut self, idx: i64, batch: &Vec<NewOneGram>)
        ensures
            final(self).words() == insert_ignore_all(old(self).words(), word_key(), batch@),
            final(self).rows() == old(self).rows(),
            final(self).ledger() == old(self).ledger().insert((1, idx)),
            old(self).wf() ==> final(self).wf(),
    {
        let mut i: usize = 0;
        while i < batch.len()
            invariant
                0 <= i <= batch@.len(),
                self.words@ == insert_ignore_all(
                    old(self).words(),
                    word_key(),
                    batch@.take(i as int),
                ),
                self.rows@ == old(self).rows(),
                self.ledger@ == old(self).ledger(),
            decreases batch.len() - i,
        {
            proof {
                assert(batch@.take(i + 1).drop_last() =~= batch@.take(i as int));
            }
            let src = &batch[i];
            let row = NewOneGram { word: src.word.clone(), score: src.score };
            proof {
                assert(row == batch@[i as int]);
            }
            if !self.contains_word_key(&row) {
                self.words.push(row);
            }
            i = i + 1;
        }
        proof {
            assert(batch@.take(batch@.len() as int) =~= batch@);
        }
        self.ledger.mark_complete(1, idx);
        proof {
            if old(self).wf() {
                lemma_unique_keys_preserved(old(self).words(), word_key(), batch@);
            }
        }
    }

    /// What finalization runs once all shards of every order are
    /// ingested: one scoring index per table, in table order.
    pub fn finalize_statements() -> (r: Vec<String>)
        ensures
            r@.len() == 5,
            r@[0]@ == "create index idx_one_grams_score on one_grams(score)"@,
            r@[1]@ == "create index idx_two_grams_score on two_grams(score)"@,
            r@[2]@ == "create index idx_three_grams_score on three_grams(score)"@,
            r@[3]@ == "create index idx_four_grams_score on four_grams(score)"@,
            r@[4]@ == "create index idx_five_grams_score on five_grams(score)"@,
    {
        let mut r: Vec<String> = Vec::new();
        r.push(String::from_str("create index idx_one_grams_score on one_grams(score)"));
        r.push(String::from_str("create index idx_two_grams_score on two_grams(score)"));
        r.push(String::from_str("create index idx_three_grams_score on three_grams(score)"));
        r.push(String::from_str("create index idx_four_grams_score on four_grams(score)"));
        r.push(String::from_str("create index idx_five_grams_score on five_grams(score)"));
        r
    }

    /// The ledger rows this store's completion set would be loaded
    /// from on a later run.
    pub fn ledger_rows(&self) -> (r: Vec<FetchedFile>)
        ensures
            r@.map_values(|f: FetchedFile| (f.n, f.idx)).to_set() == self.ledger(),
    {
        self.ledger.rows()
    }
}

} // verus!
