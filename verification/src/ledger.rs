//! The completion ledger: which (order, shard index) pairs are
//! already fully ingested.  The ledger only grows; a marker is
//! recorded once a shard's records are durably committed, and its
//! absence means the shard must be (re)processed.

use vstd::prelude::*;

use crate::catalog::{
    shard_count_spec, total_file_num, valid_order, CatalogError, Language, Query,
};
use crate::models::FetchedFile;

verus! {

/// The in-memory image of the completion ledger, as loaded from the
/// store at the start of a run and grown as shards commit.
pub struct Ledger {
    done: Vec<(i64, i64)>,
}

impl View for Ledger {
    type V = Set<(i64, i64)>;

    closed spec fn view(&self) -> Set<(i64, i64)> {
        self.done@.to_set()
    }
}

impl Ledger {
    /// An empty ledger, as a fresh store starts with.
    pub fn new() -> (r: Ledger)
        ensures
            r@ == Set::<(i64, i64)>::empty(),
    {
        let r = Ledger { done: Vec::new() };
        proof {
            assert(r@ =~= Set::<(i64, i64)>::empty());
        }
        r
    }

    /// The ledger as the rows of its table describe it.
    pub fn from_rows(rows: &Vec<FetchedFile>) -> (r: Ledger)
        ensures
            r@ == rows@.map_values(|f: FetchedFile| (f.n, f.idx)).to_set(),
    {
        let mut done: Vec<(i64, i64)> = Vec::new();
        let mut i: usize = 0;
        while i < rows.len()
            invariant
                0 <= i <= rows@.len(),
                done@ == rows@.take(i as int).map_values(|f: FetchedFile| (f.n, f.idx)),
            decreases rows.len() - i,
        {
            let row = &rows[i];
            done.push((row.n, row.idx));
            proof {
                assert(rows@.take(i + 1).drop_last() =~= rows@.take(i as int));
                assert(done@ =~= rows@.take(i + 1).map_values(|f: FetchedFile| (f.n, f.idx)));
            }
            i = i + 1;
        }
        proof {
            assert(rows@.take(rows@.len() as int) =~= rows@);
        }
        Ledger { done }
    }

    /// Point lookup: is shard `idx` of order `n` already ingested?
    pub fn is_complete(&self, n: i64, idx: i64) -> (r: bool)
        ensures
            r == self@.contains((n, idx)),
    {
        let mut i: usize = 0;
        while i < self.done.len()
            invariant
                0 <= i <= self.done@.len(),
                forall|j: int| 0 <= j < i ==> self.done@[j] != (n, idx),
            decreases self.done.len() - i,
        {
            let entry = &self.done[i];
            if entry.0 == n && entry.1 == idx {
                proof {
                    assert(self.done@.contains((n, idx)));
                }
                return true;
            }
            i = i + 1;
        }
        proof {
            assert(!self.done@.contains((n, idx)));
        }
        false
    }

    /// The ledger's content as table rows, as it would be persisted
    /// and later reloaded.
    pub fn rows(&self) -> (r: Vec<FetchedFile>)
        ensures
            r@.map_values(|f: FetchedFile| (f.n, f.idx)).to_set() == self@,
    {
        let mut out: Vec<FetchedFile> = Vec::new();
        let mut i: usize = 0;
        while i < self.done.len()
            invariant
                0 <= i <= self.done@.len(),
                out@.len() == i,
                forall|j: int|
                    0 <= j < i ==> #[trigger] out@[j] == (FetchedFile {
                        n: self.done@[j].0,
                        idx: self.done@[j].1,
                    }),
            decreases self.done.len() - i,
        {
            let p = self.done[i];
            out.push(FetchedFile { n: p.0, idx: p.1 });
            i = i + 1;
        }
        proof {
            assert forall|j: int| 0 <= j < out@.len() implies (out@.map_values(
                |f: FetchedFile| (f.n, f.idx),
            ))[j] == self.done@[j] by {
                assert((self.done@[j].0, self.done@[j].1) =~= self.done@[j]);
            }
            assert(out@.map_values(|f: FetchedFile| (f.n, f.idx)) =~= self.done@);
        }
        out
    }

    /// Records that shard `idx` of order `n` is fully ingested.  The
    /// ledger only grows: the new view is the old with the pair
    /// added.
    pub fn mark_complete(&mut self, n: i64, idx: i64)
        ensures
            final(self)@ == old(self)@.insert((n, idx)),
    {
        if !self.is_complete(n, idx) {
            let ghost before = self.done@;
            self.done.push((n, idx));
            proof {
                assert(self.done@ == before.push((n, idx)));
                assert forall|p: (i64, i64)| self.done@.contains(p)
                    <==> (before.contains(p) || p == (n, idx)) by {
                    if self.done@.contains(p) {
                        let k = choose|k: int|
                            0 <= k < self.done@.len() && self.done@[k] == p;
                        if k < before.len() {
                            assert(before[k] == p);
                        }
                    }
                    if before.contains(p) {
                        let k = choose|k: int| 0 <= k < before.len() && before[k] == p;
                        assert(self.done@[k] == p);
                    }
                    if p == (n, idx) {
                        assert(self.done@[before.len() as int] == p);
                    }
                }
                assert(self@ =~= old(self)@.insert((n, idx)));
            }
        } else {
            proof {
                assert(self@ =~= old(self)@.insert((n, idx)));
            }
        }
    }
}

/// The work items of order `n` still to ingest: every shard of the
/// order, in shard order, with those the ledger marks complete left
/// out.
pub open spec fn pending_spec(lang: Language, n: int, done: Set<(i64, i64)>) -> Seq<Query> {
    all_queries_spec(lang, n).filter(|q: Query| !done.contains((q.n, q.idx)))
}

/// Every work item of order `n`, in shard order.
pub open spec fn all_queries_spec(lang: Language, n: int) -> Seq<Query> {
    Seq::new(
        shard_count_spec(lang, n) as nat,
        |i: int| Query { lang, n: n as i64, idx: i as i64 },
    )
}

/// Enumerates the shards of order `n` that the ledger does not mark
/// complete; an order outside 1 through 5 is an error.
#[verifier::loop_isolation(false)]
pub fn pending_queries(lang: Language, n: i64, ledger: &Ledger) -> (r: Result<
    Vec<Query>,
    CatalogError,
>)
    ensures
        r is Ok <==> valid_order(n as int),
        !valid_order(n as int) ==> r == Err::<Vec<Query>, CatalogError>(CatalogError::InvalidOrder),
        r is Ok ==> r.unwrap()@ == pending_spec(lang, n as int, ledger@),
{
    let total = match total_file_num(lang, n) {
        Ok(t) => t,
        Err(e) => {
            return Err(e);
        },
    };
    let ghost all = all_queries_spec(lang, n as int);
    let ghost pred = |q: Query| !ledger@.contains((q.n, q.idx));
    let mut out: Vec<Query> = Vec::new();
    let mut idx: i64 = 0;
    proof {
        assert(all.take(0) =~= Seq::<Query>::empty());
        reveal_with_fuel(Seq::<_>::filter, 2);
    }
    while idx < total
        invariant
            0 <= idx <= total,
            out@ == all.take(idx as int).filter(pred),
        decreases total - idx,
    {
        let q = Query { lang, n, idx };
        let done = ledger.is_complete(n, idx);
        proof {
            assert(all.take(idx as int).push(q) =~= all.take(idx + 1));
            all.take(idx as int).lemma_filter_push(q, pred);
        }
        if !done {
            out.push(q);
        }
        idx = idx + 1;
    }
    proof {
        assert(all.take(total as int) =~= all);
    }
    Ok(out)
}

/// Law: a shard the ledger marks complete never appears when work is
/// re-enumerated; resume skips done work.
pub proof fn lemma_resume_skips_done(
    lang: Language,
    n: i64,
    done: Set<(i64, i64)>,
    idx: i64,
)
    requires
        done.contains((n, idx)),
    ensures
        !pending_spec(lang, n as int, done).contains(Query { lang, n, idx }),
{
    let pending = pending_spec(lang, n as int, done);
    let pred = |q: Query| !done.contains((q.n, q.idx));
    if pending.contains(Query { lang, n, idx }) {
        let i = choose|i: int| 0 <= i < pending.len() && pending[i] == (Query { lang, n, idx });
        all_queries_spec(lang, n as int).lemma_filter_pred(pred, i);
    }
}

} // verus!
