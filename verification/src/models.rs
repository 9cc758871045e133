//! Row types of the persisted schema: one table per n-gram order, a
//! word table for order one, and the completion ledger.  `New…` rows
//! are what the writer stages for insertion; the plain forms are what
//! store reads hand back.

use vstd::prelude::*;

verus! {

/// A completion-ledger row: shard `idx` of order `n` is fully
/// ingested.
#[derive(Debug, Clone, Copy, PartialEq, Eq, Structural)]
pub struct FetchedFile {
    pub n: i64,
    pub idx: i64,
}

/// A completion-ledger row to be inserted.
#[derive(Debug, Clone, Copy, PartialEq, Eq, Structural)]
pub struct NewFetchedFile {
    pub n: i64,
    pub idx: i64,
}

/// A stored word with its id and aggregate score.
#[derive(Debug, Clone, PartialEq, Eq)]
pub struct OneGram {
    pub id: i64,
    pub word: String,
    pub score: i64,
}

/// A word row to be inserted; the store assigns the id.
#[derive(Debug, Clone, PartialEq, Eq)]
pub struct NewOneGram {
    pub word: String,
    pub score: i64,
}

/// A stored two-word sequence, by constituent word ids.
#[derive(Debug, Clone, Copy, PartialEq, Eq, Structural)]
pub struct TwoGram {
    pub word1: i64,
    pub word2: i64,
    pub score: i64,
}

#[derive(Debug, Clone, Copy, PartialEq, Eq, Structural)]
pub struct NewTwoGram {
    pub word1: i64,
    pub word2: i64,
    pub score: i64,
}

/// A stored three-word sequence, by constituent word ids.
#[derive(Debug, Clone, Copy, PartialEq, Eq, Structural)]
pub struct ThreeGram {
    pub word1: i64,
    pub word2: i64,
    pub word3: i64,
    pub score: i64,
}

#[derive(Debug, Clone, Copy, PartialEq, Eq, Structural)]
pub struct NewThreeGram {
    pub word1: i64,
    pub word2: i64,
    pub word3: i64,
    pub score: i64,
}

/// A stored four-word sequence, by constituent word ids.
#[derive(Debug, Clone, Copy, PartialEq, Eq, Structural)]
pub struct FourGram {
    pub word1: i64,
    pub word2: i64,
    pub word3: i64,
    pub word4: i64,
    pub score: i64,
}

#[derive(Debug, Clone, Copy, PartialEq, Eq, Structural)]
pub struct NewFourGram {
    pub word1: i64,
    pub word2: i64,
    pub word3: i64,
    pub word4: i64,
    pub score: i64,
}

/// A stored five-word sequence, by constituent word ids.
#[derive(Debug, Clone, Copy, PartialEq, Eq, Structural)]
pub struct FiveGram {
    pub word1: i64,
    pub word2: i64,
    pub word3: i64,
    pub word4: i64,
    pub word5: i64,
    pub score: i64,
}

#[derive(Debug, Clone, Copy, PartialEq, Eq, Structural)]
pub struct NewFiveGram {
    pub word1: i64,
    pub word2: i64,
    pub word3: i64,
    pub word4: i64,
    pub word5: i64,
    pub score: i64,
}

} // verus!
