//! The values stored per position and per block.

use vstd::prelude::*;

verus! {

/// What is known about one position of a sequence, or about one token of a
/// symbol table.
#[derive(Debug, Clone, Copy, PartialEq, Eq, Structural)]
pub enum Reference {
    /// Not resolved yet.
    Unknown,
    /// The position exists only in the old sequence.
    Delete,
    /// The position exists only in the new sequence.
    Insert,
    /// The token occurs more than once in its sequence.
    Multiple,
    /// The position corresponds to this position of the other sequence; in
    /// a symbol table, the only position at which the token occurs.
    Confirmed(usize),
}

/// A maximal run of old positions of one kind.
#[derive(Debug, Clone, Copy, PartialEq, Eq, Structural)]
pub enum BlockReference {
    /// `count` matched positions; the first of them corresponds to
    /// `new_line_begin` in the new sequence.
    Match { new_line_begin: usize, count: usize },
    /// `count` deleted positions, starting at `old_line_begin`.
    Delete { old_line_begin: usize, count: usize },
}

/// A breach of an invariant that the alignment stages rely on.
#[derive(Debug, Clone, Copy, PartialEq, Eq, Structural)]
pub enum DiffError {
    /// A token picked as an anchor has no single position recorded for it
    /// in one of the symbol tables.
    AnchorConsistencyViolation,
    /// A mapping entry met while building blocks is neither matched nor
    /// deleted.
    AggregationStateViolation,
}

} // verus!
