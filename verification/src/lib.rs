//! Position-level alignment of two token sequences.
//!
//! Tokens that occur exactly once in both sequences anchor the alignment;
//! the anchors are then grown over adjacent equal tokens, and whatever is
//! left over is reported as deleted from the old sequence or inserted into
//! the new one. The old side of the result can be summarised as blocks.

pub mod alignment;
pub mod anchors;
pub mod blocks;
pub mod diff;
pub mod entry;
pub mod expand;
pub mod mapping;
pub mod symbols;
pub mod token;

pub use anchors::anchor_lines;
pub use diff::{Diff, SymbolTable};
pub use entry::{BlockReference, DiffError, Reference};
pub use expand::Direction;
