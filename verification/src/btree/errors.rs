//! Errors surfaced by the page engine.

use vstd::prelude::*;

verus! {

/// Why a page operation was refused. A refused operation leaves the page as it was.
#[derive(Debug)]
pub enum BTreeError {
    /// The first bytes of the page do not form a header.
    InvalidHeader(InvalidHeaderError),
    /// The buffer handed over is not exactly one page long.
    SizeMismatch { expected: usize, actual: usize },
    /// The key and value do not fit, even after compaction.
    NotEnoughSpace { required: usize, actual: usize },
    /// The value is too long for a 16-bit length field.
    InvalidValueLength,
}

/// What is wrong with a header.
#[derive(Debug)]
pub enum InvalidHeaderError {
    /// The node type byte is neither `0` (internal) nor `1` (leaf).
    InvalidNodeType(u8),
}

} // verus!
