//! The value that the dictionary keeps for each term.

use vstd::prelude::*;

verus! {

/// Where the postings of a term are, and how many documents hold the term.
#[derive(Debug, Clone, Copy, PartialEq, Eq, Structural)]
pub struct TermInfo {
    /// Number of documents that hold the term.
    pub doc_freq: u32,
    /// Offset of the term's postings in the postings file.
    pub postings_offset: u32,
    /// Offset of the term's positions in the positions file.
    pub positions_offset: u32,
    /// Offset inside the block of positions at `positions_offset`.
    pub positions_inner_offset: u8,
}

impl Default for TermInfo {
    /// The record whose fields are all zero.
    fn default() -> (res: TermInfo)
        ensures
            res == TermInfo::zero(),
    {
        TermInfo { doc_freq: 0, postings_offset: 0, positions_offset: 0, positions_inner_offset: 0 }
    }
}

impl TermInfo {
    /// The record whose fields are all zero.
    pub open spec fn zero() -> TermInfo {
        TermInfo { doc_freq: 0, postings_offset: 0, positions_offset: 0, positions_inner_offset: 0 }
    }
}

} // verus!
