//! Checkpoints: the absolute offsets at the start of a block, from which
//! decoding can resume.

use crate::common::{deserialize_u32, le_bytes, le_value, serialize_u32};
use crate::common::{lemma_le_bytes_len, lemma_le_roundtrip, lemma_pow256_values};
use crate::error::DictError;
use vstd::prelude::*;

verus! {

/// The number of bytes of a serialized checkpoint.
pub const CHECKPOINT_SIZE: usize = 12;

/// The state of the stream where a block starts: where its first record
/// begins, and the postings and positions offsets reached before it.
#[derive(Debug, Clone, Copy, PartialEq, Eq, Structural)]
pub struct CheckPoint {
    /// Offset in the stream of the block's first record.
    pub stream_offset: u32,
    /// Postings offset of the entry before the block, or zero.
    pub postings_offset: u32,
    /// Positions offset of the entry before the block, or zero.
    pub positions_offset: u32,
}

impl CheckPoint {
    /// The twelve bytes of a checkpoint: its three fields, little-endian.
    pub open spec fn spec_bytes(self) -> Seq<u8> {
        le_bytes(self.stream_offset as nat, 4) + le_bytes(self.postings_offset as nat, 4)
            + le_bytes(self.positions_offset as nat, 4)
    }

    /// The checkpoint that the twelve bytes of `data` from `pos` on hold.
    pub open spec fn spec_parse(data: Seq<u8>, pos: int) -> CheckPoint {
        CheckPoint {
            stream_offset: le_value(data.subrange(pos, pos + 4)) as u32,
            postings_offset: le_value(data.subrange(pos + 4, pos + 8)) as u32,
            positions_offset: le_value(data.subrange(pos + 8, pos + 12)) as u32,
        }
    }

    /// Appends the checkpoint's twelve bytes to `writer`.
    pub fn serialize(&self, writer: &mut Vec<u8>)
        ensures
            final(writer)@ == old(writer)@ + self.spec_bytes(),
            final(writer)@.len() == old(writer)@.len() + 12,
    {
        serialize_u32(self.stream_offset, writer);
        serialize_u32(self.postings_offset, writer);
        serialize_u32(self.positions_offset, writer);
        proof {
            self.lemma_spec_bytes_len();
            assert(writer@ =~= old(writer)@ + self.spec_bytes());
        }
    }

    /// Reads the checkpoint that starts at `pos`; `data` must hold twelve
    /// bytes there.
    pub fn deserialize(data: &[u8], pos: usize) -> (res: Result<CheckPoint, DictError>)
        ensures
            res == (if pos + 12 <= data@.len() {
                Ok(CheckPoint::spec_parse(data@, pos as int))
            } else {
                Err(DictError::Corrupted)
            }),
    {
        if data.len() < 12 || pos > data.len() - 12 {
            return Err(DictError::Corrupted);
        }
        let stream_offset = deserialize_u32(data, pos)?;
        let postings_offset = deserialize_u32(data, pos + 4)?;
        let positions_offset = deserialize_u32(data, pos + 8)?;
        Ok(CheckPoint { stream_offset, postings_offset, positions_offset })
    }

    /// A checkpoint takes twelve bytes.
    pub proof fn lemma_spec_bytes_len(self)
        ensures
            self.spec_bytes().len() == 12,
    {
        lemma_le_bytes_len(self.stream_offset as nat, 4);
        lemma_le_bytes_len(self.postings_offset as nat, 4);
        lemma_le_bytes_len(self.positions_offset as nat, 4);
    }

    /// A checkpoint is read back from its bytes, wherever they stand.
    pub proof fn lemma_parse_bytes(self, data: Seq<u8>, pos: int)
        requires
            0 <= pos,
            pos + 12 <= data.len(),
            data.subrange(pos, pos + 12) == self.spec_bytes(),
        ensures
            CheckPoint::spec_parse(data, pos) == self,
    {
        lemma_le_bytes_len(self.stream_offset as nat, 4);
        lemma_le_bytes_len(self.postings_offset as nat, 4);
        lemma_le_bytes_len(self.positions_offset as nat, 4);
        lemma_pow256_values();
        lemma_le_roundtrip(self.stream_offset as nat, 4);
        lemma_le_roundtrip(self.postings_offset as nat, 4);
        lemma_le_roundtrip(self.positions_offset as nat, 4);
        let b = self.spec_bytes();
        assert(data.subrange(pos, pos + 4) =~= b.subrange(0, 4));
        assert(data.subrange(pos + 4, pos + 8) =~= b.subrange(4, 8));
        assert(data.subrange(pos + 8, pos + 12) =~= b.subrange(8, 12));
        assert(b.subrange(0, 4) =~= le_bytes(self.stream_offset as nat, 4));
        assert(b.subrange(4, 8) =~= le_bytes(self.postings_offset as nat, 4));
        assert(b.subrange(8, 12) =~= le_bytes(self.positions_offset as nat, 4));
    }
}

} // verus!
