//! Delta encoding of keys against the key before them, and of `TermInfo`
//! records against the record before them.

use crate::checkpoint::CheckPoint;
use crate::common::{le_value, lemma_le_value_bound, lemma_pow256_values, read_le};
use crate::error::DictError;
use crate::order::{common_prefix_len, lemma_common_prefix_len, spec_common_prefix_len};
use crate::postings::TermInfo;
use vstd::prelude::*;

verus! {

/// Encodes each key as the number of bytes it shares with the key before it
/// and the bytes that follow them.
pub struct TermDeltaEncoder {
    last_term: Vec<u8>,
    prefix_len: usize,
}

impl Default for TermDeltaEncoder {
    /// An encoder that has seen no key.
    fn default() -> (res: TermDeltaEncoder)
        ensures
            res.wf(),
            res.spec_term() == Seq::<u8>::empty(),
            res.spec_prefix_len() == 0,
    {
        TermDeltaEncoder { last_term: Vec::new(), prefix_len: 0 }
    }
}

impl TermDeltaEncoder {
    /// The key encoded last; empty before the first and after a reset.
    pub closed spec fn spec_term(&self) -> Seq<u8> {
        self.last_term@
    }

    /// The number of bytes that the key encoded last shares with the key
    /// that was there before it.
    pub closed spec fn spec_prefix_len(&self) -> nat {
        self.prefix_len as nat
    }

    /// The prefix is part of the key.
    pub closed spec fn wf(&self) -> bool {
        self.prefix_len <= self.last_term@.len()
    }

    /// Takes `term` as the next key.
    pub fn encode(&mut self, term: &[u8])
        ensures
            final(self).wf(),
            final(self).spec_term() == term@,
            final(self).spec_prefix_len() == spec_common_prefix_len(term@, old(self).spec_term()),
    {
        self.prefix_len = common_prefix_len(term, self.last_term.as_slice());
        self.last_term.truncate(self.prefix_len);
        let suffix = vstd::slice::slice_subrange(term, self.prefix_len, term.len());
        self.last_term.extend_from_slice(suffix);
        proof {
            lemma_common_prefix_len(term@, old(self).spec_term());
            assert(self.last_term@ =~= term@);
        }
    }

    /// The key encoded last.
    pub fn term(&self) -> (res: &[u8])
        ensures
            res@ == self.spec_term(),
    {
        self.last_term.as_slice()
    }

    /// The key encoded last, as the length of the prefix it shares with the
    /// key before it and the bytes after that prefix.
    pub fn prefix_suffix(&self) -> (res: (usize, &[u8]))
        requires
            self.wf(),
        ensures
            res.0 == self.spec_prefix_len(),
            res.0 <= self.spec_term().len(),
            res.1@ == self.spec_term().skip(self.spec_prefix_len() as int),
    {
        let suffix = vstd::slice::slice_subrange(
            self.last_term.as_slice(),
            self.prefix_len,
            self.last_term.len(),
        );
        (self.prefix_len, suffix)
    }

    /// Forgets the key encoded last, so that the next key shares nothing
    /// with it.
    pub fn reset(&mut self)
        ensures
            final(self).wf(),
            final(self).spec_term() == Seq::<u8>::empty(),
            final(self).spec_prefix_len() == 0,
    {
        self.last_term.clear();
        self.prefix_len = 0;
    }
}

/// Whether a code byte tells the short form of the key's two lengths.
pub open spec fn code_is_short(code: u8) -> bool {
    code % 2 == 1
}

/// The byte width of the document frequency that a code byte tells.
pub open spec fn code_doc_freq_width(code: u8) -> int {
    (code / 2) % 4 + 1
}

/// The byte width of the postings delta that a code byte tells.
pub open spec fn code_postings_width(code: u8) -> int {
    (code / 8) % 4 + 1
}

/// The byte width of the positions delta that a code byte tells.
pub open spec fn code_positions_width(code: u8) -> int {
    (code / 32) % 4 + 1
}

/// The key that the bytes of `data` from `pos` on tell, after a code byte
/// `code` and a key `prev`, with the position after the key's bytes; `None`
/// where the bytes end too early or ask for more of `prev` than there is.
pub open spec fn parse_key(data: Seq<u8>, pos: int, code: u8, prev: Seq<u8>) -> Option<
    (Seq<u8>, int),
> {
    if code_is_short(code) {
        if pos + 1 > data.len() {
            None
        } else {
            parse_key_body(data, pos + 1, (data[pos] % 16) as int, (data[pos] / 16) as int, prev)
        }
    } else {
        if pos + 8 > data.len() {
            None
        } else {
            parse_key_body(
                data,
                pos + 8,
                le_value(data.subrange(pos, pos + 4)) as int,
                le_value(data.subrange(pos + 4, pos + 8)) as int,
                prev,
            )
        }
    }
}

/// The key made of the first `prefix_len` bytes of `prev` and of the
/// `suffix_len` bytes of `data` from `pos` on.
pub open spec fn parse_key_body(
    data: Seq<u8>,
    pos: int,
    prefix_len: int,
    suffix_len: int,
    prev: Seq<u8>,
) -> Option<(Seq<u8>, int)> {
    if prefix_len > prev.len() || pos + suffix_len > data.len() {
        None
    } else {
        Some(
            (prev.subrange(0, prefix_len) + data.subrange(pos, pos + suffix_len), pos + suffix_len),
        )
    }
}

/// Rebuilds each key from the key before it and the bytes of its record.
pub struct TermDeltaDecoder {
    term: Vec<u8>,
}

impl Default for TermDeltaDecoder {
    /// A decoder that has seen no key.
    fn default() -> (res: TermDeltaDecoder)
        ensures
            res.spec_term() == Seq::<u8>::empty(),
    {
        TermDeltaDecoder { term: Vec::new() }
    }
}

/// The two nibbles and the lowest bit of a byte, by masks and shifts and by
/// division.
proof fn lemma_short_byte_bits(b: u8)
    ensures
        b & 15 == b % 16,
        b >> 4u8 == b / 16,
        (b & 1 == 1) == (b % 2 == 1),
{
    assert(b & 15 == b % 16) by (bit_vector);
    assert(b >> 4u8 == b / 16) by (bit_vector);
    assert((b & 1 == 1) == (b % 2 == 1)) by (bit_vector);
}

/// The three width fields of a code byte, by masks and shifts and by
/// division.
proof fn lemma_width_bits(code: u8)
    ensures
        (code >> 1u8) & 3 == (code / 2) % 4,
        (code >> 3u8) & 3 == (code / 8) % 4,
        (code >> 5u8) & 3 == (code / 32) % 4,
{
    assert((code >> 1u8) & 3 == (code / 2) % 4) by (bit_vector);
    assert((code >> 3u8) & 3 == (code / 8) % 4) by (bit_vector);
    assert((code >> 5u8) & 3 == (code / 32) % 4) by (bit_vector);
}

impl TermDeltaDecoder {
    /// The key decoded last.
    pub closed spec fn spec_term(&self) -> Seq<u8> {
        self.term@
    }

    /// A decoder that takes `term` for the key before the next record.
    pub fn with_previous_term(term: Vec<u8>) -> (res: TermDeltaDecoder)
        ensures
            res.spec_term() == term@,
    {
        TermDeltaDecoder { term }
    }

    /// Reads the key of a record whose code byte is `code` from `data` at
    /// `pos`, and returns the position after the key's bytes. Where the
    /// bytes do not hold a key, the decoder stays as it was.
    pub fn decode(&mut self, code: u8, data: &[u8], pos: usize) -> (res: Result<usize, DictError>)
        ensures
            match parse_key(data@, pos as int, code, old(self).spec_term()) {
                Some((key, next)) => res == Ok::<usize, DictError>(next as usize) && next
                    <= data@.len() && final(self).spec_term() == key,
                None => res == Err::<usize, DictError>(DictError::Corrupted)
                    && final(self).spec_term() == old(self).spec_term(),
            },
    {
        let len = data.len();
        let prefix_len: usize;
        let suffix_len: usize;
        let body: usize;
        proof {
            lemma_short_byte_bits(code);
        }
        if (code & 1u8) == 1u8 {
            if pos >= len {
                return Err(DictError::Corrupted);
            }
            let b = data[pos];
            proof {
                lemma_short_byte_bits(b);
            }
            prefix_len = (b & 15u8) as usize;
            suffix_len = (b >> 4u8) as usize;
            body = pos + 1;
        } else {
            if len < 8 || pos > len - 8 {
                return Err(DictError::Corrupted);
            }
            proof {
                lemma_le_value_bound(data@.subrange(pos as int, pos + 4));
                lemma_le_value_bound(data@.subrange(pos + 4, pos + 8));
                lemma_pow256_values();
            }
            let p = read_le(data, pos, 4);
            let s = read_le(data, pos + 4, 4);
            prefix_len = p as usize;
            suffix_len = s as usize;
            body = pos + 8;
        }
        if prefix_len > self.term.len() || suffix_len > len - body {
            return Err(DictError::Corrupted);
        }
        self.term.truncate(prefix_len);
        let suffix = vstd::slice::slice_subrange(data, body, body + suffix_len);
        self.term.extend_from_slice(suffix);
        assert(self.term@ =~= old(self).term@.subrange(0, prefix_len as int) + data@.subrange(
            body as int,
            body + suffix_len,
        ));
        Ok(body + suffix_len)
    }

    /// The key decoded last.
    pub fn term(&self) -> (res: &[u8])
        ensures
            res@ == self.spec_term(),
    {
        self.term.as_slice()
    }
}

/// A `TermInfo` as the stream holds it: the document frequency as it is,
/// the two offsets as their distance from the entry before.
#[derive(Debug, Clone, Copy, PartialEq, Eq, Structural)]
pub struct DeltaTermInfo {
    /// Number of documents that hold the term.
    pub doc_freq: u32,
    /// Postings offset, less that of the entry before.
    pub delta_postings_offset: u32,
    /// Positions offset, less that of the entry before.
    pub delta_positions_offset: u32,
    /// Offset inside the block of positions.
    pub positions_inner_offset: u8,
}

/// Whether `info` can follow `prev`: its postings offset does not go back,
/// nor, with positions, its positions offset.
pub open spec fn spec_encodable(prev: TermInfo, info: TermInfo, has_positions: bool) -> bool {
    &&& prev.postings_offset <= info.postings_offset
    &&& has_positions ==> prev.positions_offset <= info.positions_offset
}

/// What the stream holds of `info` after `prev`. Without positions the
/// positions delta and the inner offset are zero.
pub open spec fn spec_delta(prev: TermInfo, info: TermInfo, has_positions: bool) -> DeltaTermInfo {
    DeltaTermInfo {
        doc_freq: info.doc_freq,
        delta_postings_offset: (info.postings_offset - prev.postings_offset) as u32,
        delta_positions_offset: if has_positions {
            (info.positions_offset - prev.positions_offset) as u32
        } else {
            0
        },
        positions_inner_offset: if has_positions {
            info.positions_inner_offset
        } else {
            0
        },
    }
}

/// Encodes each `TermInfo` against the one before it.
pub struct TermInfoDeltaEncoder {
    term_info: TermInfo,
    has_positions: bool,
}

impl TermInfoDeltaEncoder {
    /// The `TermInfo` encoded last: the offsets that the next one is
    /// measured against.
    pub closed spec fn spec_term_info(&self) -> TermInfo {
        self.term_info
    }

    /// Whether positions are written.
    pub closed spec fn spec_has_positions(&self) -> bool {
        self.has_positions
    }

    /// Whether positions are written.
    pub fn has_positions(&self) -> (res: bool)
        ensures
            res == self.spec_has_positions(),
    {
        self.has_positions
    }

    /// An encoder whose first `TermInfo` is measured against zero.
    pub fn new(has_positions: bool) -> (res: TermInfoDeltaEncoder)
        ensures
            res.spec_term_info() == TermInfo::zero(),
            res.spec_has_positions() == has_positions,
    {
        TermInfoDeltaEncoder {
            term_info: TermInfo {
                doc_freq: 0,
                postings_offset: 0,
                positions_offset: 0,
                positions_inner_offset: 0,
            },
            has_positions,
        }
    }

    /// The `TermInfo` encoded last.
    pub fn term_info(&self) -> (res: &TermInfo)
        ensures
            *res == self.spec_term_info(),
    {
        &self.term_info
    }

    /// Tells whether `term_info` can follow the one encoded last.
    pub fn can_encode(&self, term_info: &TermInfo) -> (res: bool)
        ensures
            res == spec_encodable(self.spec_term_info(), *term_info, self.spec_has_positions()),
    {
        self.term_info.postings_offset <= term_info.postings_offset && (!self.has_positions
            || self.term_info.positions_offset <= term_info.positions_offset)
    }

    /// Computes what the stream holds of `term_info` after the one encoded
    /// last. The encoder stays as it is.
    pub fn delta(&self, term_info: &TermInfo) -> (res: DeltaTermInfo)
        requires
            spec_encodable(self.spec_term_info(), *term_info, self.spec_has_positions()),
        ensures
            res == spec_delta(self.spec_term_info(), *term_info, self.spec_has_positions()),
    {
        let mut delta_term_info = DeltaTermInfo {
            doc_freq: term_info.doc_freq,
            delta_postings_offset: term_info.postings_offset - self.term_info.postings_offset,
            delta_positions_offset: 0,
            positions_inner_offset: 0,
        };
        if self.has_positions {
            delta_term_info.delta_positions_offset = term_info.positions_offset
                - self.term_info.positions_offset;
            delta_term_info.positions_inner_offset = term_info.positions_inner_offset;
        }
        delta_term_info
    }

    /// Encodes `term_info` against the one encoded last and takes its
    /// offsets for the next. An offset that goes back is refused, and the
    /// encoder stays as it was.
    pub fn encode(&mut self, term_info: TermInfo) -> (res: Result<DeltaTermInfo, DictError>)
        ensures
            final(self).spec_has_positions() == old(self).spec_has_positions(),
            spec_encodable(old(self).spec_term_info(), term_info, old(self).spec_has_positions())
                ==> res == Ok::<DeltaTermInfo, DictError>(
                spec_delta(old(self).spec_term_info(), term_info, old(self).spec_has_positions()),
            ) && final(self).spec_term_info() == term_info,
            !spec_encodable(old(self).spec_term_info(), term_info, old(self).spec_has_positions())
                ==> res == Err::<DeltaTermInfo, DictError>(DictError::InvalidArgument)
                && final(self).spec_term_info() == old(self).spec_term_info(),
    {
        if !self.can_encode(&term_info) {
            return Err(DictError::InvalidArgument);
        }
        let delta_term_info = self.delta(&term_info);
        self.term_info = term_info;
        Ok(delta_term_info)
    }

    /// Starts a block at `checkpoint`: the next `TermInfo` is measured
    /// against the checkpoint's offsets, as a decoder that resumes there
    /// measures it.
    pub fn reset(&mut self, checkpoint: &CheckPoint)
        ensures
            final(self).spec_has_positions() == old(self).spec_has_positions(),
            final(self).spec_term_info() == spec_resume_info(*checkpoint),
    {
        self.term_info = TermInfo {
            doc_freq: 0,
            postings_offset: checkpoint.postings_offset,
            positions_offset: checkpoint.positions_offset,
            positions_inner_offset: 0,
        };
    }
}

/// The `TermInfo` that decoding resumes from at a checkpoint.
pub open spec fn spec_resume_info(checkpoint: CheckPoint) -> TermInfo {
    TermInfo {
        doc_freq: 0,
        postings_offset: checkpoint.postings_offset,
        positions_offset: checkpoint.positions_offset,
        positions_inner_offset: 0,
    }
}

/// The `TermInfo` that the bytes of `data` from `pos` on tell, after a code
/// byte `code` and a `TermInfo` `prev`, with the position after its bytes;
/// `None` where the bytes end too early or an offset leaves the range of
/// `u32`. Without positions the two positions fields stay those of `prev`.
pub open spec fn parse_info(
    data: Seq<u8>,
    pos: int,
    code: u8,
    prev: TermInfo,
    has_positions: bool,
) -> Option<(TermInfo, int)> {
    let n1 = code_doc_freq_width(code);
    let n2 = code_postings_width(code);
    let n3 = code_positions_width(code);
    let doc_freq = le_value(data.subrange(pos, pos + n1));
    let postings = prev.postings_offset + le_value(data.subrange(pos + n1, pos + n1 + n2));
    let positions = prev.positions_offset + le_value(
        data.subrange(pos + n1 + n2, pos + n1 + n2 + n3),
    );
    if pos + n1 + n2 > data.len() || postings > u32::MAX {
        None
    } else if !has_positions {
        Some(
            (
                TermInfo {
                    doc_freq: doc_freq as u32,
                    postings_offset: postings as u32,
                    positions_offset: prev.positions_offset,
                    positions_inner_offset: prev.positions_inner_offset,
                },
                pos + n1 + n2,
            ),
        )
    } else if pos + n1 + n2 + n3 + 1 > data.len() || positions > u32::MAX {
        None
    } else {
        Some(
            (
                TermInfo {
                    doc_freq: doc_freq as u32,
                    postings_offset: postings as u32,
                    positions_offset: positions as u32,
                    positions_inner_offset: data[pos + n1 + n2 + n3],
                },
                pos + n1 + n2 + n3 + 1,
            ),
        )
    }
}

/// Rebuilds each `TermInfo` from the one before it and the bytes of its
/// record.
pub struct TermInfoDeltaDecoder {
    term_info: TermInfo,
    has_positions: bool,
}

impl TermInfoDeltaDecoder {
    /// The `TermInfo` decoded last.
    pub closed spec fn spec_term_info(&self) -> TermInfo {
        self.term_info
    }

    /// Whether the records hold positions.
    pub closed spec fn spec_has_positions(&self) -> bool {
        self.has_positions
    }

    /// A decoder that takes `term_info` for the entry before the next
    /// record.
    pub fn from_term_info(term_info: TermInfo, has_positions: bool) -> (res: TermInfoDeltaDecoder)
        ensures
            res.spec_term_info() == term_info,
            res.spec_has_positions() == has_positions,
    {
        TermInfoDeltaDecoder { term_info, has_positions }
    }

    /// A decoder that resumes at `checkpoint`.
    pub fn from_checkpoint(checkpoint: &CheckPoint, has_positions: bool) -> (res:
        TermInfoDeltaDecoder)
        ensures
            res.spec_term_info() == spec_resume_info(*checkpoint),
            res.spec_has_positions() == has_positions,
    {
        TermInfoDeltaDecoder {
            term_info: TermInfo {
                doc_freq: 0u32,
                postings_offset: checkpoint.postings_offset,
                positions_offset: checkpoint.positions_offset,
                positions_inner_offset: 0u8,
            },
            has_positions,
        }
    }

    /// Reads the `TermInfo` of a record whose code byte is `code` from
    /// `data` at `pos`, and returns the position after its bytes. Where the
    /// bytes do not hold one, the decoder stays as it was.
    pub fn decode(&mut self, code: u8, data: &[u8], pos: usize) -> (res: Result<usize, DictError>)
        ensures
            final(self).spec_has_positions() == old(self).spec_has_positions(),
            match parse_info(
                data@,
                pos as int,
                code,
                old(self).spec_term_info(),
                old(self).spec_has_positions(),
            ) {
                Some((info, next)) => res == Ok::<usize, DictError>(next as usize) && next
                    <= data@.len() && final(self).spec_term_info() == info,
                None => res == Err::<usize, DictError>(DictError::Corrupted)
                    && final(self).spec_term_info() == old(self).spec_term_info(),
            },
    {
        let len = data.len();
        proof {
            lemma_width_bits(code);
            lemma_pow256_values();
        }
        let num_bytes_docfreq: usize = ((code >> 1u8) & 3u8) as usize + 1;
        let num_bytes_postings_offset: usize = ((code >> 3u8) & 3u8) as usize + 1;
        let num_bytes_positions_offset: usize = ((code >> 5u8) & 3u8) as usize + 1;
        if pos > len || len - pos < num_bytes_docfreq + num_bytes_postings_offset {
            return Err(DictError::Corrupted);
        }
        let after_docfreq = pos + num_bytes_docfreq;
        let after_postings = after_docfreq + num_bytes_postings_offset;
        proof {
            lemma_le_value_bound(data@.subrange(pos as int, after_docfreq as int));
            lemma_le_value_bound(data@.subrange(after_docfreq as int, after_postings as int));
        }
        let doc_freq = read_le(data, pos, num_bytes_docfreq);
        let delta_postings_offset = read_le(data, after_docfreq, num_bytes_postings_offset);
        let postings_offset = self.term_info.postings_offset as u64 + delta_postings_offset;
        if postings_offset > u32::MAX as u64 {
            return Err(DictError::Corrupted);
        }
        if !self.has_positions {
            self.term_info.doc_freq = doc_freq as u32;
            self.term_info.postings_offset = postings_offset as u32;
            return Ok(after_postings);
        }
        if len - after_postings < num_bytes_positions_offset + 1 {
            return Err(DictError::Corrupted);
        }
        let after_positions = after_postings + num_bytes_positions_offset;
        proof {
            lemma_le_value_bound(data@.subrange(after_postings as int, after_positions as int));
        }
        let delta_positions_offset = read_le(data, after_postings, num_bytes_positions_offset);
        let positions_offset = self.term_info.positions_offset as u64 + delta_positions_offset;
        if positions_offset > u32::MAX as u64 {
            return Err(DictError::Corrupted);
        }
        self.term_info.doc_freq = doc_freq as u32;
        self.term_info.postings_offset = postings_offset as u32;
        self.term_info.positions_offset = positions_offset as u32;
        self.term_info.positions_inner_offset = data[after_positions];
        Ok(after_positions + 1)
    }

    /// The `TermInfo` decoded last.
    pub fn term_info(&self) -> (res: &TermInfo)
        ensures
            *res == self.spec_term_info(),
    {
        &self.term_info
    }
}

} // verus!
