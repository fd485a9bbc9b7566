//! Streaming the entries of a dictionary in order, between two bounds.

use crate::block_index::none_le;
use crate::delta_encoder::{TermDeltaDecoder, TermInfoDeltaDecoder};
use crate::layout::{block_key, block_pairs, entries_ordered, stream_of, stream_upto};
use crate::layout::{keys_ascend, lemma_stream_upto_len};
use crate::order::{is_prefix, key_lt, lex_le, lex_lt};
use crate::order::{lemma_lex_le_transitive, lemma_lex_trichotomy};
use crate::postings::TermInfo;
use crate::record::read_term_kv;
use crate::stream::{below, lemma_parse_entry, lemma_rank_is, rank, resumable};
use crate::termdict::{lemma_block_pairs, spec_block_of, TermDictionaryImpl};
use vstd::prelude::*;

verus! {

/// The byte string that follows, in the order of the keys, all the strings
/// that begin with `prefix`: `prefix` without its trailing bytes `0xff`,
/// its last byte raised by one. There is none where `prefix` is empty or
/// made of bytes `0xff` only.
pub open spec fn spec_prefix_successor(prefix: Seq<u8>) -> Option<Seq<u8>>
    decreases prefix.len(),
{
    if prefix.len() == 0 {
        None
    } else if prefix.last() == 255 {
        spec_prefix_successor(prefix.drop_last())
    } else {
        Some(prefix.drop_last().push((prefix.last() + 1) as u8))
    }
}

/// Computes the byte string that follows all the strings that begin with
/// `prefix`, if there is one.
pub fn prefix_successor(prefix: &[u8]) -> (res: Option<Vec<u8>>)
    ensures
        match spec_prefix_successor(prefix@) {
            Some(s) => res is Some && res->Some_0@ == s,
            None => res is None,
        },
{
    let mut n: usize = prefix.len();
    assert(prefix@.take(n as int) =~= prefix@);
    while n > 0 && prefix[n - 1] == 255u8
        invariant
            n <= prefix@.len(),
            spec_prefix_successor(prefix@) == spec_prefix_successor(prefix@.take(n as int)),
        decreases n,
    {
        proof {
            assert(prefix@.take(n as int).drop_last() =~= prefix@.take(n - 1));
        }
        n = n - 1;
    }
    if n == 0 {
        return None;
    }
    let mut successor = vstd::slice::slice_to_vec(vstd::slice::slice_subrange(prefix, 0, n - 1));
    successor.push(prefix[n - 1] + 1);
    proof {
        assert(prefix@.take(n as int).drop_last() =~= prefix@.subrange(0, n - 1));
    }
    Some(successor)
}

/// The keys that begin with `prefix` are the keys from `prefix` on and
/// before its successor.
pub proof fn lemma_prefix_range(prefix: Seq<u8>, k: Seq<u8>)
    ensures
        is_prefix(prefix, k) <==> lex_le(prefix, k) && match spec_prefix_successor(prefix) {
            Some(s) => lex_lt(k, s),
            None => true,
        },
    decreases prefix.len(),
{
    let n = prefix.len() as int;
    if n == 0 {
        crate::order::lemma_prefix_le(prefix, k);
    } else if prefix.last() == 255 {
        let shorter = prefix.drop_last();
        lemma_prefix_range(shorter, k);
        if is_prefix(prefix, k) {
            assert(is_prefix(shorter, k));
            crate::order::lemma_prefix_le(prefix, k);
        }
        if lex_le(prefix, k) && (spec_prefix_successor(prefix) is Some ==> lex_lt(
            k,
            spec_prefix_successor(prefix)->Some_0,
        )) {
            assert(is_prefix(shorter, prefix));
            crate::order::lemma_prefix_le(shorter, prefix);
            lemma_lex_le_transitive(shorter, prefix, k);
            assert(is_prefix(shorter, k));
            lemma_lex_trichotomy(prefix, k);
            if k.len() == n - 1 {
                assert(is_prefix(k, prefix));
                crate::order::lemma_prefix_le(k, prefix);
                assert(k =~= prefix);
            } else if k[n - 1] != 255 {
                assert(crate::order::agree(prefix, k, n - 1));
                crate::order::lemma_lex_by_first_difference(prefix, k, n - 1);
            }
        }
    } else {
        let s = prefix.drop_last().push((prefix.last() + 1) as u8);
        if is_prefix(prefix, k) {
            crate::order::lemma_prefix_le(prefix, k);
            assert(crate::order::agree(k, s, n - 1));
            crate::order::lemma_lex_by_first_difference(k, s, n - 1);
        }
        if lex_le(prefix, k) && lex_lt(k, s) && !is_prefix(prefix, k) {
            crate::order::lemma_common_prefix_len(prefix, k);
            let d = crate::order::spec_common_prefix_len(prefix, k);
            assert(d < n) by {
                if d >= n {
                    assert(is_prefix(prefix, k));
                }
            }
            lemma_lex_trichotomy(prefix, k);
            lemma_lex_trichotomy(k, s);
            if d < n - 1 {
                assert(crate::order::agree(s, k, d));
                crate::order::lemma_lex_by_first_difference(s, k, d);
            } else {
                if k[d] == s[d] {
                    assert(is_prefix(s, k));
                    crate::order::lemma_prefix_le(s, k);
                } else {
                    assert(crate::order::agree(s, k, d));
                    crate::order::lemma_lex_by_first_difference(s, k, d);
                }
            }
        }
    }
}

/// Finds where the entries below a bound end: the offset of the record
/// after them, and what a decoder holds there.
fn get_offset(dictionary: &TermDictionaryImpl, target_key: &[u8], inclusive: bool) -> (res: (
    usize,
    Vec<u8>,
    TermInfo,
    Ghost<int>,
))
    requires
        dictionary.wf(),
    ensures
        res.3@ == rank(dictionary@, target_key@, inclusive),
        0 <= res.3@ <= dictionary@.len(),
        res.0 == stream_upto(dictionary@, res.3@, dictionary.spec_has_positions()).len(),
        resumable(dictionary@, dictionary.spec_has_positions(), res.3@, res.1@, res.2),
{
    let ghost e = dictionary@;
    let ghost hp = dictionary.spec_has_positions();
    let has_positions = dictionary.has_positions();
    let (prev_key, checkpoint) = dictionary.strictly_previous_key(target_key);
    let data = dictionary.stream_data();
    let mut cursor = checkpoint.stream_offset as usize;
    let ghost mut idx: int = 0;
    proof {
        dictionary.lemma_wf();
        lemma_block_pairs(e, hp);
        if !none_le(block_pairs(e), target_key@) {
            let j = spec_block_of(e, prev_key@);
            assert(block_pairs(e).contains_key(prev_key@));
            idx = 1024 * j;
            assert(block_key(e, j) == prev_key@);
            if idx > 0 {
                assert(keys_ascend(e, idx - 1, idx));
                lemma_lex_le_transitive(e[idx - 1].0, e[idx].0, target_key@);
            }
        }
        lemma_stream_upto_len(e, idx, e.len() as int, hp);
    }
    let mut term_delta_decoder = TermDeltaDecoder::with_previous_term(prev_key);
    let mut term_info_decoder = TermInfoDeltaDecoder::from_checkpoint(&checkpoint, has_positions);
    while cursor < data.len()
        invariant
            dictionary.wf(),
            e == dictionary@,
            hp == dictionary.spec_has_positions(),
            data@ == stream_of(e, hp),
            entries_ordered(e, hp),
            0 <= idx <= e.len(),
            cursor == stream_upto(e, idx, hp).len(),
            term_info_decoder.spec_has_positions() == hp,
            resumable(
                e,
                hp,
                idx,
                term_delta_decoder.spec_term(),
                term_info_decoder.spec_term_info(),
            ),
            idx > 0 ==> below(e[idx - 1].0, target_key@, inclusive),
        decreases e.len() - idx,
    {
        let key_before = vstd::slice::slice_to_vec(term_delta_decoder.term());
        let info_before = *term_info_decoder.term_info();
        proof {
            dictionary.lemma_wf();
            if idx == e.len() {
                assert(false);
            }
            lemma_parse_entry(
                e,
                hp,
                idx,
                term_delta_decoder.spec_term(),
                term_info_decoder.spec_term_info(),
            );
        }
        let next = match read_term_kv(
            data,
            cursor,
            &mut term_delta_decoder,
            &mut term_info_decoder,
        ) {
            Ok(next) => next,
            Err(_) => {
                return (cursor, key_before, info_before, Ghost(idx));
            },
        };
        let is_below = if inclusive {
            !key_lt(target_key, term_delta_decoder.term())
        } else {
            key_lt(term_delta_decoder.term(), target_key)
        };
        proof {
            lemma_lex_trichotomy(e[idx].0, target_key@);
        }
        if !is_below {
            proof {
                lemma_rank_is(e, hp, target_key@, inclusive, idx);
            }
            return (cursor, key_before, info_before, Ghost(idx));
        }
        cursor = next;
        proof {
            idx = idx + 1;
        }
    }
    proof {
        dictionary.lemma_wf();
        if idx < e.len() {
            lemma_stream_upto_len(e, idx, e.len() as int, hp);
        }
        lemma_rank_is(e, hp, target_key@, inclusive, idx);
    }
    let key = vstd::slice::slice_to_vec(term_delta_decoder.term());
    let info = *term_info_decoder.term_info();
    (cursor, key, info, Ghost(idx))
}

/// Builds a stream over the entries of a dictionary between two bounds.
pub struct TermStreamerBuilderImpl<'a> {
    term_dictionary: &'a TermDictionaryImpl,
    offset_from: usize,
    offset_to: usize,
    current_key: Vec<u8>,
    term_info: TermInfo,
    has_positions: bool,
    from_index: Ghost<int>,
    to_index: Ghost<int>,
}

impl<'a> TermStreamerBuilderImpl<'a> {
    /// The dictionary that is streamed.
    pub closed spec fn dictionary(&self) -> TermDictionaryImpl {
        *self.term_dictionary
    }

    /// The position of the first entry of the stream.
    pub closed spec fn from_index(&self) -> int {
        self.from_index@
    }

    /// The position after the last entry of the stream; the stream is
    /// empty where it is not greater than `from_index`.
    pub closed spec fn to_index(&self) -> int {
        self.to_index@
    }

    /// The two offsets are where the records at the two positions start,
    /// and a decoder can resume at the first.
    pub closed spec fn wf(&self) -> bool {
        let e = self.term_dictionary@;
        let hp = self.term_dictionary.spec_has_positions();
        &&& self.term_dictionary.wf()
        &&& self.has_positions == hp
        &&& 0 <= self.from_index@ <= e.len()
        &&& 0 <= self.to_index@ <= e.len()
        &&& self.offset_from == stream_upto(e, self.from_index@, hp).len()
        &&& self.offset_to == stream_upto(e, self.to_index@, hp).len()
        &&& resumable(e, hp, self.from_index@, self.current_key@, self.term_info)
    }

    /// A builder of the stream of all the entries of `term_dictionary`.
    pub fn new(term_dictionary: &'a TermDictionaryImpl, has_positions: bool) -> (res:
        TermStreamerBuilderImpl<'a>)
        requires
            term_dictionary.wf(),
            has_positions == term_dictionary.spec_has_positions(),
        ensures
            res.wf(),
            res.dictionary() == *term_dictionary,
            res.from_index() == 0,
            res.to_index() == term_dictionary@.len(),
    {
        proof {
            term_dictionary.lemma_wf();
        }
        let data = term_dictionary.stream_data();
        TermStreamerBuilderImpl {
            term_dictionary,
            offset_from: 0,
            offset_to: data.len(),
            current_key: Vec::new(),
            term_info: TermInfo {
                doc_freq: 0,
                postings_offset: 0,
                positions_offset: 0,
                positions_inner_offset: 0,
            },
            has_positions,
            from_index: Ghost(0),
            to_index: Ghost(term_dictionary@.len() as int),
        }
    }

    /// Starts the stream at the first key that is `bound` or greater.
    pub fn ge(self, bound: &[u8]) -> (res: TermStreamerBuilderImpl<'a>)
        requires
            self.wf(),
        ensures
            res.wf(),
            res.dictionary() == self.dictionary(),
            res.from_index() == rank(self.dictionary()@, bound@, false),
            res.to_index() == self.to_index(),
    {
        let mut this = self;
        let (offset_before, current_key, term_info, index) = get_offset(
            this.term_dictionary,
            bound,
            false,
        );
        this.current_key = current_key;
        this.term_info = term_info;
        this.offset_from = offset_before;
        this.from_index = index;
        this
    }

    /// Starts the stream at the first key that is greater than `bound`.
    pub fn gt(self, bound: &[u8]) -> (res: TermStreamerBuilderImpl<'a>)
        requires
            self.wf(),
        ensures
            res.wf(),
            res.dictionary() == self.dictionary(),
            res.from_index() == rank(self.dictionary()@, bound@, true),
            res.to_index() == self.to_index(),
    {
        let mut this = self;
        let (offset_before, current_key, term_info, index) = get_offset(
            this.term_dictionary,
            bound,
            true,
        );
        this.current_key = current_key;
        this.term_info = term_info;
        this.offset_from = offset_before;
        this.from_index = index;
        this
    }

    /// Ends the stream before the first key that is `bound` or greater.
    pub fn lt(self, bound: &[u8]) -> (res: TermStreamerBuilderImpl<'a>)
        requires
            self.wf(),
        ensures
            res.wf(),
            res.dictionary() == self.dictionary(),
            res.from_index() == self.from_index(),
            res.to_index() == rank(self.dictionary()@, bound@, false),
    {
        let mut this = self;
        let (offset_before, _, _, index) = get_offset(this.term_dictionary, bound, false);
        this.offset_to = offset_before;
        this.to_index = index;
        this
    }

    /// Ends the stream before the first key that is greater than `bound`.
    pub fn le(self, bound: &[u8]) -> (res: TermStreamerBuilderImpl<'a>)
        requires
            self.wf(),
        ensures
            res.wf(),
            res.dictionary() == self.dictionary(),
            res.from_index() == self.from_index(),
            res.to_index() == rank(self.dictionary()@, bound@, true),
    {
        let mut this = self;
        let (offset_before, _, _, index) = get_offset(this.term_dictionary, bound, true);
        this.offset_to = offset_before;
        this.to_index = index;
        this
    }

    /// Bounds the stream to the keys that begin with `prefix`: from
    /// `prefix` on, and before the successor of `prefix` where it has one.
    pub fn prefix(self, prefix: &[u8]) -> (res: TermStreamerBuilderImpl<'a>)
        requires
            self.wf(),
        ensures
            res.wf(),
            res.dictionary() == self.dictionary(),
            res.from_index() == rank(self.dictionary()@, prefix@, false),
            res.to_index() == (match spec_prefix_successor(prefix@) {
                Some(s) => rank(self.dictionary()@, s, false),
                None => self.dictionary()@.len() as int,
            }),
    {
        let lower = self.ge(prefix);
        match prefix_successor(prefix) {
            Some(successor) => lower.lt(successor.as_slice()),
            None => {
                let mut this = lower;
                proof {
                    this.term_dictionary.lemma_wf();
                }
                this.offset_to = this.term_dictionary.stream_data().len();
                this.to_index = Ghost(this.term_dictionary@.len() as int);
                this
            },
        }
    }

    /// The stream of the entries between the two bounds.
    pub fn into_stream(self) -> (res: TermStreamerImpl<'a>)
        requires
            self.wf(),
        ensures
            res.wf(),
            res.dictionary() == self.dictionary(),
            res.remaining() == spec_range(self.dictionary()@, self.from_index(), self.to_index()),
    {
        let ghost e = self.term_dictionary@;
        let ghost hp = self.term_dictionary.spec_has_positions();
        let start = self.offset_from;
        let stop = if self.offset_to > start {
            self.offset_to
        } else {
            start
        };
        proof {
            self.term_dictionary.lemma_wf();
            if self.from_index@ <= self.to_index@ {
                lemma_stream_upto_len(e, self.from_index@, self.to_index@, hp);
            } else {
                lemma_stream_upto_len(e, self.to_index@, self.from_index@, hp);
            }
        }
        let term_delta_decoder = TermDeltaDecoder::with_previous_term(self.current_key);
        let term_info_decoder = TermInfoDeltaDecoder::from_term_info(
            self.term_info,
            self.has_positions,
        );
        TermStreamerImpl {
            term_dictionary: self.term_dictionary,
            cursor: start,
            end: stop,
            term_delta_decoder,
            term_info_decoder,
            index: Ghost(self.from_index@),
            end_index: Ghost(
                if self.to_index@ > self.from_index@ {
                    self.to_index@
                } else {
                    self.from_index@
                },
            ),
        }
    }
}

/// The entries from position `from` up to, and without, position `to`; none
/// where `to` is not greater than `from`.
pub open spec fn spec_range(entries: Seq<(Seq<u8>, TermInfo)>, from: int, to: int) -> Seq<
    (Seq<u8>, TermInfo),
> {
    if from < to {
        entries.subrange(from, to)
    } else {
        Seq::empty()
    }
}

/// A range that is not empty starts with the entry at its first position,
/// and goes on with the range from the next position.
pub proof fn lemma_range_step(entries: Seq<(Seq<u8>, TermInfo)>, from: int, to: int)
    requires
        0 <= from < to <= entries.len(),
    ensures
        spec_range(entries, from, to).len() > 0,
        spec_range(entries, from, to)[0] == entries[from],
        spec_range(entries, from, to).skip(1) == spec_range(entries, from + 1, to),
{
    assert(spec_range(entries, from, to).skip(1) =~= spec_range(entries, from + 1, to));
}

/// A cursor over the entries of a dictionary: single-pass, forward only.
pub struct TermStreamerImpl<'a> {
    term_dictionary: &'a TermDictionaryImpl,
    cursor: usize,
    end: usize,
    term_delta_decoder: TermDeltaDecoder,
    term_info_decoder: TermInfoDeltaDecoder,
    index: Ghost<int>,
    end_index: Ghost<int>,
}

impl<'a> TermStreamerImpl<'a> {
    /// The dictionary that is streamed.
    pub closed spec fn dictionary(&self) -> TermDictionaryImpl {
        *self.term_dictionary
    }

    /// The entries that the stream has yet to yield.
    pub closed spec fn remaining(&self) -> Seq<(Seq<u8>, TermInfo)> {
        spec_range(self.term_dictionary@, self.index@, self.end_index@)
    }

    /// The key that the stream yielded last.
    pub closed spec fn spec_key(&self) -> Seq<u8> {
        self.term_delta_decoder.spec_term()
    }

    /// The `TermInfo` that the stream yielded last.
    pub closed spec fn spec_value(&self) -> TermInfo {
        self.term_info_decoder.spec_term_info()
    }

    /// The cursor stands where the record of the next entry starts, and
    /// its decoders can resume there.
    pub closed spec fn wf(&self) -> bool {
        let e = self.term_dictionary@;
        let hp = self.term_dictionary.spec_has_positions();
        &&& self.term_dictionary.wf()
        &&& self.term_info_decoder.spec_has_positions() == hp
        &&& 0 <= self.index@ <= self.end_index@ <= e.len()
        &&& self.cursor == stream_upto(e, self.index@, hp).len()
        &&& self.end == stream_upto(e, self.end_index@, hp).len()
        &&& resumable(
            e,
            hp,
            self.index@,
            self.term_delta_decoder.spec_term(),
            self.term_info_decoder.spec_term_info(),
        )
    }

    /// Moves to the next entry, if one is left before the end of the
    /// stream; `key` and `value` then give that entry.
    pub fn advance(&mut self) -> (res: bool)
        requires
            old(self).wf(),
        ensures
            final(self).wf(),
            final(self).dictionary() == old(self).dictionary(),
            res == (old(self).remaining().len() > 0),
            res ==> final(self).spec_key() == old(self).remaining()[0].0,
            res ==> final(self).spec_value() == old(self).remaining()[0].1,
            res ==> final(self).remaining() == old(self).remaining().skip(1),
            !res ==> final(self).remaining() == old(self).remaining(),
            !res ==> final(self).spec_key() == old(self).spec_key(),
            !res ==> final(self).spec_value() == old(self).spec_value(),
    {
        let ghost e = self.term_dictionary@;
        let ghost hp = self.term_dictionary.spec_has_positions();
        let ghost i = self.index@;
        proof {
            self.term_dictionary.lemma_wf();
            lemma_stream_upto_len(e, i, self.end_index@, hp);
        }
        if self.cursor >= self.end {
            return false;
        }
        proof {
            lemma_parse_entry(
                e,
                hp,
                i,
                self.term_delta_decoder.spec_term(),
                self.term_info_decoder.spec_term_info(),
            );
            lemma_range_step(e, i, self.end_index@);
        }
        let data = self.term_dictionary.stream_data();
        match read_term_kv(
            data,
            self.cursor,
            &mut self.term_delta_decoder,
            &mut self.term_info_decoder,
        ) {
            Ok(next) => {
                self.cursor = next;
                proof {
                    self.index = Ghost(i + 1);
                }
                true
            },
            Err(_) => false,
        }
    }

    /// The key of the entry that the stream stands at.
    pub fn key(&self) -> (res: &[u8])
        ensures
            res@ == self.spec_key(),
    {
        self.term_delta_decoder.term()
    }

    /// The `TermInfo` of the entry that the stream stands at.
    pub fn value(&self) -> (res: &TermInfo)
        ensures
            *res == self.spec_value(),
    {
        self.term_info_decoder.term_info()
    }
}

} // verus!
