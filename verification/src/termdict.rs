//! The reader of a dictionary: opens the bytes of a dictionary file and
//! finds, for a key, the block from which to read on.

use crate::block_index::{fst_accepted, fst_image, is_greatest_le, none_le};
use crate::block_index::{spec_addresses_fit, BlockIndex};
use crate::checkpoint::{CheckPoint, CHECKPOINT_SIZE};
use crate::common::{deserialize_u64, le_bytes, le_value, lemma_le_bytes_len, lemma_le_roundtrip};
use crate::common::lemma_pow256_values;
use crate::error::DictError;
use crate::layout::{block_key, block_pairs, checkpoint_at, checkpoint_table, checkpoints_upto};
use crate::layout::{dictionary_file, entries_fit, entries_ordered, entries_readable};
use crate::layout::{lemma_checkpoints_upto_at, lemma_checkpoints_upto_len, lemma_pairs_upto};
use crate::layout::{lemma_stream_upto_len, num_blocks, positions_flag, stream_of};
use crate::layout::{FOOTER_SIZE, PADDING_SIZE};
use crate::postings::TermInfo;
use crate::order::key_eq;
use crate::stream::{lemma_lookup_at_rank, lemma_rank, lemma_stream_injective, spec_lookup};
use crate::streamer::TermStreamerBuilderImpl;
use crate::validate::{is_stream_of, rebuild};
use vstd::prelude::*;

verus! {

/// The first number of the footer: where the block index starts, counted
/// from after the flag byte.
pub open spec fn spec_fst_addr(source: Seq<u8>) -> int {
    le_value(source.subrange(source.len() - 16, source.len() - 8)) as int
}

/// The second number of the footer: where the checkpoint table starts,
/// counted from after the flag byte.
pub open spec fn spec_checkpoints_addr(source: Seq<u8>) -> int {
    le_value(source.subrange(source.len() - 8, source.len() as int)) as int
}

/// The bytes hold a flag and a footer, and the footer's two numbers part
/// what stands between them: four bytes at least before the block index,
/// the index, the checkpoint table.
pub open spec fn spec_layout_ok(source: Seq<u8>) -> bool {
    &&& source.len() >= 17
    &&& 4 <= spec_fst_addr(source) <= spec_checkpoints_addr(source) <= source.len() - 17
}

/// The bytes of the stream in a file.
pub open spec fn spec_stream_region(source: Seq<u8>) -> Seq<u8> {
    source.subrange(1, spec_fst_addr(source) - 3)
}

/// The bytes of the block index in a file.
pub open spec fn spec_index_region(source: Seq<u8>) -> Seq<u8> {
    source.subrange(spec_fst_addr(source) + 1, spec_checkpoints_addr(source) + 1)
}

/// The bytes of the checkpoint table in a file.
pub open spec fn spec_checkpoints_region(source: Seq<u8>) -> Seq<u8> {
    source.subrange(spec_checkpoints_addr(source) + 1, source.len() - 16)
}

/// The bytes are the file of these entries, and a reader gives the entries
/// back: they are ordered, their offsets fit, without positions they hold
/// none, and the addresses in the block index fit this machine.
pub open spec fn is_dictionary_of(
    source: Seq<u8>,
    entries: Seq<(Seq<u8>, TermInfo)>,
    has_positions: bool,
) -> bool {
    &&& source == dictionary_file(entries, has_positions)
    &&& entries_ordered(entries, has_positions)
    &&& entries_fit(entries, has_positions)
    &&& entries_readable(entries, has_positions)
    &&& spec_addresses_fit(fst_image(block_pairs(entries)))
}

/// The parts of a dictionary file stand where its footer says.
pub proof fn lemma_file_layout(entries: Seq<(Seq<u8>, TermInfo)>, has_positions: bool)
    requires
        dictionary_file(entries, has_positions).len() <= u64::MAX,
    ensures
        spec_layout_ok(dictionary_file(entries, has_positions)),
        dictionary_file(entries, has_positions)[0] == positions_flag(has_positions),
        spec_stream_region(dictionary_file(entries, has_positions)) == stream_of(
            entries,
            has_positions,
        ),
        spec_index_region(dictionary_file(entries, has_positions)) == fst_image(
            block_pairs(entries),
        ),
        spec_checkpoints_region(dictionary_file(entries, has_positions)) == checkpoint_table(
            entries,
            has_positions,
        ),
{
    let file = dictionary_file(entries, has_positions);
    let stream = stream_of(entries, has_positions);
    let index = fst_image(block_pairs(entries));
    let table = checkpoint_table(entries, has_positions);
    let s = stream.len() as int;
    let x = index.len() as int;
    let t = table.len() as int;
    let first = le_bytes((s + 4) as nat, 8);
    let second = le_bytes((s + 4 + x) as nat, 8);
    lemma_le_bytes_len((s + 4) as nat, 8);
    lemma_le_bytes_len((s + 4 + x) as nat, 8);
    lemma_pow256_values();
    lemma_le_roundtrip((s + 4) as nat, 8);
    lemma_le_roundtrip((s + 4 + x) as nat, 8);
    assert(file.len() == 1 + s + 4 + x + t + 16);
    assert(file.subrange(file.len() - 16, file.len() - 8) =~= first);
    assert(file.subrange(file.len() - 8, file.len() as int) =~= second);
    assert(file.subrange(1, 1 + s) =~= stream);
    assert(file.subrange(1 + s + 4, 1 + s + 4 + x) =~= index);
    assert(file.subrange(1 + s + 4 + x, file.len() - 16) =~= table);
}

/// What the bytes of a dictionary file hold, and where.
pub proof fn lemma_dictionary_parts(
    source: Seq<u8>,
    entries: Seq<(Seq<u8>, TermInfo)>,
    has_positions: bool,
)
    requires
        is_dictionary_of(source, entries, has_positions),
        source.len() <= u64::MAX,
    ensures
        spec_layout_ok(source),
        source[0] == positions_flag(has_positions),
        spec_stream_region(source) == stream_of(entries, has_positions),
        spec_index_region(source) == fst_image(block_pairs(entries)),
        spec_checkpoints_region(source) == checkpoint_table(entries, has_positions),
        block_pairs(entries).dom().finite(),
        spec_addresses_fit(spec_index_region(source)),
{
    lemma_file_layout(entries, has_positions);
    lemma_stream_upto_len(entries, 0, entries.len() as int, has_positions);
    lemma_pairs_upto(entries, num_blocks(entries.len() as int), has_positions);
}

/// A file is the file of one list of entries only.
pub proof fn lemma_file_injective(
    a: Seq<(Seq<u8>, TermInfo)>,
    a_positions: bool,
    b: Seq<(Seq<u8>, TermInfo)>,
    b_positions: bool,
)
    requires
        is_dictionary_of(dictionary_file(a, a_positions), b, b_positions),
        is_dictionary_of(dictionary_file(a, a_positions), a, a_positions),
        dictionary_file(a, a_positions).len() <= u64::MAX,
    ensures
        a == b,
        a_positions == b_positions,
{
    lemma_file_layout(a, a_positions);
    lemma_file_layout(b, b_positions);
    lemma_stream_injective(a, b, a_positions);
}

/// The block that the index holds for one of its keys.
pub open spec fn spec_block_of(entries: Seq<(Seq<u8>, TermInfo)>, key: Seq<u8>) -> int {
    block_pairs(entries)[key] as int / 12
}

/// The number of entries is bounded by the length of the stream, and the
/// keys of the block index are the first keys of the blocks.
pub proof fn lemma_block_pairs(entries: Seq<(Seq<u8>, TermInfo)>, has_positions: bool)
    requires
        entries_ordered(entries, has_positions),
        entries_fit(entries, has_positions),
    ensures
        4 * entries.len() <= u32::MAX,
        forall|k: Seq<u8>| #[trigger]
            block_pairs(entries).contains_key(k) ==> 0 <= spec_block_of(entries, k) < num_blocks(
                entries.len() as int,
            ) && block_key(entries, spec_block_of(entries, k)) == k && block_pairs(entries)[k]
                == 12 * spec_block_of(entries, k),
        forall|j: int|
            0 <= j < num_blocks(entries.len() as int) ==> block_pairs(entries).contains_key(
                #[trigger] block_key(entries, j),
            ) && spec_block_of(entries, block_key(entries, j)) == j,
{
    let blocks = num_blocks(entries.len() as int);
    lemma_stream_upto_len(entries, 0, entries.len() as int, has_positions);
    lemma_pairs_upto(entries, blocks, has_positions);
    assert forall|k: Seq<u8>| #[trigger] block_pairs(entries).contains_key(k) implies 0
        <= spec_block_of(entries, k) < blocks && block_key(entries, spec_block_of(entries, k)) == k
        && block_pairs(entries)[k] == 12 * spec_block_of(entries, k) by {
        let j = choose|j: int| 0 <= j < blocks && #[trigger] block_key(entries, j) == k;
        assert(block_pairs(entries).contains_key(block_key(entries, j)));
    }
}

/// An opened dictionary: the bytes of the file, where the stream ends and
/// where the checkpoint table starts in them, and the opened block index.
pub struct TermDictionaryImpl {
    source: Vec<u8>,
    stream_end: usize,
    checkpoints_start: usize,
    fst_index: BlockIndex,
    has_positions: bool,
    entries: Ghost<Seq<(Seq<u8>, TermInfo)>>,
}

impl View for TermDictionaryImpl {
    type V = Seq<(Seq<u8>, TermInfo)>;

    /// The entries of the dictionary, in ascending order of their keys.
    closed spec fn view(&self) -> Seq<(Seq<u8>, TermInfo)> {
        self.entries@
    }
}

impl TermDictionaryImpl {
    /// Whether the records hold positions.
    pub closed spec fn spec_has_positions(&self) -> bool {
        self.has_positions
    }

    /// The bytes of the file.
    pub closed spec fn spec_source(&self) -> Seq<u8> {
        self.source@
    }

    /// The bytes of the stream.
    pub closed spec fn spec_stream_data(&self) -> Seq<u8> {
        self.source@.subrange(1, self.stream_end as int)
    }

    /// The bytes of the checkpoint table.
    pub closed spec fn spec_checkpoints_data(&self) -> Seq<u8> {
        self.source@.subrange(self.checkpoints_start as int, self.source@.len() - 16)
    }

    /// The stream and the checkpoint table stand in the bytes of the file,
    /// behind the flag and before the footer.
    #[verifier::type_invariant]
    spec fn bounds_ok(&self) -> bool {
        1 <= self.stream_end <= self.checkpoints_start <= self.source@.len() - 16
    }

    /// The block index.
    pub closed spec fn spec_index(&self) -> BlockIndex {
        self.fst_index
    }

    /// The three parts of the dictionary are those of its entries: the
    /// stream, the checkpoint table and a block index that a builder wrote;
    /// the entries are ordered and fit, and a reader gives them back.
    pub closed spec fn wf(&self) -> bool {
        &&& self.fst_index.wf()
        &&& self.fst_index@ == block_pairs(self.entries@)
        &&& self.spec_stream_data() == stream_of(self.entries@, self.has_positions)
        &&& self.spec_checkpoints_data() == checkpoint_table(self.entries@, self.has_positions)
        &&& entries_ordered(self.entries@, self.has_positions)
        &&& entries_fit(self.entries@, self.has_positions)
        &&& entries_readable(self.entries@, self.has_positions)
    }

    /// What `wf` says, for the functions that read the dictionary.
    pub proof fn lemma_wf(&self)
        requires
            self.wf(),
        ensures
            self.spec_index().wf(),
            self.spec_index()@ == block_pairs(self@),
            self.spec_stream_data() == stream_of(self@, self.spec_has_positions()),
            self.spec_checkpoints_data() == checkpoint_table(self@, self.spec_has_positions()),
            entries_ordered(self@, self.spec_has_positions()),
            entries_fit(self@, self.spec_has_positions()),
            entries_readable(self@, self.spec_has_positions()),
    {
    }

    /// Opens a dictionary over the bytes of a file. The bytes are refused
    /// where their flag and footer do not part them into a stream, a block
    /// index and a checkpoint table, or where the block index does not
    /// open. The file that a builder wrote for some entries opens as the
    /// dictionary of those entries.
    pub fn from_source(source: Vec<u8>) -> (res: Result<TermDictionaryImpl, DictError>)
        ensures
            res is Ok <==> spec_layout_ok(source@) && spec_addresses_fit(spec_index_region(source@))
                && fst_accepted(spec_index_region(source@)),
            res is Err ==> res == Err::<TermDictionaryImpl, DictError>(DictError::Corrupted),
            res is Ok ==> res->Ok_0.spec_source() == source@ && res->Ok_0.spec_has_positions() == (
            source@[0] == 255) && res->Ok_0.spec_stream_data() == spec_stream_region(source@)
                && res->Ok_0.spec_checkpoints_data() == spec_checkpoints_region(source@),
            forall|entries: Seq<(Seq<u8>, TermInfo)>, has_positions: bool| #[trigger]
                is_dictionary_of(source@, entries, has_positions) ==> res is Ok && res->Ok_0.wf()
                    && res->Ok_0@ == entries && res->Ok_0.spec_has_positions() == has_positions,
    {
        let total = source.len();
        let ghost known = exists|e: Seq<(Seq<u8>, TermInfo)>, hp: bool| #[trigger]
            is_dictionary_of(source@, e, hp);
        let ghost (entries, positions) = choose|e: Seq<(Seq<u8>, TermInfo)>, hp: bool| #[trigger]
            is_dictionary_of(source@, e, hp);
        proof {
            if known {
                lemma_dictionary_parts(source@, entries, positions);
            }
        }
        if total < 1 + FOOTER_SIZE {
            return Err(DictError::Corrupted);
        }
        let has_positions = source[0] == 255u8;
        let fst_addr = match deserialize_u64(source.as_slice(), total - FOOTER_SIZE) {
            Ok(addr) => addr,
            Err(e) => {
                return Err(e);
            },
        };
        let checkpoints_addr = match deserialize_u64(source.as_slice(), total - 8) {
            Ok(addr) => addr,
            Err(e) => {
                return Err(e);
            },
        };
        if fst_addr < PADDING_SIZE as u64 || fst_addr > checkpoints_addr || checkpoints_addr > (
        total - FOOTER_SIZE - 1) as u64 {
            return Err(DictError::Corrupted);
        }
        let fst_addr = fst_addr as usize;
        let checkpoints_addr = checkpoints_addr as usize;
        let fst_data = vstd::slice::slice_to_vec(
            vstd::slice::slice_subrange(source.as_slice(), 1 + fst_addr, 1 + checkpoints_addr),
        );
        let fst_index = match BlockIndex::open(fst_data) {
            Ok(index) => index,
            Err(e) => {
                return Err(e);
            },
        };
        let dictionary = TermDictionaryImpl {
            source,
            stream_end: 1 + fst_addr - PADDING_SIZE,
            checkpoints_start: 1 + checkpoints_addr,
            fst_index,
            has_positions,
            entries: Ghost(entries),
        };
        proof {
            assert forall|e2: Seq<(Seq<u8>, TermInfo)>, hp2: bool| #[trigger]
                is_dictionary_of(source@, e2, hp2) implies dictionary.wf() && dictionary@ == e2
                && has_positions == hp2 by {
                lemma_file_injective(entries, positions, e2, hp2);
            }
        }
        Ok(dictionary)
    }

    /// Opens a dictionary over the bytes of a file, after it has made sure
    /// that they are the bytes of a dictionary file: it reads the entries
    /// of the stream one after the other, builds the file of these entries
    /// anew, and takes the bytes where the two files are the same. Other
    /// bytes are refused as corrupted.
    pub fn from_source_checked(source: Vec<u8>) -> (res: Result<TermDictionaryImpl, DictError>)
        ensures
            res is Ok <==> exists|entries: Seq<(Seq<u8>, TermInfo)>, has_positions: bool| #[trigger]
                is_dictionary_of(source@, entries, has_positions),
            res is Err ==> res == Err::<TermDictionaryImpl, DictError>(DictError::Corrupted),
            res is Ok ==> res->Ok_0.wf() && is_dictionary_of(
                source@,
                res->Ok_0@,
                res->Ok_0.spec_has_positions(),
            ),
    {
        let dictionary = match TermDictionaryImpl::from_source(source) {
            Ok(dictionary) => dictionary,
            Err(e) => {
                return Err(e);
            },
        };
        let ghost known = exists|entries: Seq<(Seq<u8>, TermInfo)>, has_positions: bool| #[trigger]
            is_dictionary_of(source@, entries, has_positions);
        proof {
            if known {
                dictionary.lemma_wf();
                let (entries, has_positions) = choose|
                    entries: Seq<(Seq<u8>, TermInfo)>,
                    has_positions: bool,
                | #[trigger] is_dictionary_of(source@, entries, has_positions);
                assert(is_stream_of(dictionary.spec_stream_data(), entries, has_positions));
            }
        }
        let (rebuilt, Ghost(read)) = rebuild(dictionary.stream_data(), dictionary.has_positions());
        match rebuilt {
            Some(file) => {
                if key_eq(file.as_slice(), dictionary.as_bytes()) {
                    assert(is_dictionary_of(source@, read, dictionary.spec_has_positions()));
                    Ok(dictionary)
                } else {
                    proof {
                        if known {
                            dictionary.lemma_wf();
                        }
                    }
                    Err(DictError::Corrupted)
                }
            },
            None => Err(DictError::Corrupted),
        }
    }

    /// Looks up a key in the bytes of a file: opens them as
    /// `from_source_checked` does, and looks up the key in the dictionary
    /// they hold.
    pub fn find_in_source(source: Vec<u8>, target_key: &[u8]) -> (res: Result<
        Option<TermInfo>,
        DictError,
    >)
        ensures
            match res {
                Ok(found) => exists|entries: Seq<(Seq<u8>, TermInfo)>, has_positions: bool| #[trigger]
                    is_dictionary_of(source@, entries, has_positions) && found == spec_lookup(
                        entries,
                        target_key@,
                    ),
                Err(e) => e == DictError::Corrupted && !exists|
                    entries: Seq<(Seq<u8>, TermInfo)>,
                    has_positions: bool,
                | #[trigger] is_dictionary_of(source@, entries, has_positions),
            },
    {
        match TermDictionaryImpl::from_source_checked(source) {
            Ok(dictionary) => {
                let found = dictionary.get(target_key);
                assert(is_dictionary_of(source@, dictionary@, dictionary.spec_has_positions()));
                Ok(found)
            },
            Err(e) => Err(e),
        }
    }

    /// The bytes of the file.
    pub fn as_bytes(&self) -> (res: &[u8])
        ensures
            res@ == self.spec_source(),
    {
        self.source.as_slice()
    }

    /// The bytes of the stream.
    pub fn stream_data(&self) -> (res: &[u8])
        ensures
            res@ == self.spec_stream_data(),
    {
        proof {
            use_type_invariant(self);
        }
        vstd::slice::slice_subrange(self.source.as_slice(), 1, self.stream_end)
    }

    /// The bytes of the checkpoint table.
    pub fn checkpoints_data(&self) -> (res: &[u8])
        ensures
            res@ == self.spec_checkpoints_data(),
    {
        proof {
            use_type_invariant(self);
        }
        vstd::slice::slice_subrange(
            self.source.as_slice(),
            self.checkpoints_start,
            self.source.len() - FOOTER_SIZE,
        )
    }

    /// Whether the records hold positions.
    pub fn has_positions(&self) -> (res: bool)
        ensures
            res == self.spec_has_positions(),
    {
        self.has_positions
    }

    /// The number of checkpoints in the table: one for each block, and one
    /// after the last entry.
    pub fn num_checkpoints(&self) -> (res: usize)
        requires
            self.wf(),
        ensures
            res == num_blocks(self@.len() as int) + 1,
    {
        proof {
            let blocks = num_blocks(self@.len() as int);
            lemma_checkpoints_upto_len(self@, blocks, self.has_positions);
            checkpoint_at(self@, self@.len() as int, self.has_positions).lemma_spec_bytes_len();
        }
        self.checkpoints_data().len() / CHECKPOINT_SIZE
    }

    /// Finds the greatest first key of a block that is not greater than
    /// `key`, and the offset of that block's checkpoint in the table. Where
    /// every block starts with a greater key, the result is the empty key
    /// and zero.
    pub fn strictly_previous_key_checkpoint_offset(&self, key: &[u8]) -> (res: (Vec<u8>, usize))
        requires
            self.wf(),
        ensures
            none_le(block_pairs(self@), key@) ==> res.0@ == Seq::<u8>::empty() && res.1 == 0,
            !none_le(block_pairs(self@), key@) ==> is_greatest_le(
                block_pairs(self@),
                key@,
                res.0@,
            ) && res.1 == 12 * spec_block_of(self@, res.0@),
            res.1 + 12 <= self.spec_checkpoints_data().len(),
    {
        let (term, offset) = self.fst_index.strictly_previous_key_checkpoint_offset(key);
        proof {
            let blocks = num_blocks(self@.len() as int);
            lemma_block_pairs(self@, self.has_positions);
            lemma_checkpoints_upto_len(self@, blocks, self.has_positions);
            checkpoint_at(self@, self@.len() as int, self.has_positions).lemma_spec_bytes_len();
            if !none_le(block_pairs(self@), key@) {
                assert(block_pairs(self@).contains_key(term@));
            }
        }
        (term, offset as usize)
    }

    /// Finds the block from which to read on for `key`: the greatest first
    /// key of a block that is not greater than `key`, and the checkpoint of
    /// that block. Where every block starts with a greater key, the result
    /// is the empty key and the checkpoint at the head of the stream.
    pub fn strictly_previous_key(&self, key: &[u8]) -> (res: (Vec<u8>, CheckPoint))
        requires
            self.wf(),
        ensures
            none_le(block_pairs(self@), key@) ==> res.0@ == Seq::<u8>::empty() && res.1
                == checkpoint_at(self@, 0, self.spec_has_positions()),
            !none_le(block_pairs(self@), key@) ==> is_greatest_le(
                block_pairs(self@),
                key@,
                res.0@,
            ) && res.1 == checkpoint_at(
                self@,
                1024 * spec_block_of(self@, res.0@),
                self.spec_has_positions(),
            ),
    {
        let (term, checkpoint_offset) = self.strictly_previous_key_checkpoint_offset(key);
        let parsed = CheckPoint::deserialize(self.checkpoints_data(), checkpoint_offset);
        proof {
            let e = self@;
            let hp = self.has_positions;
            let blocks = num_blocks(e.len() as int);
            let table = self.spec_checkpoints_data();
            let before = checkpoints_upto(e, blocks, hp);
            let last = checkpoint_at(e, e.len() as int, hp);
            lemma_block_pairs(e, hp);
            lemma_checkpoints_upto_len(e, blocks, hp);
            last.lemma_spec_bytes_len();
            let j: int = if none_le(block_pairs(e), key@) {
                0
            } else {
                spec_block_of(e, term@)
            };
            if !none_le(block_pairs(e), key@) {
                assert(block_pairs(e).contains_key(term@));
            }
            let expected = checkpoint_at(e, 1024 * j, hp);
            if j < blocks {
                lemma_checkpoints_upto_at(e, blocks, j, hp);
                assert(table.subrange(12 * j, 12 * j + 12) =~= before.subrange(
                    12 * j,
                    12 * j + 12,
                ));
            } else {
                assert(e.len() == 0);
                assert(table.subrange(0, 12) =~= last.spec_bytes());
            }
            expected.lemma_parse_bytes(table, 12 * j);
        }
        let checkpoint = match parsed {
            Ok(checkpoint) => checkpoint,
            Err(_) => CheckPoint { stream_offset: 0, postings_offset: 0, positions_offset: 0 },
        };
        (term, checkpoint)
    }

    /// Looks up the value that the dictionary holds for a key.
    pub fn get(&self, target_key: &[u8]) -> (res: Option<TermInfo>)
        requires
            self.wf(),
        ensures
            res == spec_lookup(self@, target_key@),
    {
        let mut streamer = self.range().ge(target_key).into_stream();
        proof {
            lemma_lookup_at_rank(self@, self.has_positions, target_key@);
            lemma_rank(self@, self.has_positions, target_key@, false);
        }
        if streamer.advance() && key_eq(streamer.key(), target_key) {
            Some(*streamer.value())
        } else {
            None
        }
    }

    /// Returns a range builder, to stream the entries of the dictionary
    /// within an interval of keys; it starts with all of them.
    pub fn range<'a>(&'a self) -> (res: TermStreamerBuilderImpl<'a>)
        requires
            self.wf(),
        ensures
            res.wf(),
            res.dictionary() == *self,
            res.from_index() == 0,
            res.to_index() == self@.len(),
    {
        TermStreamerBuilderImpl::new(self, self.has_positions)
    }
}

} // verus!
