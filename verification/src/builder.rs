//! The writer of a dictionary: takes the entries in ascending order of
//! their keys and writes the stream, the checkpoint table, the block index
//! and the footer.

use crate::block_index::{builder_insert, builder_into_inner, builder_memory, builder_pairs};
use crate::checkpoint::CheckPoint;
use crate::common::{serialize_u64, CountingWriter};
use crate::delta_encoder::{spec_encodable, TermDeltaEncoder, TermInfoDeltaEncoder};
use crate::error::DictError;
use crate::layout::{base_info, base_key, block_key, block_pairs, checkpoint_at};
use crate::layout::{checkpoint_table, checkpoints_upto, dictionary_file, entries_fit};
use crate::layout::{entries_ordered, entries_readable, entry_follows, entry_prefix_len};
use crate::layout::{keys_ascend, num_blocks, pairs_upto, positions_flag, stream_of};
use crate::layout::{lemma_checkpoints_upto_len, lemma_checkpoints_upto_push, lemma_pairs_upto};
use crate::layout::{lemma_pairs_upto_push, lemma_stream_upto_len, lemma_stream_upto_push};
use crate::layout::{stream_upto, INDEX_INTERVAL, PADDING_SIZE};
use crate::order::{common_prefix_len, key_lt, lemma_lex_transitive, lex_lt};
use crate::postings::TermInfo;
use crate::record::{lemma_record_len, lemma_record_len_is, record_len, write_term_kv};
use crate::schema::FieldType;
use crate::termdict::is_dictionary_of;
use vstd::prelude::*;

verus! {

/// Positions are written for text fields that are indexed with positions,
/// and for no other field.
pub open spec fn spec_has_positions(field_type: FieldType) -> bool {
    match field_type {
        FieldType::Str(text_options) => text_options.indexing.spec_is_position_enabled(),
        _ => false,
    }
}

/// Tells whether the dictionary of a field of this type holds positions.
pub fn has_positions(field_type: &FieldType) -> (res: bool)
    ensures
        res == spec_has_positions(*field_type),
{
    match *field_type {
        FieldType::Str(ref text_options) => {
            let indexing_options = text_options.get_indexing_options();
            if indexing_options.is_position_enabled() {
                true
            } else {
                false
            }
        },
        _ => false,
    }
}

/// Builds a dictionary from entries handed to it in ascending order of
/// their keys.
pub struct TermDictionaryBuilderImpl {
    write: CountingWriter,
    term_delta_encoder: TermDeltaEncoder,
    term_info_encoder: TermInfoDeltaEncoder,
    block_index: fst::MapBuilder<Vec<u8>>,
    checkpoints: Vec<u8>,
    len: usize,
    entries: Ghost<Seq<(Seq<u8>, TermInfo)>>,
}

impl TermDictionaryBuilderImpl {
    /// The entries inserted so far, in the order of their insertion.
    pub closed spec fn entries(&self) -> Seq<(Seq<u8>, TermInfo)> {
        self.entries@
    }

    /// Whether the records hold positions.
    pub closed spec fn spec_has_positions(&self) -> bool {
        self.term_info_encoder.spec_has_positions()
    }

    /// The bytes that the sink held when the builder took it.
    pub closed spec fn initial(&self) -> Seq<u8> {
        self.write.base().drop_last()
    }

    /// What holds of a builder between two insertions, and, with `pending`,
    /// after the key of the last entry was taken and before its record is
    /// written.
    spec fn inv(&self, pending: bool) -> bool {
        let e = self.entries@;
        let hp = self.term_info_encoder.spec_has_positions();
        let n = e.len() - (if pending {
            1int
        } else {
            0int
        });
        &&& pending ==> e.len() > 0
        &&& self.len == n
        &&& self.write.wf()
        &&& self.write.count() == stream_upto(e, n, hp).len()
        &&& self.write.written() == stream_upto(e, n, hp)
        &&& self.write.base().len() >= 1
        &&& self.write.base().last() == positions_flag(hp)
        &&& self.term_delta_encoder.wf()
        &&& self.term_delta_encoder.spec_term() == (if e.len() == 0 {
            Seq::<u8>::empty()
        } else {
            e.last().0
        })
        &&& pending ==> self.term_delta_encoder.spec_prefix_len() == entry_prefix_len(e, n)
        &&& self.term_info_encoder.spec_term_info().postings_offset == base_info(
            e,
            n,
        ).postings_offset
        &&& self.term_info_encoder.spec_term_info().positions_offset == base_info(
            e,
            n,
        ).positions_offset
        &&& builder_pairs(self.block_index) == block_pairs(e)
        &&& self.checkpoints@ == checkpoints_upto(e, num_blocks(e.len() as int), hp)
        &&& entries_ordered(e, hp)
        &&& entries_fit(e, hp)
    }

    /// What holds of a builder between two insertions.
    pub closed spec fn wf(&self) -> bool {
        self.inv(false)
    }

    /// Whether the entry can follow those inserted: its key is greater than
    /// the last key, and its offsets do not go back.
    pub open spec fn spec_accepts(&self, key: Seq<u8>, value: TermInfo) -> bool {
        &&& self.entries().len() > 0 ==> lex_lt(self.entries().last().0, key)
        &&& spec_encodable(
            base_info(self.entries(), self.entries().len() as int),
            value,
            self.spec_has_positions(),
        )
    }

    /// Whether the stream still fits in the range of `u32` offsets with one
    /// more entry.
    pub open spec fn spec_insert_fits(&self, key: Seq<u8>, value: TermInfo) -> bool {
        entries_fit(self.entries().push((key, value)), self.spec_has_positions())
    }

    /// Creates a builder that writes a dictionary for a field of type
    /// `field_type` after the bytes that `write` holds.
    pub fn new(write: Vec<u8>, field_type: FieldType) -> (res: Result<
        TermDictionaryBuilderImpl,
        DictError,
    >)
        ensures
            res is Ok,
            res->Ok_0.wf(),
            res->Ok_0.entries() == Seq::<(Seq<u8>, TermInfo)>::empty(),
            res->Ok_0.spec_has_positions() == spec_has_positions(field_type),
            res->Ok_0.initial() == write@,
    {
        let ghost initial = write@;
        let mut write = write;
        let has_positions = has_positions(&field_type);
        let has_positions_code = if has_positions {
            255u8
        } else {
            0u8
        };
        write.push(has_positions_code);
        let builder = TermDictionaryBuilderImpl {
            write: CountingWriter::wrap(write),
            term_delta_encoder: TermDeltaEncoder::default(),
            term_info_encoder: TermInfoDeltaEncoder::new(has_positions),
            block_index: builder_memory(),
            checkpoints: Vec::new(),
            len: 0,
            entries: Ghost(Seq::empty()),
        };
        proof {
            assert(builder.write.base().drop_last() =~= initial);
        }
        Ok(builder)
    }

    /// Records a checkpoint at the end of what is written. With a key, the
    /// checkpoint starts a block: the key enters the block index with the
    /// checkpoint's offset in the table, and both encoders start afresh at
    /// the checkpoint.
    fn add_index_entry(&mut self, block_key: Option<&[u8]>)
        requires
            old(self).write.wf(),
            old(self).write.count() <= u32::MAX,
            old(self).term_delta_encoder.wf(),
            block_key is Some ==> forall|k: Seq<u8>| #[trigger]
                builder_pairs(old(self).block_index).contains_key(k) ==> lex_lt(
                    k,
                    block_key->Some_0@,
                ),
        ensures
            final(self).write == old(self).write,
            final(self).len == old(self).len,
            final(self).entries == old(self).entries,
            final(self).term_info_encoder.spec_has_positions()
                == old(self).term_info_encoder.spec_has_positions(),
            final(self).checkpoints@ == old(self).checkpoints@ + (CheckPoint {
                stream_offset: old(self).write.count() as u32,
                postings_offset: old(self).term_info_encoder.spec_term_info().postings_offset,
                positions_offset: old(self).term_info_encoder.spec_term_info().positions_offset,
            }).spec_bytes(),
            final(self).term_info_encoder.spec_term_info().postings_offset
                == old(self).term_info_encoder.spec_term_info().postings_offset,
            final(self).term_info_encoder.spec_term_info().positions_offset
                == old(self).term_info_encoder.spec_term_info().positions_offset,
            final(self).term_delta_encoder.wf(),
            match block_key {
                Some(key) => builder_pairs(final(self).block_index) == builder_pairs(
                    old(self).block_index,
                ).insert(key@, old(self).checkpoints@.len() as u64)
                    && final(self).term_delta_encoder.spec_term() == Seq::<u8>::empty()
                    && final(self).term_delta_encoder.spec_prefix_len() == 0,
                None => final(self).block_index == old(self).block_index
                    && final(self).term_delta_encoder == old(self).term_delta_encoder,
            },
    {
        let stream_offset = self.write.written_bytes() as u32;
        let term_info = self.term_info_encoder.term_info();
        let postings_offset = term_info.postings_offset;
        let positions_offset = term_info.positions_offset;
        let checkpoint = CheckPoint { stream_offset, postings_offset, positions_offset };
        match block_key {
            Some(key) => {
                let inserted = builder_insert(
                    &mut self.block_index,
                    key,
                    self.checkpoints.len() as u64,
                );
                assert(inserted is Ok);
                self.term_delta_encoder.reset();
                self.term_info_encoder.reset(&checkpoint);
            },
            None => {},
        }
        checkpoint.serialize(&mut self.checkpoints);
    }

    /// Takes the key of the next entry: starts a block where one is due,
    /// and encodes the key against the key before it.
    fn insert_key(&mut self, key: &[u8], Ghost(value): Ghost<TermInfo>)
        requires
            old(self).inv(false),
            old(self).spec_accepts(key@, value),
            old(self).spec_insert_fits(key@, value),
        ensures
            final(self).inv(true),
            final(self).entries@ == old(self).entries@.push((key@, value)),
            final(self).spec_has_positions() == old(self).spec_has_positions(),
            final(self).initial() == old(self).initial(),
    {
        let ghost e = self.entries@;
        let ghost hp = self.term_info_encoder.spec_has_positions();
        let ghost n = e.len() as int;
        let ghost e2 = e.push((key@, value));
        proof {
            lemma_push_ordered(e, (key@, value), hp);
            lemma_stream_upto_push(e, (key@, value), n, hp);
            lemma_stream_upto_len(e2, n, n + 1, hp);
            lemma_checkpoints_upto_push(e, (key@, value), num_blocks(n), hp);
            lemma_checkpoints_upto_len(e, num_blocks(n), hp);
            if n > 0 {
                lemma_pairs_upto_push(e, (key@, value), num_blocks(n));
                lemma_pairs_upto(e, num_blocks(n), hp);
            }
        }
        if self.len % INDEX_INTERVAL == 0 {
            proof {
                assert forall|k: Seq<u8>| #[trigger]
                    builder_pairs(self.block_index).contains_key(k) implies lex_lt(k, key@) by {
                    if n > 0 {
                        let j = choose|j: int|
                            0 <= j < num_blocks(n) && #[trigger] block_key(e, j) == k;
                        assert(e2[1024 * j].0 == k);
                        assert(keys_ascend(e2, 1024 * j, n));
                    }
                }
            }
            self.add_index_entry(Some(key));
            proof {
                assert(num_blocks(n + 1) == num_blocks(n) + 1);
                assert(1024 * num_blocks(n) == n);
                assert(block_key(e2, num_blocks(n)) == key@);
                assert(checkpoint_at(e2, n, hp) == checkpoint_at(e, n, hp));
                assert(pairs_upto(e2, num_blocks(n)) == pairs_upto(e, num_blocks(n)));
                assert(block_pairs(e2) == pairs_upto(e2, num_blocks(n)).insert(
                    key@,
                    (12 * num_blocks(n)) as u64,
                ));
            }
        } else {
            proof {
                assert(num_blocks(n + 1) == num_blocks(n));
                assert(block_pairs(e2) == block_pairs(e));
            }
        }
        self.term_delta_encoder.encode(key);
        proof {
            self.entries = Ghost(e2);
        }
    }

    /// Writes the record of the entry whose key was taken last.
    fn insert_value(&mut self, term_info: &TermInfo) -> (res: Result<(), DictError>)
        requires
            old(self).inv(true),
            old(self).entries@.last().1 == *term_info,
        ensures
            res is Ok,
            final(self).inv(false),
            final(self).entries@ == old(self).entries@,
            final(self).spec_has_positions() == old(self).spec_has_positions(),
            final(self).initial() == old(self).initial(),
    {
        let ghost e = self.entries@;
        let ghost hp = self.term_info_encoder.spec_has_positions();
        let ghost n = e.len() - 1;
        proof {
            assert(entry_follows(e, n, hp));
            lemma_stream_upto_len(e, 0, n + 1, hp);
            crate::order::lemma_common_prefix_len(e[n].0, base_key(e, n));
        }
        let delta_term_info = match self.term_info_encoder.encode(*term_info) {
            Ok(delta) => delta,
            Err(e) => {
                return Err(e);
            },
        };
        let has_positions = self.term_info_encoder.has_positions();
        let (prefix_len, suffix) = self.term_delta_encoder.prefix_suffix();
        write_term_kv(prefix_len, suffix, &delta_term_info, has_positions, &mut self.write);
        self.len += 1;
        Ok(())
    }

    /// Inserts a `(key, value)` pair in the dictionary. The key has to be
    /// greater than the key inserted before it, and the offsets of `value`
    /// at least those of the value before it; an entry that is not is
    /// refused, and the builder stays as it was.
    pub fn insert(&mut self, key: &[u8], value: &TermInfo) -> (res: Result<(), DictError>)
        requires
            old(self).wf(),
            old(self).spec_accepts(key@, *value) ==> old(self).spec_insert_fits(key@, *value),
        ensures
            final(self).wf(),
            final(self).spec_has_positions() == old(self).spec_has_positions(),
            final(self).initial() == old(self).initial(),
            old(self).spec_accepts(key@, *value) ==> res is Ok,
            old(self).spec_accepts(key@, *value) ==> final(self).entries()
                == old(self).entries().push((key@, *value)),
            !old(self).spec_accepts(key@, *value) ==> res == Err::<(), DictError>(
                DictError::InvalidArgument,
            ),
            !old(self).spec_accepts(key@, *value) ==> final(self).entries() == old(self).entries(),
    {
        if self.len > 0 && !key_lt(self.term_delta_encoder.term(), key) {
            return Err(DictError::InvalidArgument);
        }
        if !self.term_info_encoder.can_encode(value) {
            return Err(DictError::InvalidArgument);
        }
        self.insert_key(key, Ghost(*value));
        self.insert_value(value)
    }

    /// Tells whether the entry can follow those inserted: whether `insert`
    /// takes it.
    pub fn accepts(&self, key: &[u8], value: &TermInfo) -> (res: bool)
        requires
            self.wf(),
        ensures
            res == self.spec_accepts(key@, *value),
    {
        (self.len == 0 || key_lt(self.term_delta_encoder.term(), key))
            && self.term_info_encoder.can_encode(value)
    }

    /// Tells whether the stream still fits in the range of `u32` offsets
    /// with an entry that can follow those inserted.
    pub fn fits(&self, key: &[u8], value: &TermInfo) -> (res: bool)
        requires
            self.wf(),
            self.spec_accepts(key@, *value),
        ensures
            res == self.spec_insert_fits(key@, *value),
    {
        let ghost e = self.entries@;
        let ghost hp = self.term_info_encoder.spec_has_positions();
        let ghost n = e.len() as int;
        let ghost e2 = e.push((key@, *value));
        proof {
            lemma_stream_upto_push(e, (key@, *value), n, hp);
            assert(e2[n] == (key@, *value));
            assert forall|i: int| 0 <= i < n implies (#[trigger] e2[i]).0.len() <= u32::MAX by {
                assert(e[i].0.len() <= u32::MAX);
            }
        }
        if key.len() > u32::MAX as usize {
            return false;
        }
        let prefix_len = if self.len % INDEX_INTERVAL == 0 {
            0
        } else {
            common_prefix_len(key, self.term_delta_encoder.term())
        };
        let delta_term_info = self.term_info_encoder.delta(value);
        let has_positions = self.term_info_encoder.has_positions();
        let record = record_len(
            prefix_len,
            key.len() - prefix_len,
            &delta_term_info,
            has_positions,
        );
        proof {
            crate::order::lemma_common_prefix_len(key@, base_key(e2, n));
            lemma_record_len_is(
                entry_prefix_len(e2, n) as nat,
                key@.skip(entry_prefix_len(e2, n)),
                crate::layout::entry_delta(e2, n, hp),
                hp,
            );
        }
        self.write.written_bytes() as u64 + record <= u32::MAX as u64
    }

    /// The number of bytes of the stream written so far.
    pub fn written_bytes(&self) -> (res: usize)
        requires
            self.wf(),
        ensures
            res == stream_of(self.entries(), self.spec_has_positions()).len(),
            res <= u32::MAX,
    {
        self.write.written_bytes()
    }

    /// Finishes the dictionary and returns the sink: what it held at the
    /// start, then the bytes of the dictionary file. Where the sink held
    /// nothing, and the entries hold no positions that the stream leaves
    /// out, a reader that opens these bytes has the entries.
    pub fn finish(self) -> (res: Result<Vec<u8>, DictError>)
        requires
            self.wf(),
        ensures
            res is Ok,
            res->Ok_0@ == self.initial() + dictionary_file(
                self.entries(),
                self.spec_has_positions(),
            ),
            self.initial().len() == 0 && entries_readable(
                self.entries(),
                self.spec_has_positions(),
            ) ==> is_dictionary_of(res->Ok_0@, self.entries(), self.spec_has_positions()),
    {
        let mut this = self;
        let ghost e = this.entries@;
        let ghost hp = this.term_info_encoder.spec_has_positions();
        let ghost stream = stream_of(e, hp);
        let ghost base = this.write.base();
        this.add_index_entry(None);
        assert(this.checkpoints@ == checkpoint_table(e, hp));
        let mut padding: Vec<u8> = Vec::new();
        while padding.len() < PADDING_SIZE
            invariant
                padding@.len() <= 4,
                forall|i: int| 0 <= i < padding@.len() ==> padding@[i] == 0,
            decreases 4 - padding@.len(),
        {
            padding.push(0u8);
        }
        assert(padding@ =~= seq![0u8, 0u8, 0u8, 0u8]);
        this.write.write_all(padding.as_slice());
        let fst_addr = this.write.written_bytes();
        let fst_write = match builder_into_inner(this.block_index) {
            Ok(bytes) => bytes,
            Err(_) => {
                return Err(DictError::Io);
            },
        };
        this.write.write_all(fst_write.as_slice());
        let check_points_addr = this.write.written_bytes();
        let (mut w, _) = this.write.finish();
        assert(w@ == base + stream + padding@ + fst_write@);
        w.extend_from_slice(this.checkpoints.as_slice());
        assert(w@ =~= base + stream + padding@ + fst_write@ + this.checkpoints@);
        serialize_u64(fst_addr as u64, &mut w);
        serialize_u64(check_points_addr as u64, &mut w);
        proof {
            lemma_file_parts(
                base,
                stream,
                fst_write@,
                this.checkpoints@,
                crate::common::le_bytes(fst_addr as nat, 8),
                crate::common::le_bytes(check_points_addr as nat, 8),
            );
            if self.initial().len() == 0 {
                assert(w@ =~= dictionary_file(e, hp));
            }
        }
        Ok(w)
    }
}

/// The parts of a file, appended one after the other behind what the sink
/// held, are the file behind what the sink held.
proof fn lemma_file_parts(
    base: Seq<u8>,
    stream: Seq<u8>,
    index: Seq<u8>,
    table: Seq<u8>,
    first: Seq<u8>,
    second: Seq<u8>,
)
    requires
        base.len() >= 1,
    ensures
        base + stream + seq![0u8, 0u8, 0u8, 0u8] + index + table + first + second
            == base.drop_last() + (seq![base.last()] + stream + seq![0u8, 0u8, 0u8, 0u8] + index
            + table + first + second),
{
    assert(base =~= base.drop_last() + seq![base.last()]);
    assert(base + stream + seq![0u8, 0u8, 0u8, 0u8] + index + table + first + second
        =~= base.drop_last() + (seq![base.last()] + stream + seq![0u8, 0u8, 0u8, 0u8] + index
        + table + first + second));
}

/// One more entry fits where its key, and 22 bytes more, fit behind the
/// stream.
pub proof fn lemma_insert_fits(
    entries: Seq<(Seq<u8>, TermInfo)>,
    e: (Seq<u8>, TermInfo),
    has_positions: bool,
)
    requires
        entries_fit(entries, has_positions),
        stream_of(entries, has_positions).len() + e.0.len() + 22 <= u32::MAX,
    ensures
        entries_fit(entries.push(e), has_positions),
{
    let e2 = entries.push(e);
    let n = entries.len() as int;
    lemma_stream_upto_push(entries, e, n, has_positions);
    crate::order::lemma_common_prefix_len(e2[n].0, base_key(e2, n));
    lemma_record_len(
        entry_prefix_len(e2, n) as nat,
        e2[n].0.skip(entry_prefix_len(e2, n)),
        crate::layout::entry_delta(e2, n, has_positions),
        has_positions,
    );
    assert forall|i: int| 0 <= i < e2.len() implies (#[trigger] e2[i]).0.len() <= u32::MAX by {
        if i < n {
            assert(entries[i].0.len() <= u32::MAX);
        }
    }
}

/// An entry whose key is greater than the last key and whose offsets do not
/// go back keeps the entries ordered.
pub proof fn lemma_push_ordered(
    entries: Seq<(Seq<u8>, TermInfo)>,
    e: (Seq<u8>, TermInfo),
    has_positions: bool,
)
    requires
        entries_ordered(entries, has_positions),
        entries.len() > 0 ==> lex_lt(entries.last().0, e.0),
        spec_encodable(base_info(entries, entries.len() as int), e.1, has_positions),
    ensures
        entries_ordered(entries.push(e), has_positions),
{
    let e2 = entries.push(e);
    let n = entries.len() as int;
    assert forall|i: int, j: int| 0 <= i < j < e2.len() implies #[trigger] keys_ascend(
        e2,
        i,
        j,
    ) by {
        if j == n {
            if i < n - 1 {
                assert(keys_ascend(entries, i, n - 1));
                lemma_lex_transitive(entries[i].0, entries[n - 1].0, e.0);
            }
        } else {
            assert(keys_ascend(entries, i, j));
        }
    }
    assert forall|i: int| 0 <= i < e2.len() implies #[trigger] entry_follows(
        e2,
        i,
        has_positions,
    ) by {
        if i < n {
            assert(entry_follows(entries, i, has_positions));
        }
    }
}

} // verus!
