//! The layout of a dictionary file, stated over the entries it holds: the
//! stream of records, the checkpoint table, the block index and the footer.

use crate::block_index::fst_image;
use crate::checkpoint::CheckPoint;
use crate::common::le_bytes;
use crate::delta_encoder::{spec_delta, spec_encodable, DeltaTermInfo};
use crate::order::{lex_lt, spec_common_prefix_len};
use crate::postings::TermInfo;
use crate::record::{lemma_record_len, spec_record};
use vstd::prelude::*;

verus! {

/// The number of entries of a block.
pub const INDEX_INTERVAL: usize = 1024;

/// The number of zero bytes after the stream.
pub const PADDING_SIZE: usize = 4;

/// The number of bytes of the footer.
pub const FOOTER_SIZE: usize = 16;

/// The key that entry `i` is encoded against: the key before it, or the
/// empty key where `i` starts a block.
pub open spec fn base_key(entries: Seq<(Seq<u8>, TermInfo)>, i: int) -> Seq<u8> {
    if i % 1024 == 0 {
        Seq::empty()
    } else {
        entries[i - 1].0
    }
}

/// The `TermInfo` that entry `i` is encoded against: that of the entry
/// before it, or zero for the first.
pub open spec fn base_info(entries: Seq<(Seq<u8>, TermInfo)>, i: int) -> TermInfo {
    if i <= 0 {
        TermInfo::zero()
    } else {
        entries[i - 1].1
    }
}

/// The number of bytes that entry `i` shares with the key it is encoded
/// against.
pub open spec fn entry_prefix_len(entries: Seq<(Seq<u8>, TermInfo)>, i: int) -> int {
    spec_common_prefix_len(entries[i].0, base_key(entries, i))
}

/// What the stream holds of the `TermInfo` of entry `i`.
pub open spec fn entry_delta(
    entries: Seq<(Seq<u8>, TermInfo)>,
    i: int,
    has_positions: bool,
) -> DeltaTermInfo {
    spec_delta(base_info(entries, i), entries[i].1, has_positions)
}

/// The record of entry `i`.
pub open spec fn entry_record(
    entries: Seq<(Seq<u8>, TermInfo)>,
    i: int,
    has_positions: bool,
) -> Seq<u8> {
    spec_record(
        entry_prefix_len(entries, i) as nat,
        entries[i].0.skip(entry_prefix_len(entries, i)),
        entry_delta(entries, i, has_positions),
        has_positions,
    )
}

/// The records of the first `n` entries, one after the other.
pub open spec fn stream_upto(
    entries: Seq<(Seq<u8>, TermInfo)>,
    n: int,
    has_positions: bool,
) -> Seq<u8>
    decreases n,
{
    if n <= 0 {
        Seq::empty()
    } else {
        stream_upto(entries, n - 1, has_positions) + entry_record(entries, n - 1, has_positions)
    }
}

/// The stream of a dictionary: the records of all its entries.
pub open spec fn stream_of(entries: Seq<(Seq<u8>, TermInfo)>, has_positions: bool) -> Seq<u8> {
    stream_upto(entries, entries.len() as int, has_positions)
}

/// The offsets of entry `i` do not go back from those of the entry before
/// it.
pub open spec fn entry_follows(
    entries: Seq<(Seq<u8>, TermInfo)>,
    i: int,
    has_positions: bool,
) -> bool {
    spec_encodable(base_info(entries, i), entries[i].1, has_positions)
}

/// The key of entry `i` comes before the key of entry `j`.
pub open spec fn keys_ascend(entries: Seq<(Seq<u8>, TermInfo)>, i: int, j: int) -> bool {
    lex_lt(entries[i].0, entries[j].0)
}

/// The keys are strictly ascending, and no offset goes back from one entry
/// to the next.
pub open spec fn entries_ordered(entries: Seq<(Seq<u8>, TermInfo)>, has_positions: bool) -> bool {
    &&& forall|i: int, j: int| 0 <= i < j < entries.len() ==> #[trigger] keys_ascend(entries, i, j)
    &&& forall|i: int|
        0 <= i < entries.len() ==> #[trigger] entry_follows(entries, i, has_positions)
}

/// The first key of block `j`.
pub open spec fn block_key(entries: Seq<(Seq<u8>, TermInfo)>, j: int) -> Seq<u8> {
    entries[1024 * j].0
}

/// Every offset into the stream and every key length fits in a `u32`.
pub open spec fn entries_fit(entries: Seq<(Seq<u8>, TermInfo)>, has_positions: bool) -> bool {
    &&& stream_of(entries, has_positions).len() <= u32::MAX
    &&& forall|i: int| 0 <= i < entries.len() ==> (#[trigger] entries[i]).0.len() <= u32::MAX
}

/// What a reader gives back is what was inserted: without positions, the
/// two positions fields of every entry are zero, since the stream does not
/// hold them.
pub open spec fn entries_readable(entries: Seq<(Seq<u8>, TermInfo)>, has_positions: bool) -> bool {
    has_positions || forall|i: int|
        0 <= i < entries.len() ==> (#[trigger] entries[i]).1.positions_offset == 0
            && entries[i].1.positions_inner_offset == 0
}

/// The number of blocks that `n` entries fill or start.
pub open spec fn num_blocks(n: int) -> int {
    (n + 1023) / 1024
}

/// The checkpoint taken before entry `i`: where its record starts, and the
/// offsets of the entry before it.
pub open spec fn checkpoint_at(
    entries: Seq<(Seq<u8>, TermInfo)>,
    i: int,
    has_positions: bool,
) -> CheckPoint {
    CheckPoint {
        stream_offset: stream_upto(entries, i, has_positions).len() as u32,
        postings_offset: base_info(entries, i).postings_offset,
        positions_offset: base_info(entries, i).positions_offset,
    }
}

/// The checkpoints of the first `blocks` blocks, one after the other.
pub open spec fn checkpoints_upto(
    entries: Seq<(Seq<u8>, TermInfo)>,
    blocks: int,
    has_positions: bool,
) -> Seq<u8>
    decreases blocks,
{
    if blocks <= 0 {
        Seq::empty()
    } else {
        checkpoints_upto(entries, blocks - 1, has_positions) + checkpoint_at(
            entries,
            1024 * (blocks - 1),
            has_positions,
        ).spec_bytes()
    }
}

/// The checkpoint table: one checkpoint for each block, and one after the
/// last entry.
pub open spec fn checkpoint_table(
    entries: Seq<(Seq<u8>, TermInfo)>,
    has_positions: bool,
) -> Seq<u8> {
    checkpoints_upto(entries, num_blocks(entries.len() as int), has_positions) + checkpoint_at(
        entries,
        entries.len() as int,
        has_positions,
    ).spec_bytes()
}

/// The block index of the first `blocks` blocks: from the first key of each
/// block to the offset of its checkpoint in the table.
pub open spec fn pairs_upto(entries: Seq<(Seq<u8>, TermInfo)>, blocks: int) -> Map<Seq<u8>, u64>
    decreases blocks,
{
    if blocks <= 0 {
        Map::empty()
    } else {
        pairs_upto(entries, blocks - 1).insert(
            block_key(entries, blocks - 1),
            (12 * (blocks - 1)) as u64,
        )
    }
}

/// The block index of a dictionary.
pub open spec fn block_pairs(entries: Seq<(Seq<u8>, TermInfo)>) -> Map<Seq<u8>, u64> {
    pairs_upto(entries, num_blocks(entries.len() as int))
}

/// The byte that tells whether the records hold positions.
pub open spec fn positions_flag(has_positions: bool) -> u8 {
    if has_positions {
        255
    } else {
        0
    }
}

/// The bytes of a dictionary file: the positions flag, the stream, four
/// zero bytes, the block index, the checkpoint table, and a footer of two
/// little-endian `u64`: where the block index starts and where the
/// checkpoint table starts, both counted from after the flag.
pub open spec fn dictionary_file(entries: Seq<(Seq<u8>, TermInfo)>, has_positions: bool) -> Seq<
    u8,
> {
    let stream = stream_of(entries, has_positions);
    let index = fst_image(block_pairs(entries));
    seq![positions_flag(has_positions)] + stream + seq![0u8, 0u8, 0u8, 0u8] + index
        + checkpoint_table(entries, has_positions) + le_bytes((stream.len() + 4) as nat, 8)
        + le_bytes((stream.len() + 4 + index.len()) as nat, 8)
}

/// The stream of the first `n` entries does not depend on the entries after
/// them.
pub proof fn lemma_stream_upto_push(
    entries: Seq<(Seq<u8>, TermInfo)>,
    e: (Seq<u8>, TermInfo),
    n: int,
    has_positions: bool,
)
    requires
        n <= entries.len(),
    ensures
        stream_upto(entries.push(e), n, has_positions) == stream_upto(entries, n, has_positions),
    decreases n,
{
    if n > 0 {
        lemma_stream_upto_push(entries, e, n - 1, has_positions);
        assert(entry_record(entries.push(e), n - 1, has_positions) == entry_record(
            entries,
            n - 1,
            has_positions,
        ));
    }
}

/// The checkpoints of the blocks that start at or before the end of
/// `entries` do not depend on what is pushed.
pub proof fn lemma_checkpoints_upto_push(
    entries: Seq<(Seq<u8>, TermInfo)>,
    e: (Seq<u8>, TermInfo),
    blocks: int,
    has_positions: bool,
)
    requires
        1024 * (blocks - 1) <= entries.len(),
    ensures
        checkpoints_upto(entries.push(e), blocks, has_positions) == checkpoints_upto(
            entries,
            blocks,
            has_positions,
        ),
    decreases blocks,
{
    if blocks > 0 {
        lemma_checkpoints_upto_push(entries, e, blocks - 1, has_positions);
        lemma_stream_upto_push(entries, e, 1024 * (blocks - 1), has_positions);
    }
}

/// The index of the blocks that start before the end of `entries` does not
/// depend on what is pushed.
pub proof fn lemma_pairs_upto_push(
    entries: Seq<(Seq<u8>, TermInfo)>,
    e: (Seq<u8>, TermInfo),
    blocks: int,
)
    requires
        1024 * (blocks - 1) < entries.len(),
    ensures
        pairs_upto(entries.push(e), blocks) == pairs_upto(entries, blocks),
    decreases blocks,
{
    if blocks > 0 {
        lemma_pairs_upto_push(entries, e, blocks - 1);
    }
}

/// Each record takes at least four bytes, so the stream grows with every
/// entry.
pub proof fn lemma_stream_upto_len(
    entries: Seq<(Seq<u8>, TermInfo)>,
    n: int,
    m: int,
    has_positions: bool,
)
    requires
        0 <= n <= m,
    ensures
        stream_upto(entries, n, has_positions).len() + 4 * (m - n) <= stream_upto(
            entries,
            m,
            has_positions,
        ).len(),
    decreases m - n,
{
    if n < m {
        lemma_stream_upto_len(entries, n, m - 1, has_positions);
        lemma_record_len(
            entry_prefix_len(entries, m - 1) as nat,
            entries[m - 1].0.skip(entry_prefix_len(entries, m - 1)),
            entry_delta(entries, m - 1, has_positions),
            has_positions,
        );
    }
}

/// The checkpoints of `blocks` blocks take twelve bytes each.
pub proof fn lemma_checkpoints_upto_len(
    entries: Seq<(Seq<u8>, TermInfo)>,
    blocks: int,
    has_positions: bool,
)
    requires
        0 <= blocks,
    ensures
        checkpoints_upto(entries, blocks, has_positions).len() == 12 * blocks,
    decreases blocks,
{
    if blocks > 0 {
        lemma_checkpoints_upto_len(entries, blocks - 1, has_positions);
        checkpoint_at(entries, 1024 * (blocks - 1), has_positions).lemma_spec_bytes_len();
    }
}

/// The checkpoint of block `j` stands at offset `12 * j` of the checkpoints
/// of `blocks` blocks.
pub proof fn lemma_checkpoints_upto_at(
    entries: Seq<(Seq<u8>, TermInfo)>,
    blocks: int,
    j: int,
    has_positions: bool,
)
    requires
        0 <= j < blocks,
    ensures
        checkpoints_upto(entries, blocks, has_positions).len() == 12 * blocks,
        checkpoints_upto(entries, blocks, has_positions).subrange(12 * j, 12 * j + 12)
            == checkpoint_at(entries, 1024 * j, has_positions).spec_bytes(),
    decreases blocks,
{
    lemma_checkpoints_upto_len(entries, blocks, has_positions);
    lemma_checkpoints_upto_len(entries, blocks - 1, has_positions);
    let last = checkpoint_at(entries, 1024 * (blocks - 1), has_positions).spec_bytes();
    let before = checkpoints_upto(entries, blocks - 1, has_positions);
    checkpoint_at(entries, 1024 * (blocks - 1), has_positions).lemma_spec_bytes_len();
    if j == blocks - 1 {
        assert((before + last).subrange(12 * j, 12 * j + 12) =~= last);
    } else {
        lemma_checkpoints_upto_at(entries, blocks - 1, j, has_positions);
        assert((before + last).subrange(12 * j, 12 * j + 12) =~= before.subrange(
            12 * j,
            12 * j + 12,
        ));
    }
}

/// The block index holds the first key of each block, and with it twelve
/// times the number of the block.
pub proof fn lemma_pairs_upto(entries: Seq<(Seq<u8>, TermInfo)>, blocks: int, has_positions: bool)
    requires
        entries_ordered(entries, has_positions),
        0 <= blocks,
        1024 * (blocks - 1) < entries.len(),
        12 * blocks <= u64::MAX,
    ensures
        forall|k: Seq<u8>|
            pairs_upto(entries, blocks).contains_key(k) ==> exists|j: int|
                0 <= j < blocks && #[trigger] block_key(entries, j) == k,
        forall|j: int|
            0 <= j < blocks ==> pairs_upto(entries, blocks).contains_key(
                #[trigger] block_key(entries, j),
            ) && pairs_upto(entries, blocks)[block_key(entries, j)] == 12 * j,
        pairs_upto(entries, blocks).dom().finite(),
    decreases blocks,
{
    if blocks > 0 {
        lemma_pairs_upto(entries, blocks - 1, has_positions);
        let last = block_key(entries, blocks - 1);
        let before = pairs_upto(entries, blocks - 1);
        assert(pairs_upto(entries, blocks) == before.insert(last, (12 * (blocks - 1)) as u64));
        assert forall|j: int| 0 <= j < blocks implies pairs_upto(entries, blocks).contains_key(
            #[trigger] block_key(entries, j),
        ) && pairs_upto(entries, blocks)[block_key(entries, j)] == 12 * j by {
            if j < blocks - 1 {
                assert(keys_ascend(entries, 1024 * j, 1024 * (blocks - 1)));
                crate::order::lemma_lex_irreflexive(last);
                assert(before.contains_key(block_key(entries, j)));
            }
        }
        assert forall|k: Seq<u8>| pairs_upto(entries, blocks).contains_key(k) implies exists|
            j: int,
        |
            0 <= j < blocks && #[trigger] block_key(entries, j) == k by {
            if k == last {
                assert(block_key(entries, blocks - 1) == k);
            } else {
                assert(before.contains_key(k));
                let j = choose|j: int| 0 <= j < blocks - 1 && #[trigger] block_key(entries, j) == k;
                assert(block_key(entries, j) == k);
            }
        }
    }
}

/// The stream of the first `n` entries is the same for two lists that have
/// the same first `n` entries.
pub proof fn lemma_stream_upto_agree(
    a: Seq<(Seq<u8>, TermInfo)>,
    b: Seq<(Seq<u8>, TermInfo)>,
    n: int,
    has_positions: bool,
)
    requires
        0 <= n <= a.len(),
        n <= b.len(),
        a.take(n) == b.take(n),
    ensures
        stream_upto(a, n, has_positions) == stream_upto(b, n, has_positions),
    decreases n,
{
    if n > 0 {
        assert(a.take(n - 1) =~= a.take(n).take(n - 1));
        assert(b.take(n - 1) =~= b.take(n).take(n - 1));
        lemma_stream_upto_agree(a, b, n - 1, has_positions);
        assert(a[n - 1] == a.take(n)[n - 1]);
        assert(b[n - 1] == b.take(n)[n - 1]);
        if n > 1 {
            assert(a[n - 2] == a.take(n)[n - 2]);
            assert(b[n - 2] == b.take(n)[n - 2]);
        }
        assert(entry_record(a, n - 1, has_positions) == entry_record(b, n - 1, has_positions));
    }
}

/// The first entries of a list that is ordered, fits and can be read back
/// are such a list themselves.
pub proof fn lemma_take_entries(
    entries: Seq<(Seq<u8>, TermInfo)>,
    n: int,
    has_positions: bool,
)
    requires
        0 <= n <= entries.len(),
        entries_ordered(entries, has_positions),
        entries_fit(entries, has_positions),
        entries_readable(entries, has_positions),
    ensures
        entries_ordered(entries.take(n), has_positions),
        entries_fit(entries.take(n), has_positions),
        entries_readable(entries.take(n), has_positions),
        stream_of(entries.take(n), has_positions) == stream_upto(entries, n, has_positions),
{
    let first = entries.take(n);
    assert(first.take(n) =~= entries.take(n));
    lemma_stream_upto_agree(first, entries, n, has_positions);
    lemma_stream_upto_len(entries, n, entries.len() as int, has_positions);
    assert forall|i: int, j: int| 0 <= i < j < first.len() implies #[trigger] keys_ascend(
        first,
        i,
        j,
    ) by {
        assert(keys_ascend(entries, i, j));
    }
    assert forall|i: int| 0 <= i < first.len() implies #[trigger] entry_follows(
        first,
        i,
        has_positions,
    ) by {
        assert(entry_follows(entries, i, has_positions));
    }
    assert forall|i: int| 0 <= i < first.len() implies (#[trigger] first[i]).0.len()
        <= u32::MAX by {
        assert(entries[i].0.len() <= u32::MAX);
    }
    if !has_positions {
        assert forall|i: int| 0 <= i < first.len() implies (#[trigger] first[i]).1.positions_offset
            == 0 && first[i].1.positions_inner_offset == 0 by {
            assert(entries[i].1.positions_offset == 0);
        }
    }
}

} // verus!
