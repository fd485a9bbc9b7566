//! What holds of every dictionary: of the file written for its entries, of
//! lookups, of the streams between bounds and by prefix, and of the number
//! of its checkpoints.

use crate::layout::{checkpoint_at, checkpoint_table, dictionary_file};
use crate::layout::{entries_ordered, keys_ascend, lemma_checkpoints_upto_len, num_blocks};
use crate::order::{is_prefix, lemma_lex_irreflexive, lemma_lex_trichotomy, lex_lt};
use crate::postings::TermInfo;
use crate::stream::{lemma_lookup_at_rank, lemma_rank, lemma_rank_is, rank, spec_lookup};
use crate::streamer::{lemma_prefix_range, spec_prefix_successor, spec_range};
use crate::termdict::{is_dictionary_of, lemma_file_injective};
use vstd::prelude::*;

verus! {

/// The file written for a list of entries is the file of no other list: a
/// reader that opens it has the entries that were inserted, with their
/// values, and knows whether they hold positions.
pub proof fn law_file_round_trip(
    entries: Seq<(Seq<u8>, TermInfo)>,
    has_positions: bool,
    read: Seq<(Seq<u8>, TermInfo)>,
    read_positions: bool,
)
    requires
        is_dictionary_of(dictionary_file(entries, has_positions), entries, has_positions),
        is_dictionary_of(dictionary_file(entries, has_positions), read, read_positions),
        dictionary_file(entries, has_positions).len() <= u64::MAX,
    ensures
        read == entries,
        read_positions == has_positions,
{
    lemma_file_injective(entries, has_positions, read, read_positions);
}

/// Looking up the key of an entry gives the value of that entry, and the
/// stream from that key on starts with that entry.
pub proof fn law_inserted_key_is_found(
    entries: Seq<(Seq<u8>, TermInfo)>,
    has_positions: bool,
    i: int,
)
    requires
        entries_ordered(entries, has_positions),
        0 <= i < entries.len(),
    ensures
        spec_lookup(entries, entries[i].0) == Some(entries[i].1),
        rank(entries, entries[i].0, false) == i,
        spec_range(entries, rank(entries, entries[i].0, false), entries.len() as int)[0]
            == entries[i],
{
    let key = entries[i].0;
    lemma_lex_irreflexive(key);
    if i > 0 {
        assert(keys_ascend(entries, i - 1, i));
    }
    lemma_rank_is(entries, has_positions, key, false, i);
    lemma_lookup_at_rank(entries, has_positions, key);
}

/// The stream without bounds yields all the entries, in the order of their
/// keys.
pub proof fn law_full_range(entries: Seq<(Seq<u8>, TermInfo)>)
    ensures
        spec_range(entries, 0, entries.len() as int) == entries,
{
    assert(spec_range(entries, 0, entries.len() as int) =~= entries);
}

/// Looking up a key that no entry has gives nothing, and the stream from
/// that key on starts with the entry of the smallest greater key, or is
/// empty where there is none.
pub proof fn law_missing_key(entries: Seq<(Seq<u8>, TermInfo)>, has_positions: bool, key: Seq<u8>)
    requires
        entries_ordered(entries, has_positions),
        forall|i: int| 0 <= i < entries.len() ==> (#[trigger] entries[i]).0 != key,
    ensures
        spec_lookup(entries, key) == None::<TermInfo>,
        0 <= rank(entries, key, false) <= entries.len(),
        forall|i: int|
            0 <= i < entries.len() ==> (lex_lt(key, (#[trigger] entries[i]).0) <==> rank(
                entries,
                key,
                false,
            ) <= i),
{
    lemma_rank(entries, has_positions, key, false);
    assert forall|i: int| 0 <= i < entries.len() implies (lex_lt(key, (#[trigger] entries[i]).0)
        <==> rank(entries, key, false) <= i) by {
        lemma_lex_trichotomy(key, entries[i].0);
    }
}

/// The stream by prefix yields the entries whose keys begin with the
/// prefix, all of them and no other, in the order of their keys.
pub proof fn law_prefix_stream(
    entries: Seq<(Seq<u8>, TermInfo)>,
    has_positions: bool,
    prefix: Seq<u8>,
)
    requires
        entries_ordered(entries, has_positions),
    ensures
        forall|i: int|
            0 <= i < entries.len() ==> (is_prefix(prefix, (#[trigger] entries[i]).0) <==> rank(
                entries,
                prefix,
                false,
            ) <= i < spec_prefix_end(entries, prefix)),
{
    lemma_rank(entries, has_positions, prefix, false);
    if spec_prefix_successor(prefix) is Some {
        lemma_rank(entries, has_positions, spec_prefix_successor(prefix)->Some_0, false);
    }
    assert forall|i: int| 0 <= i < entries.len() implies (is_prefix(
        prefix,
        (#[trigger] entries[i]).0,
    ) <==> rank(entries, prefix, false) <= i < spec_prefix_end(entries, prefix)) by {
        lemma_prefix_range(prefix, entries[i].0);
        lemma_lex_trichotomy(prefix, entries[i].0);
    }
}

/// Where the stream by prefix ends: at the first key that is the successor
/// of the prefix or greater, or after the last entry where the prefix has
/// no successor.
pub open spec fn spec_prefix_end(entries: Seq<(Seq<u8>, TermInfo)>, prefix: Seq<u8>) -> int {
    match spec_prefix_successor(prefix) {
        Some(s) => rank(entries, s, false),
        None => entries.len() as int,
    }
}

/// A dictionary of `n` entries has a checkpoint for each block of 1024
/// entries that it fills or starts, and one more.
pub proof fn law_checkpoint_count(entries: Seq<(Seq<u8>, TermInfo)>, has_positions: bool)
    ensures
        checkpoint_table(entries, has_positions).len() == 12 * (num_blocks(entries.len() as int)
            + 1),
        1024 * (num_blocks(entries.len() as int) - 1) < entries.len() <= 1024 * num_blocks(
            entries.len() as int,
        ),
{
    lemma_checkpoints_upto_len(entries, num_blocks(entries.len() as int), has_positions);
    checkpoint_at(entries, entries.len() as int, has_positions).lemma_spec_bytes_len();
}

} // verus!
