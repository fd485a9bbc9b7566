//! Reading the stream of a dictionary: where its records stand, what a
//! decoder has to hold to resume at one of them, and where the entries
//! below a bound end.

use crate::layout::{base_info, base_key, entries_fit, entries_ordered, entries_readable};
use crate::layout::{entry_delta, entry_follows, entry_prefix_len, entry_record, stream_of};
use crate::layout::{keys_ascend, lemma_stream_upto_len, stream_upto};
use crate::order::{lemma_common_prefix_len, lemma_lex_transitive};
use crate::order::lex_lt;
use crate::postings::TermInfo;
use crate::record::{lemma_parse_record, lemma_record_len, parse_record};
use vstd::prelude::*;

verus! {

/// The stream of the first `m` entries begins with the stream of the first
/// `n`, and goes on with the record of entry `n`.
pub proof fn lemma_stream_slices(
    entries: Seq<(Seq<u8>, TermInfo)>,
    has_positions: bool,
    n: int,
    m: int,
)
    requires
        0 <= n <= m,
    ensures
        stream_upto(entries, n, has_positions).len() <= stream_upto(
            entries,
            m,
            has_positions,
        ).len(),
        stream_upto(entries, m, has_positions).subrange(
            0,
            stream_upto(entries, n, has_positions).len() as int,
        ) == stream_upto(entries, n, has_positions),
        n < m ==> stream_upto(entries, n + 1, has_positions).len() <= stream_upto(
            entries,
            m,
            has_positions,
        ).len() && stream_upto(entries, m, has_positions).subrange(
            stream_upto(entries, n, has_positions).len() as int,
            stream_upto(entries, n + 1, has_positions).len() as int,
        ) == entry_record(entries, n, has_positions),
    decreases m - n,
{
    let sn = stream_upto(entries, n, has_positions);
    let sm = stream_upto(entries, m, has_positions);
    if n == m {
        assert(sm.subrange(0, sn.len() as int) =~= sn);
    } else {
        lemma_stream_slices(entries, has_positions, n, m - 1);
        let before = stream_upto(entries, m - 1, has_positions);
        let rec = entry_record(entries, m - 1, has_positions);
        assert(sm == before + rec);
        assert(sm.subrange(0, sn.len() as int) =~= before.subrange(0, sn.len() as int));
        let sn1 = stream_upto(entries, n + 1, has_positions);
        if n == m - 1 {
            assert(sm.subrange(sn.len() as int, sn1.len() as int) =~= rec);
        } else {
            assert(sm.subrange(sn.len() as int, sn1.len() as int) =~= before.subrange(
                sn.len() as int,
                sn1.len() as int,
            ));
        }
    }
}

/// What a decoder has to hold before it reads the record of entry `i`: the
/// key before it, unless `i` starts a block, and the offsets of the entry
/// before it. Without positions, the positions fields are zero.
pub open spec fn resumable(
    entries: Seq<(Seq<u8>, TermInfo)>,
    has_positions: bool,
    i: int,
    key: Seq<u8>,
    info: TermInfo,
) -> bool {
    &&& i % 1024 == 0 || key == entries[i - 1].0
    &&& info.postings_offset == base_info(entries, i).postings_offset
    &&& has_positions ==> info.positions_offset == base_info(entries, i).positions_offset
    &&& !has_positions ==> info.positions_offset == 0 && info.positions_inner_offset == 0
}

/// A decoder that can resume at entry `i` reads there the key and the
/// `TermInfo` of entry `i`, up to where the record of the next entry
/// starts.
pub proof fn lemma_parse_entry(
    entries: Seq<(Seq<u8>, TermInfo)>,
    has_positions: bool,
    i: int,
    key: Seq<u8>,
    info: TermInfo,
)
    requires
        entries_ordered(entries, has_positions),
        entries_fit(entries, has_positions),
        entries_readable(entries, has_positions),
        0 <= i < entries.len(),
        resumable(entries, has_positions, i, key, info),
    ensures
        parse_record(
            stream_of(entries, has_positions),
            stream_upto(entries, i, has_positions).len() as int,
            key,
            info,
            has_positions,
        ) == Some(
            (entries[i].0, entries[i].1, stream_upto(entries, i + 1, has_positions).len() as int),
        ),
        stream_upto(entries, i, has_positions).len() < stream_upto(
            entries,
            i + 1,
            has_positions,
        ).len() <= stream_of(entries, has_positions).len(),
{
    let stream = stream_of(entries, has_positions);
    let pos = stream_upto(entries, i, has_positions).len() as int;
    let prefix_len = entry_prefix_len(entries, i);
    let suffix = entries[i].0.skip(prefix_len);
    let delta = entry_delta(entries, i, has_positions);
    lemma_stream_slices(entries, has_positions, i, entries.len() as int);
    lemma_common_prefix_len(entries[i].0, base_key(entries, i));
    lemma_record_len(prefix_len as nat, suffix, delta, has_positions);
    assert(entry_follows(entries, i, has_positions));
    assert(entries[i].0.len() <= u32::MAX);
    lemma_parse_record(
        stream,
        pos,
        key,
        info,
        has_positions,
        prefix_len as nat,
        suffix,
        delta,
    );
    assert(key.subrange(0, prefix_len) + suffix =~= entries[i].0);
}

/// Whether a key is below a bound: smaller than it, or, where the bound is
/// inclusive, equal to it.
pub open spec fn below(key: Seq<u8>, bound: Seq<u8>, inclusive: bool) -> bool {
    lex_lt(key, bound) || (inclusive && key == bound)
}

/// The number of entries, among the first `n`, that are below a bound. As
/// the keys ascend, they are the first so many entries.
pub open spec fn rank_upto(
    entries: Seq<(Seq<u8>, TermInfo)>,
    bound: Seq<u8>,
    inclusive: bool,
    n: int,
) -> int
    decreases n,
{
    if n <= 0 {
        0
    } else if below(entries[n - 1].0, bound, inclusive) {
        n
    } else {
        rank_upto(entries, bound, inclusive, n - 1)
    }
}

/// The number of entries that are below a bound: the position of the first
/// entry that is not.
pub open spec fn rank(entries: Seq<(Seq<u8>, TermInfo)>, bound: Seq<u8>, inclusive: bool) -> int {
    rank_upto(entries, bound, inclusive, entries.len() as int)
}

/// A key below a bound keeps every smaller key below it.
pub proof fn lemma_below_transitive(a: Seq<u8>, b: Seq<u8>, bound: Seq<u8>, inclusive: bool)
    requires
        lex_lt(a, b),
        below(b, bound, inclusive),
    ensures
        below(a, bound, inclusive),
{
    if lex_lt(b, bound) {
        lemma_lex_transitive(a, b, bound);
    }
}

/// A position that has only entries below the bound before it, and an
/// entry not below the bound at it or the end of the entries, is the rank
/// of the bound.
pub proof fn lemma_rank_is(
    entries: Seq<(Seq<u8>, TermInfo)>,
    has_positions: bool,
    bound: Seq<u8>,
    inclusive: bool,
    r: int,
)
    requires
        entries_ordered(entries, has_positions),
        0 <= r <= entries.len(),
        r > 0 ==> below(entries[r - 1].0, bound, inclusive),
        r < entries.len() ==> !below(entries[r].0, bound, inclusive),
    ensures
        rank(entries, bound, inclusive) == r,
{
    lemma_rank_upto_is(entries, has_positions, bound, inclusive, r, entries.len() as int);
}

/// `lemma_rank_is`, among the first `n` entries.
proof fn lemma_rank_upto_is(
    entries: Seq<(Seq<u8>, TermInfo)>,
    has_positions: bool,
    bound: Seq<u8>,
    inclusive: bool,
    r: int,
    n: int,
)
    requires
        entries_ordered(entries, has_positions),
        0 <= r <= n <= entries.len(),
        r > 0 ==> below(entries[r - 1].0, bound, inclusive),
        r < entries.len() ==> !below(entries[r].0, bound, inclusive),
    ensures
        rank_upto(entries, bound, inclusive, n) == r,
    decreases n - r,
{
    if r < n {
        if below(entries[n - 1].0, bound, inclusive) {
            if r < n - 1 {
                assert(keys_ascend(entries, r, n - 1));
                lemma_below_transitive(entries[r].0, entries[n - 1].0, bound, inclusive);
            }
        }
        lemma_rank_upto_is(entries, has_positions, bound, inclusive, r, n - 1);
    }
}

/// The rank of a bound parts the entries: those before it are below the
/// bound, those from it on are not.
pub proof fn lemma_rank(
    entries: Seq<(Seq<u8>, TermInfo)>,
    has_positions: bool,
    bound: Seq<u8>,
    inclusive: bool,
)
    requires
        entries_ordered(entries, has_positions),
    ensures
        0 <= rank(entries, bound, inclusive) <= entries.len(),
        forall|i: int|
            0 <= i < rank(entries, bound, inclusive) ==> below(
                (#[trigger] entries[i]).0,
                bound,
                inclusive,
            ),
        forall|i: int|
            rank(entries, bound, inclusive) <= i < entries.len() ==> !below(
                (#[trigger] entries[i]).0,
                bound,
                inclusive,
            ),
{
    lemma_rank_upto(entries, has_positions, bound, inclusive, entries.len() as int);
}

/// `lemma_rank`, among the first `n` entries.
proof fn lemma_rank_upto(
    entries: Seq<(Seq<u8>, TermInfo)>,
    has_positions: bool,
    bound: Seq<u8>,
    inclusive: bool,
    n: int,
)
    requires
        entries_ordered(entries, has_positions),
        0 <= n <= entries.len(),
    ensures
        0 <= rank_upto(entries, bound, inclusive, n) <= n,
        forall|i: int|
            0 <= i < rank_upto(entries, bound, inclusive, n) ==> below(
                (#[trigger] entries[i]).0,
                bound,
                inclusive,
            ),
        forall|i: int|
            rank_upto(entries, bound, inclusive, n) <= i < n ==> !below(
                (#[trigger] entries[i]).0,
                bound,
                inclusive,
            ),
    decreases n,
{
    if n > 0 {
        if below(entries[n - 1].0, bound, inclusive) {
            assert forall|i: int| 0 <= i < n implies below(
                (#[trigger] entries[i]).0,
                bound,
                inclusive,
            ) by {
                if i < n - 1 {
                    assert(keys_ascend(entries, i, n - 1));
                    lemma_below_transitive(entries[i].0, entries[n - 1].0, bound, inclusive);
                }
            }
        } else {
            lemma_rank_upto(entries, has_positions, bound, inclusive, n - 1);
        }
    }
}

/// The `TermInfo` that the entries hold for a key, if they hold the key.
pub open spec fn spec_lookup(entries: Seq<(Seq<u8>, TermInfo)>, key: Seq<u8>) -> Option<TermInfo> {
    if exists|i: int| 0 <= i < entries.len() && (#[trigger] entries[i]).0 == key {
        Some(entries[choose|i: int| 0 <= i < entries.len() && (#[trigger] entries[i]).0 == key].1)
    } else {
        None
    }
}

/// The entry at the rank of a key is the entry of that key, if there is
/// one.
pub proof fn lemma_lookup_at_rank(
    entries: Seq<(Seq<u8>, TermInfo)>,
    has_positions: bool,
    key: Seq<u8>,
)
    requires
        entries_ordered(entries, has_positions),
    ensures
        spec_lookup(entries, key) == (if rank(entries, key, false) < entries.len() && entries[rank(
            entries,
            key,
            false,
        )].0 == key {
            Some(entries[rank(entries, key, false)].1)
        } else {
            None
        }),
{
    lemma_rank(entries, has_positions, key, false);
    let r = rank(entries, key, false);
    crate::order::lemma_lex_irreflexive(key);
    assert forall|i: int| 0 <= i < entries.len() && (#[trigger] entries[i]).0 == key implies i
        == r by {
        assert(!below(entries[i].0, key, false));
        if i > r {
            assert(keys_ascend(entries, r, i));
            assert(below(entries[r].0, key, false));
        }
    }
    if r < entries.len() && entries[r].0 == key {
        assert(entries[r].0 == key);
    }
}

/// Two lists of entries that make the same stream are the same list.
pub proof fn lemma_stream_injective(
    a: Seq<(Seq<u8>, TermInfo)>,
    b: Seq<(Seq<u8>, TermInfo)>,
    has_positions: bool,
)
    requires
        stream_of(a, has_positions) == stream_of(b, has_positions),
        entries_ordered(a, has_positions),
        entries_fit(a, has_positions),
        entries_readable(a, has_positions),
        entries_ordered(b, has_positions),
        entries_fit(b, has_positions),
        entries_readable(b, has_positions),
    ensures
        a == b,
{
    assert(a.take(0) =~= b.take(0));
    lemma_stream_common(a, b, has_positions, 0);
}

/// The key that a decoder resumes from at entry `n`.
spec fn resume_key(entries: Seq<(Seq<u8>, TermInfo)>, n: int) -> Seq<u8> {
    if n % 1024 == 0 {
        Seq::<u8>::empty()
    } else {
        entries[n - 1].0
    }
}

/// The offsets that a decoder resumes from at entry `n`.
spec fn resume_info(entries: Seq<(Seq<u8>, TermInfo)>, has_positions: bool, n: int) -> TermInfo {
    TermInfo {
        doc_freq: 0,
        postings_offset: base_info(entries, n).postings_offset,
        positions_offset: if has_positions {
            base_info(entries, n).positions_offset
        } else {
            0
        },
        positions_inner_offset: 0,
    }
}

/// Two lists that make the same stream and have the same entry before
/// position `n` have the same entry at position `n`.
proof fn lemma_next_entry_equal(
    a: Seq<(Seq<u8>, TermInfo)>,
    b: Seq<(Seq<u8>, TermInfo)>,
    has_positions: bool,
    n: int,
)
    requires
        stream_of(a, has_positions) == stream_of(b, has_positions),
        entries_ordered(a, has_positions),
        entries_fit(a, has_positions),
        entries_readable(a, has_positions),
        entries_ordered(b, has_positions),
        entries_fit(b, has_positions),
        entries_readable(b, has_positions),
        0 <= n < a.len(),
        n < b.len(),
        n > 0 ==> a[n - 1] == b[n - 1],
        stream_upto(a, n, has_positions).len() == stream_upto(b, n, has_positions).len(),
    ensures
        a[n] == b[n],
        stream_upto(a, n + 1, has_positions).len() == stream_upto(b, n + 1, has_positions).len(),
{
    let key = resume_key(a, n);
    let info = resume_info(a, has_positions, n);
    assert(resumable(a, has_positions, n, key, info));
    assert(resumable(b, has_positions, n, key, info));
    lemma_parse_entry(a, has_positions, n, key, info);
    lemma_parse_entry(b, has_positions, n, key, info);
}

/// Two lists that make the same stream and agree before position `n` are
/// the same list.
proof fn lemma_stream_common(
    a: Seq<(Seq<u8>, TermInfo)>,
    b: Seq<(Seq<u8>, TermInfo)>,
    has_positions: bool,
    n: int,
)
    requires
        stream_of(a, has_positions) == stream_of(b, has_positions),
        entries_ordered(a, has_positions),
        entries_fit(a, has_positions),
        entries_readable(a, has_positions),
        entries_ordered(b, has_positions),
        entries_fit(b, has_positions),
        entries_readable(b, has_positions),
        0 <= n <= a.len(),
        n <= b.len(),
        a.take(n) == b.take(n),
        stream_upto(a, n, has_positions).len() == stream_upto(b, n, has_positions).len(),
    ensures
        a == b,
    decreases a.len() - n,
{
    let hp = has_positions;
    if n == a.len() || n == b.len() {
        if n < a.len() {
            lemma_stream_upto_len(a, n, a.len() as int, hp);
        }
        if n < b.len() {
            lemma_stream_upto_len(b, n, b.len() as int, hp);
        }
        assert(a.take(n) =~= a);
        assert(b.take(n) =~= b);
    } else {
        if n > 0 {
            assert(a[n - 1] == a.take(n)[n - 1]);
            assert(b[n - 1] == b.take(n)[n - 1]);
        }
        lemma_next_entry_equal(a, b, hp, n);
        assert(a.take(n + 1) =~= a.take(n).push(a[n]));
        assert(b.take(n + 1) =~= b.take(n).push(b[n]));
        lemma_stream_common(a, b, hp, n + 1);
    }
}

} // verus!
