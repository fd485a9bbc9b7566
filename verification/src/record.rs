//! The per-entry record of the stream: one code byte, the key's prefix and
//! suffix lengths, the suffix, and the bit-packed `TermInfo` deltas.

use crate::common::{le_bytes, lemma_le_bytes_len, lemma_le_roundtrip};
use crate::common::{lemma_pow256_values, write_le, CountingWriter};
use crate::delta_encoder::{code_doc_freq_width, code_is_short, code_positions_width};
use crate::delta_encoder::{code_postings_width, parse_info, parse_key};
use crate::delta_encoder::{DeltaTermInfo, TermDeltaDecoder, TermInfoDeltaDecoder};
use crate::error::DictError;
use crate::postings::TermInfo;
use vstd::prelude::*;

verus! {

/// The least number of bytes, between 1 and 4, in which `n` fits.
pub open spec fn spec_num_bytes(n: u32) -> u8 {
    if n < 0x100 {
        1
    } else if n < 0x1_0000 {
        2
    } else if n < 0x100_0000 {
        3
    } else {
        4
    }
}

/// Returns the minimum number of bytes needed to hold `n`, little-endian;
/// zero takes one byte.
pub fn num_bytes_required(n: u32) -> (res: u8)
    ensures
        res == spec_num_bytes(n),
        1 <= res <= 4,
{
    let mut m: u32 = n;
    let mut i: u8 = 1;
    while i < 4 && m >= 256
        invariant
            1 <= i <= 4,
            i == 1 ==> m == n,
            i == 2 ==> m == n / 0x100,
            i == 3 ==> m == n / 0x1_0000,
            i == 4 ==> m == n / 0x100_0000,
            i >= 2 ==> n >= 0x100,
            i >= 3 ==> n >= 0x1_0000,
            i >= 4 ==> n >= 0x100_0000,
        decreases 4 - i,
    {
        m = m / 256;
        i = i + 1;
    }
    i
}

/// Whether the two lengths of a key fit in one byte, a nibble each.
pub open spec fn spec_is_short(prefix_len: nat, suffix_len: nat) -> bool {
    prefix_len < 16 && suffix_len < 16
}

/// The code byte of a record. Bit 0 tells the short form; bits 1 and 2,
/// bits 3 and 4, bits 5 and 6 hold the byte widths, less one, of the
/// document frequency, of the postings delta and of the positions delta;
/// bit 7 is zero.
pub open spec fn spec_code(short: bool, delta: DeltaTermInfo) -> u8 {
    ((if short {
        1int
    } else {
        0int
    }) + 2 * (spec_num_bytes(delta.doc_freq) - 1) + 8 * (spec_num_bytes(
        delta.delta_postings_offset,
    ) - 1) + 32 * (spec_num_bytes(delta.delta_positions_offset) - 1)) as u8
}

/// The bytes that tell a key: its prefix and suffix lengths, in one byte
/// where both are under 16 and in two little-endian `u32` otherwise, then
/// the suffix.
pub open spec fn spec_key_part(prefix_len: nat, suffix: Seq<u8>) -> Seq<u8> {
    (if spec_is_short(prefix_len, suffix.len()) {
        seq![(prefix_len + 16 * suffix.len()) as u8]
    } else {
        le_bytes(prefix_len, 4) + le_bytes(suffix.len(), 4)
    }) + suffix
}

/// The bytes that tell a `TermInfo` delta: the document frequency and the
/// postings delta, each in its least width, and with positions the
/// positions delta and the inner offset.
pub open spec fn spec_info_part(delta: DeltaTermInfo, has_positions: bool) -> Seq<u8> {
    le_bytes(delta.doc_freq as nat, spec_num_bytes(delta.doc_freq) as nat) + le_bytes(
        delta.delta_postings_offset as nat,
        spec_num_bytes(delta.delta_postings_offset) as nat,
    ) + (if has_positions {
        le_bytes(
            delta.delta_positions_offset as nat,
            spec_num_bytes(delta.delta_positions_offset) as nat,
        ) + seq![delta.positions_inner_offset]
    } else {
        Seq::empty()
    })
}

/// The bytes of one record of the stream.
pub open spec fn spec_record(
    prefix_len: nat,
    suffix: Seq<u8>,
    delta: DeltaTermInfo,
    has_positions: bool,
) -> Seq<u8> {
    seq![spec_code(spec_is_short(prefix_len, suffix.len()), delta)] + spec_key_part(
        prefix_len,
        suffix,
    ) + spec_info_part(delta, has_positions)
}

/// The bytes that tell a key are its suffix and one byte, or eight, for
/// its two lengths.
pub proof fn lemma_key_part_len(prefix_len: nat, suffix: Seq<u8>)
    ensures
        spec_key_part(prefix_len, suffix).len() == suffix.len() + (if spec_is_short(
            prefix_len,
            suffix.len(),
        ) {
            1int
        } else {
            8int
        }),
{
    lemma_le_bytes_len(prefix_len, 4);
    lemma_le_bytes_len(suffix.len(), 4);
}

/// The bytes that tell a `TermInfo` delta are as many as the widths of its
/// numbers, and with positions one more.
pub proof fn lemma_info_part_len(delta: DeltaTermInfo, has_positions: bool)
    ensures
        spec_info_part(delta, has_positions).len() == spec_num_bytes(delta.doc_freq)
            + spec_num_bytes(delta.delta_postings_offset) + (if has_positions {
            spec_num_bytes(delta.delta_positions_offset) + 1
        } else {
            0int
        }),
{
    lemma_le_bytes_len(delta.doc_freq as nat, spec_num_bytes(delta.doc_freq) as nat);
    lemma_le_bytes_len(
        delta.delta_postings_offset as nat,
        spec_num_bytes(delta.delta_postings_offset) as nat,
    );
    lemma_le_bytes_len(
        delta.delta_positions_offset as nat,
        spec_num_bytes(delta.delta_positions_offset) as nat,
    );
}

/// A record is never empty, and never longer than its suffix and 22 bytes.
pub proof fn lemma_record_len(
    prefix_len: nat,
    suffix: Seq<u8>,
    delta: DeltaTermInfo,
    has_positions: bool,
)
    ensures
        spec_record(prefix_len, suffix, delta, has_positions).len() == 1 + spec_key_part(
            prefix_len,
            suffix,
        ).len() + spec_info_part(delta, has_positions).len(),
        4 + suffix.len() <= spec_record(prefix_len, suffix, delta, has_positions).len()
            <= suffix.len() + 22,
{
    lemma_key_part_len(prefix_len, suffix);
    lemma_info_part_len(delta, has_positions);
}

/// The code byte, put together by shifts, is the sum of its fields.
proof fn lemma_code_bits(short: u8, a: u8, b: u8, c: u8)
    requires
        short <= 1,
        1 <= a <= 4,
        1 <= b <= 4,
        1 <= c <= 4,
    ensures
        (short | ((a - 1) as u8) << 1u8 | ((b - 1) as u8) << 3u8 | ((c - 1) as u8) << 5u8) == short
            + 2 * (a - 1) + 8 * (b - 1) + 32 * (c - 1),
{
    let x = (a - 1) as u8;
    let y = (b - 1) as u8;
    let z = (c - 1) as u8;
    assert((short | x << 1u8 | y << 3u8 | z << 5u8) == short + 2 * x + 8 * y + 32 * z)
        by (bit_vector)
        requires
            short <= 1,
            x <= 3,
            y <= 3,
            z <= 3,
    ;
}

/// The byte of the two short lengths, put together by a shift, is their
/// sum.
proof fn lemma_short_lengths_bits(p: u8, s: u8)
    requires
        p < 16,
        s < 16,
    ensures
        (p | s << 4u8) == p + 16 * s,
{
    assert((p | s << 4u8) == p + 16 * s) by (bit_vector)
        requires
            p < 16,
            s < 16,
    ;
}

/// Appends the record of one entry to `write`: the key as `prefix_len`
/// bytes kept from the key before it and `suffix`, and `delta_term_info`.
pub fn write_term_kv(
    prefix_len: usize,
    suffix: &[u8],
    delta_term_info: &DeltaTermInfo,
    has_positions: bool,
    write: &mut CountingWriter,
)
    requires
        old(write).wf(),
        prefix_len <= u32::MAX,
        suffix@.len() <= u32::MAX,
    ensures
        final(write).wf(),
        final(write).sink() == old(write).sink() + spec_record(
            prefix_len as nat,
            suffix@,
            *delta_term_info,
            has_positions,
        ),
        final(write).count() == old(write).count() + spec_record(
            prefix_len as nat,
            suffix@,
            *delta_term_info,
            has_positions,
        ).len(),
        final(write).base() == old(write).base(),
        final(write).written() == old(write).written() + spec_record(
            prefix_len as nat,
            suffix@,
            *delta_term_info,
            has_positions,
        ),
{
    let suffix_len = suffix.len();
    let num_bytes_docfreq = num_bytes_required(delta_term_info.doc_freq);
    let num_bytes_postings_offset = num_bytes_required(delta_term_info.delta_postings_offset);
    let num_bytes_positions_offset = num_bytes_required(delta_term_info.delta_positions_offset);
    let short = prefix_len < 16 && suffix_len < 16;
    let short_bit: u8 = if short {
        1
    } else {
        0
    };
    let code: u8 = short_bit | (num_bytes_docfreq - 1) << 1u8 | (num_bytes_postings_offset - 1)
        << 3u8 | (num_bytes_positions_offset - 1) << 5u8;
    proof {
        lemma_code_bits(
            short_bit,
            num_bytes_docfreq,
            num_bytes_postings_offset,
            num_bytes_positions_offset,
        );
    }
    let mut buffer: Vec<u8> = Vec::new();
    buffer.push(code);
    if short {
        let lengths: u8 = (prefix_len as u8) | (suffix_len as u8) << 4u8;
        proof {
            lemma_short_lengths_bits(prefix_len as u8, suffix_len as u8);
        }
        buffer.push(lengths);
    } else {
        write_le(&mut buffer, prefix_len as u64, 4);
        write_le(&mut buffer, suffix_len as u64, 4);
    }
    buffer.extend_from_slice(suffix);
    assert(buffer@ =~= seq![code] + spec_key_part(prefix_len as nat, suffix@));
    write_le(&mut buffer, delta_term_info.doc_freq as u64, num_bytes_docfreq as usize);
    write_le(
        &mut buffer,
        delta_term_info.delta_postings_offset as u64,
        num_bytes_postings_offset as usize,
    );
    if has_positions {
        write_le(
            &mut buffer,
            delta_term_info.delta_positions_offset as u64,
            num_bytes_positions_offset as usize,
        );
        buffer.push(delta_term_info.positions_inner_offset);
    }
    assert(buffer@ =~= spec_record(prefix_len as nat, suffix@, *delta_term_info, has_positions));
    write.write_all(buffer.as_slice());
}

/// The entry that the bytes of `data` from `pos` on tell, after a key
/// `prev_key` and a `TermInfo` `prev_info`, with the position after its
/// record; `None` where no record stands there: the data ends too early,
/// bit 7 of the code byte is set, the key asks for more of `prev_key` than
/// there is, or an offset leaves the range of `u32`.
#[verifier::opaque]
pub open spec fn parse_record(
    data: Seq<u8>,
    pos: int,
    prev_key: Seq<u8>,
    prev_info: TermInfo,
    has_positions: bool,
) -> Option<(Seq<u8>, TermInfo, int)> {
    if pos < 0 || pos >= data.len() || data[pos] >= 128 {
        None
    } else {
        match parse_key(data, pos + 1, data[pos], prev_key) {
            None => None,
            Some((key, next)) => match parse_info(data, next, data[pos], prev_info, has_positions) {
                None => None,
                Some((info, end)) => Some((key, info, end)),
            },
        }
    }
}

/// Reads the record at `pos` and hands its key and its `TermInfo` to the
/// two decoders; returns the position after the record. Where no record
/// stands at `pos` the result is `Corrupted`; the `TermInfo` decoder then
/// stays as it was, and the key decoder holds the key that stands at `pos`
/// if one does, and stays as it was if none does.
pub fn read_term_kv(
    data: &[u8],
    pos: usize,
    term_decoder: &mut TermDeltaDecoder,
    info_decoder: &mut TermInfoDeltaDecoder,
) -> (res: Result<usize, DictError>)
    ensures
        final(info_decoder).spec_has_positions() == old(info_decoder).spec_has_positions(),
        match parse_record(
            data@,
            pos as int,
            old(term_decoder).spec_term(),
            old(info_decoder).spec_term_info(),
            old(info_decoder).spec_has_positions(),
        ) {
            Some((key, info, next)) => res == Ok::<usize, DictError>(next as usize)
                && pos < next <= data@.len()
                && final(term_decoder).spec_term() == key
                && final(info_decoder).spec_term_info() == info,
            None => res == Err::<usize, DictError>(DictError::Corrupted)
                && final(info_decoder).spec_term_info() == old(info_decoder).spec_term_info()
                && final(term_decoder).spec_term() == spec_key_read(
                data@,
                pos as int,
                old(term_decoder).spec_term(),
            ),
        },
{
    reveal(parse_record);
    if pos >= data.len() {
        return Err(DictError::Corrupted);
    }
    let code: u8 = data[pos];
    if code >= 128 {
        return Err(DictError::Corrupted);
    }
    let after_key = term_decoder.decode(code, data, pos + 1)?;
    let end = info_decoder.decode(code, data, after_key)?;
    Ok(end)
}

/// The key that a key decoder holds after an attempt to read a record at
/// `pos`: the key that stands there behind a code byte, and `prev` where
/// none does.
pub open spec fn spec_key_read(data: Seq<u8>, pos: int, prev: Seq<u8>) -> Seq<u8> {
    if pos < 0 || pos >= data.len() || data[pos] >= 128 {
        prev
    } else {
        match parse_key(data, pos + 1, data[pos], prev) {
            Some((key, _)) => key,
            None => prev,
        }
    }
}

/// Without positions, a record that is read leaves the two positions
/// fields as they were.
pub proof fn lemma_parse_record_without_positions(
    data: Seq<u8>,
    pos: int,
    prev_key: Seq<u8>,
    prev_info: TermInfo,
)
    ensures
        match parse_record(data, pos, prev_key, prev_info, false) {
            Some((_, info, _)) => info.positions_offset == prev_info.positions_offset
                && info.positions_inner_offset == prev_info.positions_inner_offset,
            None => true,
        },
{
    reveal(parse_record);
}

/// The `TermInfo` that follows `prev` by `delta`.
pub open spec fn spec_apply_delta(
    prev: TermInfo,
    delta: DeltaTermInfo,
    has_positions: bool,
) -> TermInfo {
    TermInfo {
        doc_freq: delta.doc_freq,
        postings_offset: (prev.postings_offset + delta.delta_postings_offset) as u32,
        positions_offset: if has_positions {
            (prev.positions_offset + delta.delta_positions_offset) as u32
        } else {
            prev.positions_offset
        },
        positions_inner_offset: if has_positions {
            delta.positions_inner_offset
        } else {
            prev.positions_inner_offset
        },
    }
}

/// The number of bytes of a record, which depends on the key by its two
/// lengths only.
pub open spec fn spec_record_len(
    prefix_len: nat,
    suffix_len: nat,
    delta: DeltaTermInfo,
    has_positions: bool,
) -> int {
    1 + suffix_len + (if spec_is_short(prefix_len, suffix_len) {
        1int
    } else {
        8int
    }) + spec_num_bytes(delta.doc_freq) + spec_num_bytes(delta.delta_postings_offset) + (
    if has_positions {
        spec_num_bytes(delta.delta_positions_offset) + 1
    } else {
        0int
    })
}

/// A record has the number of bytes that `spec_record_len` tells.
pub proof fn lemma_record_len_is(
    prefix_len: nat,
    suffix: Seq<u8>,
    delta: DeltaTermInfo,
    has_positions: bool,
)
    ensures
        spec_record(prefix_len, suffix, delta, has_positions).len() == spec_record_len(
            prefix_len,
            suffix.len(),
            delta,
            has_positions,
        ),
{
    lemma_key_part_len(prefix_len, suffix);
    lemma_info_part_len(delta, has_positions);
}

/// Computes the number of bytes that the record of an entry takes.
pub fn record_len(
    prefix_len: usize,
    suffix_len: usize,
    delta_term_info: &DeltaTermInfo,
    has_positions: bool,
) -> (res: u64)
    requires
        suffix_len <= u32::MAX,
    ensures
        res == spec_record_len(
            prefix_len as nat,
            suffix_len as nat,
            *delta_term_info,
            has_positions,
        ),
{
    let lengths: u64 = if prefix_len < 16 && suffix_len < 16 {
        1
    } else {
        8
    };
    let positions: u64 = if has_positions {
        num_bytes_required(delta_term_info.delta_positions_offset) as u64 + 1
    } else {
        0
    };
    1 + suffix_len as u64 + lengths + num_bytes_required(delta_term_info.doc_freq) as u64
        + num_bytes_required(delta_term_info.delta_postings_offset) as u64 + positions
}

/// What a code byte tells is what it was made of.
pub proof fn lemma_code_fields(short: bool, delta: DeltaTermInfo)
    ensures
        spec_code(short, delta) < 128,
        code_is_short(spec_code(short, delta)) == short,
        code_doc_freq_width(spec_code(short, delta)) == spec_num_bytes(delta.doc_freq),
        code_postings_width(spec_code(short, delta)) == spec_num_bytes(
            delta.delta_postings_offset,
        ),
        code_positions_width(spec_code(short, delta)) == spec_num_bytes(
            delta.delta_positions_offset,
        ),
{
}

/// A number fits in its least width.
proof fn lemma_num_bytes_fits(n: u32)
    ensures
        n < crate::common::pow256(spec_num_bytes(n) as nat),
{
    lemma_pow256_values();
}

/// The bytes of a key, wherever they stand, are read back as the key.
pub proof fn lemma_parse_key_part(
    data: Seq<u8>,
    pos: int,
    code: u8,
    prev: Seq<u8>,
    prefix_len: nat,
    suffix: Seq<u8>,
)
    requires
        0 <= pos,
        pos + spec_key_part(prefix_len, suffix).len() <= data.len(),
        data.subrange(pos, pos + spec_key_part(prefix_len, suffix).len()) == spec_key_part(
            prefix_len,
            suffix,
        ),
        code_is_short(code) == spec_is_short(prefix_len, suffix.len()),
        prefix_len <= prev.len(),
        prefix_len <= u32::MAX,
        suffix.len() <= u32::MAX,
    ensures
        parse_key(data, pos, code, prev) == Some(
            (
                prev.subrange(0, prefix_len as int) + suffix,
                pos + spec_key_part(prefix_len, suffix).len(),
            ),
        ),
{
    let part = spec_key_part(prefix_len, suffix);
    let sl = suffix.len() as int;
    lemma_key_part_len(prefix_len, suffix);
    lemma_le_bytes_len(prefix_len, 4);
    lemma_le_bytes_len(suffix.len(), 4);
    if spec_is_short(prefix_len, suffix.len()) {
        assert(data[pos] == part[0]);
        assert(data.subrange(pos + 1, pos + 1 + sl) =~= part.subrange(1, 1 + sl));
        assert(part.subrange(1, 1 + sl) =~= suffix);
    } else {
        lemma_pow256_values();
        lemma_le_roundtrip(prefix_len, 4);
        lemma_le_roundtrip(suffix.len(), 4);
        assert(data.subrange(pos, pos + 4) =~= part.subrange(0, 4));
        assert(part.subrange(0, 4) =~= le_bytes(prefix_len, 4));
        assert(data.subrange(pos + 4, pos + 8) =~= part.subrange(4, 8));
        assert(part.subrange(4, 8) =~= le_bytes(suffix.len(), 4));
        assert(data.subrange(pos + 8, pos + 8 + sl) =~= part.subrange(8, 8 + sl));
        assert(part.subrange(8, 8 + sl) =~= suffix);
    }
}

/// The bytes of a `TermInfo` delta, wherever they stand, are read back as
/// the `TermInfo` that follows `prev` by it.
pub proof fn lemma_parse_info_part(
    data: Seq<u8>,
    pos: int,
    code: u8,
    prev: TermInfo,
    delta: DeltaTermInfo,
    has_positions: bool,
)
    requires
        0 <= pos,
        pos + spec_info_part(delta, has_positions).len() <= data.len(),
        data.subrange(pos, pos + spec_info_part(delta, has_positions).len()) == spec_info_part(
            delta,
            has_positions,
        ),
        code_doc_freq_width(code) == spec_num_bytes(delta.doc_freq),
        code_postings_width(code) == spec_num_bytes(delta.delta_postings_offset),
        code_positions_width(code) == spec_num_bytes(delta.delta_positions_offset),
        prev.postings_offset + delta.delta_postings_offset <= u32::MAX,
        has_positions ==> prev.positions_offset + delta.delta_positions_offset <= u32::MAX,
    ensures
        parse_info(data, pos, code, prev, has_positions) == Some(
            (
                spec_apply_delta(prev, delta, has_positions),
                pos + spec_info_part(delta, has_positions).len(),
            ),
        ),
{
    let part = spec_info_part(delta, has_positions);
    let n1 = spec_num_bytes(delta.doc_freq) as int;
    let n2 = spec_num_bytes(delta.delta_postings_offset) as int;
    let n3 = spec_num_bytes(delta.delta_positions_offset) as int;
    lemma_info_part_len(delta, has_positions);
    lemma_le_bytes_len(delta.doc_freq as nat, n1 as nat);
    lemma_le_bytes_len(delta.delta_postings_offset as nat, n2 as nat);
    lemma_le_bytes_len(delta.delta_positions_offset as nat, n3 as nat);
    lemma_num_bytes_fits(delta.doc_freq);
    lemma_num_bytes_fits(delta.delta_postings_offset);
    lemma_num_bytes_fits(delta.delta_positions_offset);
    lemma_le_roundtrip(delta.doc_freq as nat, n1 as nat);
    lemma_le_roundtrip(delta.delta_postings_offset as nat, n2 as nat);
    lemma_le_roundtrip(delta.delta_positions_offset as nat, n3 as nat);
    assert(data.subrange(pos, pos + n1) =~= part.subrange(0, n1));
    assert(part.subrange(0, n1) =~= le_bytes(delta.doc_freq as nat, n1 as nat));
    assert(data.subrange(pos + n1, pos + n1 + n2) =~= part.subrange(n1, n1 + n2));
    assert(part.subrange(n1, n1 + n2) =~= le_bytes(delta.delta_postings_offset as nat, n2 as nat));
    if has_positions {
        assert(data.subrange(pos + n1 + n2, pos + n1 + n2 + n3) =~= part.subrange(
            n1 + n2,
            n1 + n2 + n3,
        ));
        assert(part.subrange(n1 + n2, n1 + n2 + n3) =~= le_bytes(
            delta.delta_positions_offset as nat,
            n3 as nat,
        ));
        assert(data[pos + n1 + n2 + n3] == part[n1 + n2 + n3]);
    }
}

/// A record, wherever it stands, is read back as the entry it was written
/// for.
pub proof fn lemma_parse_record(
    data: Seq<u8>,
    pos: int,
    prev_key: Seq<u8>,
    prev_info: TermInfo,
    has_positions: bool,
    prefix_len: nat,
    suffix: Seq<u8>,
    delta: DeltaTermInfo,
)
    requires
        0 <= pos,
        pos + spec_record(prefix_len, suffix, delta, has_positions).len() <= data.len(),
        data.subrange(pos, pos + spec_record(prefix_len, suffix, delta, has_positions).len())
            == spec_record(prefix_len, suffix, delta, has_positions),
        prefix_len <= prev_key.len(),
        prefix_len <= u32::MAX,
        suffix.len() <= u32::MAX,
        prev_info.postings_offset + delta.delta_postings_offset <= u32::MAX,
        has_positions ==> prev_info.positions_offset + delta.delta_positions_offset <= u32::MAX,
    ensures
        parse_record(data, pos, prev_key, prev_info, has_positions) == Some(
            (
                prev_key.subrange(0, prefix_len as int) + suffix,
                spec_apply_delta(prev_info, delta, has_positions),
                pos + spec_record(prefix_len, suffix, delta, has_positions).len(),
            ),
        ),
{
    reveal(parse_record);
    let rec = spec_record(prefix_len, suffix, delta, has_positions);
    let short = spec_is_short(prefix_len, suffix.len());
    let code = spec_code(short, delta);
    let kp = spec_key_part(prefix_len, suffix);
    let ip = spec_info_part(delta, has_positions);
    let kl = kp.len() as int;
    let il = ip.len() as int;
    lemma_record_len(prefix_len, suffix, delta, has_positions);
    lemma_code_fields(short, delta);
    assert(data[pos] == rec[0]);
    assert(data.subrange(pos + 1, pos + 1 + kl) =~= rec.subrange(1, 1 + kl));
    assert(rec.subrange(1, 1 + kl) =~= kp);
    lemma_parse_key_part(data, pos + 1, code, prev_key, prefix_len, suffix);
    let next = pos + 1 + kl;
    assert(data.subrange(next, next + il) =~= rec.subrange(1 + kl, 1 + kl + il));
    assert(rec.subrange(1 + kl, 1 + kl + il) =~= ip);
    lemma_parse_info_part(data, next, code, prev_info, delta, has_positions);
}

} // verus!
