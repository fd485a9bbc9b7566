//! Little-endian integer codecs and a writer that counts what it wrote.

use crate::error::DictError;
use vstd::prelude::*;

verus! {

/// The `k` low bytes of `n`, least significant first.
pub open spec fn le_bytes(n: nat, k: nat) -> Seq<u8>
    decreases k,
{
    if k == 0 {
        Seq::empty()
    } else {
        seq![(n % 256) as u8] + le_bytes(n / 256, (k - 1) as nat)
    }
}

/// The number that `s` holds, least significant byte first.
pub open spec fn le_value(s: Seq<u8>) -> nat
    decreases s.len(),
{
    if s.len() == 0 {
        0
    } else {
        s[0] as nat + 256 * le_value(s.skip(1))
    }
}

/// 256 to the power `k`.
pub open spec fn pow256(k: nat) -> nat
    decreases k,
{
    if k == 0 {
        1
    } else {
        256 * pow256((k - 1) as nat)
    }
}

/// The powers of 256 that the codecs meet.
pub proof fn lemma_pow256_values()
    ensures
        pow256(0) == 1,
        pow256(1) == 0x100,
        pow256(2) == 0x1_0000,
        pow256(3) == 0x100_0000,
        pow256(4) == 0x1_0000_0000,
        pow256(8) == 0x1_0000_0000_0000_0000,
{
    reveal_with_fuel(pow256, 9);
}

/// The `k` low bytes of a number are `k` bytes.
pub proof fn lemma_le_bytes_len(n: nat, k: nat)
    ensures
        le_bytes(n, k).len() == k,
    decreases k,
{
    if k > 0 {
        lemma_le_bytes_len(n / 256, (k - 1) as nat);
    }
}

/// A number that fits in `k` bytes is read back from them.
pub proof fn lemma_le_roundtrip(n: nat, k: nat)
    requires
        n < pow256(k),
    ensures
        le_value(le_bytes(n, k)) == n,
    decreases k,
{
    if k > 0 {
        let rest = le_bytes(n / 256, (k - 1) as nat);
        lemma_le_roundtrip(n / 256, (k - 1) as nat);
        assert(le_bytes(n, k).skip(1) =~= rest);
    }
}

/// What `k` bytes hold fits in `k` bytes.
pub proof fn lemma_le_value_bound(s: Seq<u8>)
    ensures
        le_value(s) < pow256(s.len()),
    decreases s.len(),
{
    if s.len() > 0 {
        lemma_le_value_bound(s.skip(1));
    }
}

/// Appends the `k` low bytes of `n` to `out`, least significant first.
pub fn write_le(out: &mut Vec<u8>, n: u64, k: usize)
    requires
        k <= 8,
    ensures
        final(out)@ == old(out)@ + le_bytes(n as nat, k as nat),
{
    let mut m: u64 = n;
    let mut i: usize = 0;
    while i < k
        invariant
            i <= k <= 8,
            out@ + le_bytes(m as nat, (k - i) as nat) == old(out)@ + le_bytes(n as nat, k as nat),
        decreases k - i,
    {
        let ghost before = out@;
        out.push((m % 256) as u8);
        proof {
            assert(before + le_bytes(m as nat, (k - i) as nat) =~= before.push((m % 256) as u8)
                + le_bytes((m / 256) as nat, (k - i - 1) as nat));
        }
        m = m / 256;
        i = i + 1;
    }
    assert(out@ + le_bytes(m as nat, 0) =~= out@);
}

/// Reads the number that the `k` bytes of `data` from `pos` on hold, least
/// significant first.
pub fn read_le(data: &[u8], pos: usize, k: usize) -> (res: u64)
    requires
        k <= 8,
        pos + k <= data@.len(),
    ensures
        res == le_value(data@.subrange(pos as int, pos + k)),
{
    let mut res: u64 = 0;
    let mut i: usize = k;
    let n = data.len();
    proof {
        assert(data@.subrange(pos + k, pos + k).len() == 0);
        lemma_pow256_values();
    }
    while i > 0
        invariant
            i <= k <= 8,
            pos + k <= n == data@.len(),
            res == le_value(data@.subrange(pos + i, pos + k)),
            res < pow256((k - i) as nat),
        decreases i,
    {
        i = i - 1;
        proof {
            let s = data@.subrange(pos + i, pos + k);
            assert(s.skip(1) =~= data@.subrange(pos + i + 1, pos + k));
            lemma_pow256_bound((k - i - 1) as nat);
        }
        res = res * 256 + data[pos + i] as u64;
    }
    res
}

/// Seven bytes at most leave room for one more in a `u64`.
proof fn lemma_pow256_bound(k: nat)
    requires
        k <= 7,
    ensures
        pow256(k) <= 0x100_0000_0000_0000,
        pow256(k + 1) == 256 * pow256(k),
{
    reveal_with_fuel(pow256, 9);
}

/// Appends the four bytes of `n`, little-endian.
pub fn serialize_u32(n: u32, out: &mut Vec<u8>)
    ensures
        final(out)@ == old(out)@ + le_bytes(n as nat, 4),
{
    write_le(out, n as u64, 4);
}

/// Appends the eight bytes of `n`, little-endian.
pub fn serialize_u64(n: u64, out: &mut Vec<u8>)
    ensures
        final(out)@ == old(out)@ + le_bytes(n as nat, 8),
{
    write_le(out, n, 8);
}

/// Reads a little-endian `u32` at `pos`; the data must hold four bytes there.
pub fn deserialize_u32(data: &[u8], pos: usize) -> (res: Result<u32, DictError>)
    ensures
        res == (if pos + 4 <= data@.len() {
            Ok(le_value(data@.subrange(pos as int, pos + 4)) as u32)
        } else {
            Err(DictError::Corrupted)
        }),
        res is Ok ==> res->Ok_0 == le_value(data@.subrange(pos as int, pos + 4)),
{
    if data.len() < 4 || pos > data.len() - 4 {
        return Err(DictError::Corrupted);
    }
    let v = read_le(data, pos, 4);
    proof {
        lemma_le_value_bound(data@.subrange(pos as int, pos + 4));
        lemma_pow256_values();
    }
    Ok(v as u32)
}

/// Reads a little-endian `u64` at `pos`; the data must hold eight bytes
/// there.
pub fn deserialize_u64(data: &[u8], pos: usize) -> (res: Result<u64, DictError>)
    ensures
        res == (if pos + 8 <= data@.len() {
            Ok(le_value(data@.subrange(pos as int, pos + 8)) as u64)
        } else {
            Err(DictError::Corrupted)
        }),
        res is Ok ==> res->Ok_0 == le_value(data@.subrange(pos as int, pos + 8)),
{
    if data.len() < 8 || pos > data.len() - 8 {
        return Err(DictError::Corrupted);
    }
    let v = read_le(data, pos, 8);
    Ok(v)
}

/// A byte sink that counts the bytes written through it.
pub struct CountingWriter {
    underlying: Vec<u8>,
    written_bytes: usize,
}

impl CountingWriter {
    /// All the bytes of the sink: those it held when it was wrapped, then
    /// those written through the writer.
    pub closed spec fn sink(&self) -> Seq<u8> {
        self.underlying@
    }

    /// The number of bytes written through the writer.
    pub closed spec fn count(&self) -> nat {
        self.written_bytes as nat
    }

    /// The count never exceeds what the sink holds.
    pub closed spec fn wf(&self) -> bool {
        self.written_bytes <= self.underlying@.len()
    }

    /// The bytes written through the writer.
    pub open spec fn written(&self) -> Seq<u8> {
        self.sink().subrange(self.sink().len() - self.count(), self.sink().len() as int)
    }

    /// The bytes that the sink held when it was wrapped.
    pub open spec fn base(&self) -> Seq<u8> {
        self.sink().subrange(0, self.sink().len() - self.count())
    }

    /// Wraps a sink; nothing has been written through the writer yet.
    pub fn wrap(underlying: Vec<u8>) -> (res: CountingWriter)
        ensures
            res.wf(),
            res.sink() == underlying@,
            res.count() == 0,
            res.base() == underlying@,
            res.written() == Seq::<u8>::empty(),
    {
        let res = CountingWriter { underlying, written_bytes: 0 };
        assert(res.base() =~= underlying@);
        assert(res.written() =~= Seq::<u8>::empty());
        res
    }

    /// Appends `buf` to the sink and counts its bytes.
    pub fn write_all(&mut self, buf: &[u8])
        requires
            old(self).wf(),
        ensures
            final(self).wf(),
            final(self).sink() == old(self).sink() + buf@,
            final(self).count() == old(self).count() + buf@.len(),
            final(self).base() == old(self).base(),
            final(self).written() == old(self).written() + buf@,
    {
        self.underlying.extend_from_slice(buf);
        let total = self.underlying.len();
        assert(self.written_bytes + buf@.len() <= total);
        self.written_bytes = self.written_bytes + buf.len();
        assert(self.underlying@ =~= old(self).underlying@ + buf@);
        assert(self.base() =~= old(self).base());
        assert(self.written() =~= old(self).written() + buf@);
    }

    /// The number of bytes written through the writer.
    pub fn written_bytes(&self) -> (res: usize)
        ensures
            res == self.count(),
    {
        self.written_bytes
    }

    /// Gives the sink back, with the number of bytes written through the
    /// writer.
    pub fn finish(self) -> (res: (Vec<u8>, usize))
        requires
            self.wf(),
        ensures
            res.0@ == self.sink(),
            res.0@ == self.base() + self.written(),
            res.1 == self.count(),
            res.1 == self.written().len(),
    {
        proof {
            assert(self.sink() =~= self.base() + self.written());
        }
        (self.underlying, self.written_bytes)
    }
}

} // verus!
