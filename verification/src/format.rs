//! Fixed-width little-endian encoding of 64-bit values and of records.

use vstd::prelude::*;

verus! {

/// Bytes that one encoded value takes.
pub const VAL_WIDTH: usize = 8;

/// Bytes that one encoded record takes.
pub const REC_WIDTH: usize = 16;

/// A timestamped value.
#[derive(Debug, Clone, Copy, PartialEq, Eq, Structural)]
pub struct Rec {
    /// When the value was taken. It is the key of the record.
    pub timestamp: u64,
    /// The value.
    pub value: u64,
}

/// The number that a byte string denotes when read least significant byte first.
pub open spec fn le_value(s: Seq<u8>) -> nat
    decreases s.len(),
{
    if s.len() == 0 {
        0
    } else {
        s[0] as nat + 256 * le_value(s.drop_first())
    }
}

/// The `width` low-order bytes of `n`, least significant first.
pub open spec fn le_bytes(n: nat, width: nat) -> Seq<u8>
    decreases width,
{
    if width == 0 {
        Seq::empty()
    } else {
        seq![(n % 256) as u8] + le_bytes(n / 256, (width - 1) as nat)
    }
}

/// 256 to the power `width`.
pub open spec fn radix_pow(width: nat) -> nat
    decreases width,
{
    if width == 0 {
        1
    } else {
        256 * radix_pow((width - 1) as nat)
    }
}

/// The encoding of a 64-bit value.
pub open spec fn value_bytes(n: u64) -> Seq<u8> {
    le_bytes(n as nat, 8)
}

/// The encoding of a record: the timestamp, then the value.
pub open spec fn rec_bytes(rec: Rec) -> Seq<u8> {
    value_bytes(rec.timestamp) + value_bytes(rec.value)
}

/// The record that sixteen bytes decode to.
pub open spec fn rec_of_bytes(s: Seq<u8>) -> Rec {
    Rec {
        timestamp: le_value(s.subrange(0, 8)) as u64,
        value: le_value(s.subrange(8, 16)) as u64,
    }
}

/// An encoding of `width` bytes has `width` bytes.
pub proof fn lemma_le_bytes_len(n: nat, width: nat)
    ensures
        le_bytes(n, width).len() == width,
    decreases width,
{
    if width > 0 {
        lemma_le_bytes_len(n / 256, (width - 1) as nat);
    }
}

/// A byte string of length `w` denotes a number below 256 to the `w`.
proof fn lemma_le_value_bound(s: Seq<u8>)
    ensures
        le_value(s) < radix_pow(s.len()),
    decreases s.len(),
{
    if s.len() > 0 {
        lemma_le_value_bound(s.drop_first());
    }
}

/// Decoding the `width`-byte encoding of `n` gives `n` modulo 256 to the `width`.
pub proof fn lemma_le_value_of_le_bytes(n: nat, width: nat)
    ensures
        le_value(le_bytes(n, width)) == n % radix_pow(width),
    decreases width,
{
    if width > 0 {
        let rest = le_bytes(n / 256, (width - 1) as nat);
        let s = le_bytes(n, width);
        lemma_le_value_of_le_bytes(n / 256, (width - 1) as nat);
        assert(s.drop_first() =~= rest);
        let p = radix_pow((width - 1) as nat);
        lemma_radix_pow_positive((width - 1) as nat);
        vstd::arithmetic::div_mod::lemma_mod_breakdown(n as int, 256, p as int);
    }
}

/// A power of 256 is positive.
proof fn lemma_radix_pow_positive(width: nat)
    ensures
        radix_pow(width) > 0,
    decreases width,
{
    if width > 0 {
        lemma_radix_pow_positive((width - 1) as nat);
    }
}

/// The powers of 256 rise with the exponent.
proof fn lemma_radix_pow_monotonic(a: nat, b: nat)
    requires
        a <= b,
    ensures
        radix_pow(a) <= radix_pow(b),
    decreases b,
{
    if a < b {
        lemma_radix_pow_monotonic(a, (b - 1) as nat);
    }
}

/// Eight bytes hold exactly the 64-bit values.
proof fn lemma_radix_pow_eight()
    ensures
        radix_pow(8) == 0x1_0000_0000_0000_0000,
{
    reveal_with_fuel(radix_pow, 9);
}

/// Decoding an encoded value gives the value back.
pub proof fn lemma_load_store(n: u64)
    ensures
        value_bytes(n).len() == 8,
        le_value(value_bytes(n)) == n,
{
    lemma_le_bytes_len(n as nat, 8);
    lemma_le_value_of_le_bytes(n as nat, 8);
    lemma_radix_pow_eight();
}

/// Decoding an encoded record gives the record back.
pub proof fn lemma_load_store_rec(rec: Rec)
    ensures
        rec_bytes(rec).len() == 16,
        rec_of_bytes(rec_bytes(rec)) == rec,
{
    lemma_load_store(rec.timestamp);
    lemma_load_store(rec.value);
    let s = rec_bytes(rec);
    assert(s.subrange(0, 8) =~= value_bytes(rec.timestamp));
    assert(s.subrange(8, 16) =~= value_bytes(rec.value));
}

/// What `buf` holds once the encoding of `n` has been written at offset `off`.
pub open spec fn with_value_at(buf: Seq<u8>, off: int, n: u64) -> Seq<u8> {
    buf.subrange(0, off) + value_bytes(n) + buf.subrange(off + 8, buf.len() as int)
}

/// Writes the encoding of `n` into the eight bytes of `buf` that start at `off`.
pub fn store_at(n: u64, buf: &mut [u8], off: usize)
    requires
        off + VAL_WIDTH <= old(buf)@.len(),
    ensures
        final(buf)@ == with_value_at(old(buf)@, off as int, n),
        final(buf)@.len() == old(buf)@.len(),
        final(buf)@.subrange(off as int, off + 8) == value_bytes(n),
{
    let len = buf.len();
    let mut rest: u64 = n;
    let mut b: usize = 0;
    proof {
        lemma_le_bytes_len(n as nat, 8);
    }
    while b < VAL_WIDTH
        invariant
            b <= 8,
            off + 8 <= len,
            buf@.len() == len,
            old(buf)@.len() == len,
            buf@.subrange(0, off as int) == old(buf)@.subrange(0, off as int),
            buf@.subrange(off + 8, len as int) == old(buf)@.subrange(off + 8, len as int),
            buf@.subrange(off as int, off + b) + le_bytes(rest as nat, (8 - b) as nat)
                == value_bytes(n),
        decreases 8 - b,
    {
        let ghost before = buf@;
        buf[off + b] = (rest % 256) as u8;
        rest = rest / 256;
        b = b + 1;
        assert(buf@.subrange(off as int, off + b) == before.subrange(off as int, off + b - 1).push(
            buf@[off + b - 1],
        ));
        assert(buf@.subrange(0, off as int) == before.subrange(0, off as int));
        assert(buf@.subrange(off + 8, len as int) == before.subrange(off + 8, len as int));
    }
    assert(buf@ == with_value_at(old(buf)@, off as int, n)) by {
        let a = buf@;
        let w = with_value_at(old(buf)@, off as int, n);
        assert(a.len() == w.len());
        assert forall|i: int| 0 <= i < a.len() implies a[i] == w[i] by {
            if i < off {
                assert(a[i] == a.subrange(0, off as int)[i]);
            } else if i < off + 8 {
                assert(a[i] == a.subrange(off as int, off + 8)[i - off]);
            } else {
                assert(a[i] == a.subrange(off + 8, len as int)[i - off - 8]);
            }
        }
    }
}

/// Reads the value that the eight bytes of `buf` from `off` on hold.
pub fn load_at(buf: &[u8], off: usize) -> (n: u64)
    requires
        off + VAL_WIDTH <= buf@.len(),
    ensures
        n == le_value(buf@.subrange(off as int, off + 8)),
{
    let len = buf.len();
    let mut acc: u64 = 0;
    let mut b: usize = VAL_WIDTH;
    while b > 0
        invariant
            b <= 8,
            off + 8 <= len,
            buf@.len() == len,
            acc == le_value(buf@.subrange(off + b, off + 8)),
        decreases b,
    {
        proof {
            let tail = buf@.subrange(off + b, off + 8);
            let next = buf@.subrange(off + b - 1, off + 8);
            assert(next.drop_first() == tail);
            lemma_le_value_bound(next);
            lemma_radix_pow_eight();
            lemma_radix_pow_monotonic(next.len(), 8);
        }
        b = b - 1;
        acc = acc * 256 + buf[off + b] as u64;
    }
    acc
}

/// Writes `n` into the eight bytes of `buf`, least significant byte first.
pub fn store(n: u64, buf: &mut [u8])
    requires
        old(buf)@.len() == VAL_WIDTH,
    ensures
        final(buf)@ == value_bytes(n),
        final(buf)@.len() == VAL_WIDTH,
{
    store_at(n, buf, 0);
    assert(buf@.subrange(0, 8) == buf@);
}

/// Reads the value that the eight bytes of `buf` hold, least significant byte first.
pub fn load(buf: &[u8]) -> (n: u64)
    requires
        buf@.len() == VAL_WIDTH,
    ensures
        n == le_value(buf@),
{
    assert(buf@.subrange(0, 8) == buf@);
    load_at(buf, 0)
}

/// Writes the encoding of `rec` into the sixteen bytes of `buf`.
pub fn store_rec(rec: &Rec, buf: &mut [u8])
    requires
        old(buf)@.len() == REC_WIDTH,
    ensures
        final(buf)@ == rec_bytes(*rec),
        final(buf)@.len() == REC_WIDTH,
{
    store_at(rec.timestamp, buf, 0);
    store_at(rec.value, buf, VAL_WIDTH);
    assert(buf@ == rec_bytes(*rec)) by {
        lemma_le_bytes_len(rec.timestamp as nat, 8);
        lemma_le_bytes_len(rec.value as nat, 8);
    }
}

/// Reads the record that the sixteen bytes of `buf` hold.
pub fn load_rec(buf: &[u8]) -> (rec: Rec)
    requires
        buf@.len() == REC_WIDTH,
    ensures
        rec == rec_of_bytes(buf@),
{
    let value = load_at(buf, VAL_WIDTH);
    let timestamp = load_at(buf, 0);
    Rec { timestamp, value }
}

} // verus!
