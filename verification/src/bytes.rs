//! Little-endian integers in byte sequences.

use byteorder::{ByteOrder, LittleEndian};
use vstd::prelude::*;

verus! {

/// The number that `s` spells, least significant byte first.
pub open spec fn le_value(s: Seq<u8>) -> nat
    decreases s.len(),
{
    if s.len() == 0 {
        0
    } else {
        s[0] as nat + 256 * le_value(s.skip(1))
    }
}

/// The `n` lowest bytes of `v`, least significant byte first.
pub open spec fn le_bytes(v: nat, n: nat) -> Seq<u8>
    decreases n,
{
    if n == 0 {
        Seq::empty()
    } else {
        seq![(v % 256) as u8] + le_bytes(v / 256, (n - 1) as nat)
    }
}

/// `256` to the power of `n`.
pub open spec fn pow256(n: nat) -> nat
    decreases n,
{
    if n == 0 {
        1
    } else {
        256 * pow256((n - 1) as nat)
    }
}

pub proof fn lemma_le_bytes_len(v: nat, n: nat)
    ensures
        le_bytes(v, n).len() == n,
    decreases n,
{
    if n > 0 {
        lemma_le_bytes_len(v / 256, (n - 1) as nat);
    }
}

/// Writing a number that fits in `n` bytes and reading it back gives the number.
pub proof fn lemma_le_value_of_bytes(v: nat, n: nat)
    requires
        v < pow256(n),
    ensures
        le_value(le_bytes(v, n)) == v,
    decreases n,
{
    if n > 0 {
        lemma_le_value_of_bytes(v / 256, (n - 1) as nat);
        assert(le_bytes(v, n).skip(1) =~= le_bytes(v / 256, (n - 1) as nat));
    }
}

pub proof fn lemma_pow256_small()
    ensures
        pow256(2) == 0x1_0000,
        pow256(4) == 0x1_0000_0000,
        pow256(8) == 0x1_0000_0000_0000_0000,
{
    reveal_with_fuel(pow256, 9);
}

/// `LittleEndian::read_u16` of the byteorder crate: the first two bytes of `buf` as a
/// little-endian number. It panics on a shorter buffer.
#[verifier::external_body]
pub(crate) fn read_u16(buf: &[u8]) -> (r: u16)
    requires
        buf@.len() >= 2,
    ensures
        r == le_value(buf@.take(2)),
{
    LittleEndian::read_u16(buf)
}

/// `LittleEndian::read_u32` of the byteorder crate: the first four bytes of `buf` as a
/// little-endian number. It panics on a shorter buffer.
#[verifier::external_body]
pub(crate) fn read_u32(buf: &[u8]) -> (r: u32)
    requires
        buf@.len() >= 4,
    ensures
        r == le_value(buf@.take(4)),
{
    LittleEndian::read_u32(buf)
}

/// `LittleEndian::read_u64` of the byteorder crate: the first eight bytes of `buf` as a
/// little-endian number. It panics on a shorter buffer.
#[verifier::external_body]
pub(crate) fn read_u64(buf: &[u8]) -> (r: u64)
    requires
        buf@.len() >= 8,
    ensures
        r == le_value(buf@.take(8)),
{
    LittleEndian::read_u64(buf)
}

/// `LittleEndian::write_u16` of the byteorder crate, into a fresh two-byte buffer.
#[verifier::external_body]
pub(crate) fn write_u16(v: u16) -> (r: [u8; 2])
    ensures
        r@ == le_bytes(v as nat, 2),
{
    let mut buf = [0u8; 2];
    LittleEndian::write_u16(&mut buf, v);
    buf
}

/// `LittleEndian::write_u32` of the byteorder crate, into a fresh four-byte buffer.
#[verifier::external_body]
pub(crate) fn write_u32(v: u32) -> (r: [u8; 4])
    ensures
        r@ == le_bytes(v as nat, 4),
{
    let mut buf = [0u8; 4];
    LittleEndian::write_u32(&mut buf, v);
    buf
}

/// `LittleEndian::write_u64` of the byteorder crate, into a fresh eight-byte buffer.
#[verifier::external_body]
pub(crate) fn write_u64(v: u64) -> (r: [u8; 8])
    ensures
        r@ == le_bytes(v as nat, 8),
{
    let mut buf = [0u8; 8];
    LittleEndian::write_u64(&mut buf, v);
    buf
}

/// Appends all of `bytes` to `out`.
pub fn append_bytes(out: &mut Vec<u8>, bytes: &[u8])
    ensures
        final(out)@ == old(out)@ + bytes@,
{
    let ghost before = out@;
    let mut i: usize = 0;
    while i < bytes.len()
        invariant
            i <= bytes@.len(),
            out@ == before + bytes@.take(i as int),
        decreases bytes@.len() - i,
    {
        out.push(bytes[i]);
        assert(bytes@.take(i + 1) =~= bytes@.take(i as int).push(bytes@[i as int]));
        i += 1;
    }
    assert(bytes@.take(i as int) =~= bytes@);
}

/// The bytes of a sequence of `u16`s.
pub open spec fn u16s_bytes(v: Seq<u16>) -> Seq<u8> {
    Seq::new(2 * v.len(), |k: int| le_bytes(v[k / 2] as nat, 2)[k % 2])
}

/// The bytes of a sequence of `u32`s.
pub open spec fn u32s_bytes(v: Seq<u32>) -> Seq<u8> {
    Seq::new(4 * v.len(), |k: int| le_bytes(v[k / 4] as nat, 4)[k % 4])
}

/// The bytes of a sequence of `u64`s.
pub open spec fn u64s_bytes(v: Seq<u64>) -> Seq<u8> {
    Seq::new(8 * v.len(), |k: int| le_bytes(v[k / 8] as nat, 8)[k % 8])
}

/// The `u16` at byte position `p`.
pub open spec fn u16_at(s: Seq<u8>, p: int) -> u16 {
    le_value(s.subrange(p, p + 2)) as u16
}

/// The `u32` at byte position `p`.
pub open spec fn u32_at(s: Seq<u8>, p: int) -> u32 {
    le_value(s.subrange(p, p + 4)) as u32
}

/// The `u64` at byte position `p`.
pub open spec fn u64_at(s: Seq<u8>, p: int) -> u64 {
    le_value(s.subrange(p, p + 8)) as u64
}

/// The `u16`s that start at byte position `p`.
pub open spec fn u16s_at(s: Seq<u8>, p: int, count: nat) -> Seq<u16> {
    Seq::new(count, |i: int| u16_at(s, p + 2 * i))
}

/// The `u32`s that start at byte position `p`.
pub open spec fn u32s_at(s: Seq<u8>, p: int, count: nat) -> Seq<u32> {
    Seq::new(count, |i: int| u32_at(s, p + 4 * i))
}

/// Reading back the bytes of a sequence of `u16`s gives the sequence.
pub proof fn lemma_u16s_round_trip(s: Seq<u8>, p: int, v: Seq<u16>)
    requires
        0 <= p,
        p + 2 * v.len() <= s.len(),
        s.subrange(p, p + 2 * v.len()) == u16s_bytes(v),
    ensures
        u16s_at(s, p, v.len()) == v,
{
    assert forall|i: int| 0 <= i < v.len() implies u16_at(s, p + 2 * i) == v[i] by {
        lemma_le_bytes_len(v[i] as nat, 2);
        assert forall|k: int| 0 <= k < 2 implies #[trigger] s.subrange(p + 2 * i, p + 2 * i + 2)[k] == le_bytes(v[i] as nat, 2)[k] by {
            assert(s[p + (2 * i + k)] == s.subrange(p, p + 2 * v.len())[2 * i + k]);
            assert((2 * i + k) / 2 == i && (2 * i + k) % 2 == k);
        }
        assert(s.subrange(p + 2 * i, p + 2 * i + 2) =~= le_bytes(v[i] as nat, 2));
        lemma_pow256_small();
        lemma_le_value_of_bytes(v[i] as nat, 2);
    }
    assert(u16s_at(s, p, v.len()) =~= v);
}

/// Reading back the bytes of a sequence of `u32`s gives the sequence.
pub proof fn lemma_u32s_round_trip(s: Seq<u8>, p: int, v: Seq<u32>)
    requires
        0 <= p,
        p + 4 * v.len() <= s.len(),
        s.subrange(p, p + 4 * v.len()) == u32s_bytes(v),
    ensures
        u32s_at(s, p, v.len()) == v,
{
    assert forall|i: int| 0 <= i < v.len() implies u32_at(s, p + 4 * i) == v[i] by {
        lemma_le_bytes_len(v[i] as nat, 4);
        assert forall|k: int| 0 <= k < 4 implies #[trigger] s.subrange(p + 4 * i, p + 4 * i + 4)[k] == le_bytes(v[i] as nat, 4)[k] by {
            assert(s[p + (4 * i + k)] == s.subrange(p, p + 4 * v.len())[4 * i + k]);
            assert((4 * i + k) / 4 == i && (4 * i + k) % 4 == k);
        }
        assert(s.subrange(p + 4 * i, p + 4 * i + 4) =~= le_bytes(v[i] as nat, 4));
        lemma_pow256_small();
        lemma_le_value_of_bytes(v[i] as nat, 4);
    }
    assert(u32s_at(s, p, v.len()) =~= v);
}

/// Reading back the bytes of a sequence of `u64`s gives each of them.
pub proof fn lemma_u64s_round_trip(s: Seq<u8>, p: int, v: Seq<u64>, i: int)
    requires
        0 <= p,
        0 <= i < v.len(),
        p + 8 * v.len() <= s.len(),
        s.subrange(p, p + 8 * v.len()) == u64s_bytes(v),
    ensures
        u64_at(s, p + 8 * i) == v[i],
{
    lemma_le_bytes_len(v[i] as nat, 8);
    assert forall|k: int| 0 <= k < 8 implies #[trigger] s.subrange(p + 8 * i, p + 8 * i + 8)[k] == le_bytes(v[i] as nat, 8)[k] by {
        assert(s[p + (8 * i + k)] == s.subrange(p, p + 8 * v.len())[8 * i + k]);
        assert((8 * i + k) / 8 == i && (8 * i + k) % 8 == k);
    }
    assert(s.subrange(p + 8 * i, p + 8 * i + 8) =~= le_bytes(v[i] as nat, 8));
    lemma_pow256_small();
    lemma_le_value_of_bytes(v[i] as nat, 8);
}

/// Appends the little-endian bytes of `vals`.
pub fn append_u16s(out: &mut Vec<u8>, vals: &[u16])
    ensures
        final(out)@ == old(out)@ + u16s_bytes(vals@),
{
    let ghost before = out@;
    let mut i: usize = 0;
    assert(out@ =~= before + u16s_bytes(vals@.take(0)));
    while i < vals.len()
        invariant
            i <= vals@.len(),
            out@ == before + u16s_bytes(vals@.take(i as int)),
        decreases vals@.len() - i,
    {
        let b: [u8; 2] = write_u16(vals[i]);
        append_bytes(out, &b);
        proof {
            lemma_le_bytes_len(vals@[i as int] as nat, 2);
            assert(out@ =~= before + u16s_bytes(vals@.take(i + 1)));
        }
        i += 1;
    }
    assert(vals@.take(i as int) =~= vals@);
}

/// Appends the little-endian bytes of `vals`.
pub fn append_u32s(out: &mut Vec<u8>, vals: &[u32])
    ensures
        final(out)@ == old(out)@ + u32s_bytes(vals@),
{
    let ghost before = out@;
    let mut i: usize = 0;
    assert(out@ =~= before + u32s_bytes(vals@.take(0)));
    while i < vals.len()
        invariant
            i <= vals@.len(),
            out@ == before + u32s_bytes(vals@.take(i as int)),
        decreases vals@.len() - i,
    {
        let b: [u8; 4] = write_u32(vals[i]);
        append_bytes(out, &b);
        proof {
            lemma_le_bytes_len(vals@[i as int] as nat, 4);
            assert(out@ =~= before + u32s_bytes(vals@.take(i + 1)));
        }
        i += 1;
    }
    assert(vals@.take(i as int) =~= vals@);
}

/// Appends the little-endian bytes of `vals`.
pub fn append_u64s(out: &mut Vec<u8>, vals: &[u64])
    ensures
        final(out)@ == old(out)@ + u64s_bytes(vals@),
{
    let ghost before = out@;
    let mut i: usize = 0;
    assert(out@ =~= before + u64s_bytes(vals@.take(0)));
    while i < vals.len()
        invariant
            i <= vals@.len(),
            out@ == before + u64s_bytes(vals@.take(i as int)),
        decreases vals@.len() - i,
    {
        let b: [u8; 8] = write_u64(vals[i]);
        append_bytes(out, &b);
        proof {
            lemma_le_bytes_len(vals@[i as int] as nat, 8);
            assert(out@ =~= before + u64s_bytes(vals@.take(i + 1)));
        }
        i += 1;
    }
    assert(vals@.take(i as int) =~= vals@);
}

/// Reads the `u32` at byte position `p`.
pub fn get_u32(s: &[u8], p: usize) -> (r: u32)
    requires
        p + 4 <= s@.len(),
    ensures
        r == u32_at(s@, p as int),
{
    let len: usize = s.len();
    let part: &[u8] = &s[p..p + 4];
    assert(part@.take(4) =~= s@.subrange(p as int, p + 4));
    read_u32(part)
}

/// Reads the `u64` at byte position `p`.
pub fn get_u64(s: &[u8], p: usize) -> (r: u64)
    requires
        p + 8 <= s@.len(),
    ensures
        r == u64_at(s@, p as int),
{
    let len: usize = s.len();
    let part: &[u8] = &s[p..p + 8];
    assert(part@.take(8) =~= s@.subrange(p as int, p + 8));
    read_u64(part)
}

/// Reads `count` consecutive `u16`s.
pub fn get_u16s(s: &[u8], p: usize, count: usize) -> (r: Vec<u16>)
    requires
        p + 2 * count <= s@.len(),
    ensures
        r@ == u16s_at(s@, p as int, count as nat),
{
    let len: usize = s.len();
    let mut r: Vec<u16> = Vec::new();
    let mut i: usize = 0;
    while i < count
        invariant
            i <= count,
            p + 2 * count <= s@.len(),
            len == s@.len(),
            r@ == u16s_at(s@, p as int, i as nat),
        decreases count - i,
    {
        let q: usize = p + 2 * i;
        let part: &[u8] = &s[q..q + 2];
        assert(part@.take(2) =~= s@.subrange(q as int, q + 2));
        r.push(read_u16(part));
        assert(r@ =~= u16s_at(s@, p as int, (i + 1) as nat));
        i += 1;
    }
    r
}

/// Reads `count` consecutive `u32`s.
pub fn get_u32s(s: &[u8], p: usize, count: usize) -> (r: Vec<u32>)
    requires
        p + 4 * count <= s@.len(),
    ensures
        r@ == u32s_at(s@, p as int, count as nat),
{
    let len: usize = s.len();
    let mut r: Vec<u32> = Vec::new();
    let mut i: usize = 0;
    while i < count
        invariant
            i <= count,
            p + 4 * count <= s@.len(),
            len == s@.len(),
            r@ == u32s_at(s@, p as int, i as nat),
        decreases count - i,
    {
        r.push(get_u32(s, p + 4 * i));
        assert(r@ =~= u32s_at(s@, p as int, (i + 1) as nat));
        i += 1;
    }
    r
}

/// Numbers are read with their least significant byte first.
pub proof fn law_least_byte_comes_first(s: Seq<u8>, p: int)
    requires
        0 <= p,
        p + 8 <= s.len(),
    ensures
        u16_at(s, p) == s[p] + 0x100 * s[p + 1],
        u32_at(s, p) == s[p] + 0x100 * s[p + 1] + 0x1_0000 * s[p + 2] + 0x100_0000 * s[p + 3],
        u64_at(s, p) == s[p] + 0x100 * s[p + 1] + 0x1_0000 * s[p + 2] + 0x100_0000 * s[p + 3] + 0x1_0000_0000 * s[p + 4]
            + 0x100_0000_0000 * s[p + 5] + 0x1_0000_0000_0000 * s[p + 6] + 0x100_0000_0000_0000 * s[p + 7],
{
    lemma_value_of(s, p, 8);
    lemma_value_of(s, p, 4);
    lemma_value_of(s, p, 2);
    reveal_with_fuel(value_from, 10);
}

/// The value of `n` bytes from `p` on.
spec fn value_from(s: Seq<u8>, p: int, n: nat) -> nat
    decreases n,
{
    if n == 0 {
        0
    } else {
        s[p] as nat + 256 * value_from(s, p + 1, (n - 1) as nat)
    }
}

proof fn lemma_value_of(s: Seq<u8>, p: int, n: nat)
    requires
        0 <= p,
        p + n <= s.len(),
    ensures
        le_value(s.subrange(p, p + n)) == value_from(s, p, n),
    decreases n,
{
    if n > 0 {
        lemma_value_of(s, p + 1, (n - 1) as nat);
        let t = s.subrange(p, p + n);
        assert(t.skip(1) =~= s.subrange(p + 1, p + n));
        assert(t[0] == s[p]);
    }
}

}
