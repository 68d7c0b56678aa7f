//! Big-endian encoding and decoding of the fixed-width integers used by the
//! pack formats, with round-trip proofs.

use vstd::prelude::*;

verus! {

/// The two big-endian bytes of a 16-bit value, most significant first.
pub open spec fn spec_be16(x: u16) -> Seq<u8> {
    seq![(x / 0x100) as u8, (x % 0x100) as u8]
}

/// The value read back from two big-endian bytes.
pub open spec fn be16_val(s: Seq<u8>) -> int
    recommends
        s.len() == 2,
{
    s[0] * 0x100 + s[1]
}

/// The four big-endian bytes of a 32-bit value.
pub open spec fn spec_be32(x: u32) -> Seq<u8> {
    seq![
        ((x / 0x1000000) % 0x100) as u8,
        ((x / 0x10000) % 0x100) as u8,
        ((x / 0x100) % 0x100) as u8,
        (x % 0x100) as u8,
    ]
}

/// The value read back from four big-endian bytes.
pub open spec fn be32_val(s: Seq<u8>) -> int
    recommends
        s.len() == 4,
{
    s[0] * 0x1000000 + s[1] * 0x10000 + s[2] * 0x100 + s[3]
}

/// The eight big-endian bytes of a 64-bit value.
pub open spec fn spec_be64(x: u64) -> Seq<u8> {
    seq![
        ((x / 0x100000000000000) % 0x100) as u8,
        ((x / 0x1000000000000) % 0x100) as u8,
        ((x / 0x10000000000) % 0x100) as u8,
        ((x / 0x100000000) % 0x100) as u8,
        ((x / 0x1000000) % 0x100) as u8,
        ((x / 0x10000) % 0x100) as u8,
        ((x / 0x100) % 0x100) as u8,
        (x % 0x100) as u8,
    ]
}

/// The value read back from eight big-endian bytes.
pub open spec fn be64_val(s: Seq<u8>) -> int
    recommends
        s.len() == 8,
{
    s[0] * 0x100000000000000 + s[1] * 0x1000000000000 + s[2] * 0x10000000000
        + s[3] * 0x100000000 + s[4] * 0x1000000 + s[5] * 0x10000 + s[6] * 0x100 + s[7]
}

/// Decoding the two bytes of an encoded 16-bit value gives the value back.
pub proof fn lemma_be16_roundtrip(x: u16)
    ensures
        be16_val(spec_be16(x)) == x,
{
    assert((x / 0x100) * 0x100 + (x % 0x100) == x) by (bit_vector);
}

/// Decoding the four bytes of an encoded 32-bit value gives the value back.
pub proof fn lemma_be32_roundtrip(x: u32)
    ensures
        be32_val(spec_be32(x)) == x,
{
    assert(((x / 0x1000000) % 0x100) * 0x1000000 + ((x / 0x10000) % 0x100) * 0x10000
        + ((x / 0x100) % 0x100) * 0x100 + (x % 0x100) == x) by (bit_vector);
}

/// Decoding the eight bytes of an encoded 64-bit value gives the value back.
pub proof fn lemma_be64_roundtrip(x: u64)
    ensures
        be64_val(spec_be64(x)) == x,
{
    assert(((x / 0x100000000000000) % 0x100) * 0x100000000000000
        + ((x / 0x1000000000000) % 0x100) * 0x1000000000000
        + ((x / 0x10000000000) % 0x100) * 0x10000000000
        + ((x / 0x100000000) % 0x100) * 0x100000000
        + ((x / 0x1000000) % 0x100) * 0x1000000
        + ((x / 0x10000) % 0x100) * 0x10000
        + ((x / 0x100) % 0x100) * 0x100
        + (x % 0x100) == x) by (bit_vector);
}

/// Appends the big-endian encoding of a 16-bit value.
pub fn push_be16(buf: &mut Vec<u8>, x: u16)
    ensures
        final(buf)@ == old(buf)@ + spec_be16(x),
{
    buf.push((x / 0x100) as u8);
    buf.push((x % 0x100) as u8);
    assert(buf@ =~= old(buf)@ + spec_be16(x));
}

/// Appends the big-endian encoding of a 32-bit value.
pub fn push_be32(buf: &mut Vec<u8>, x: u32)
    ensures
        final(buf)@ == old(buf)@ + spec_be32(x),
{
    buf.push(((x / 0x1000000) % 0x100) as u8);
    buf.push(((x / 0x10000) % 0x100) as u8);
    buf.push(((x / 0x100) % 0x100) as u8);
    buf.push((x % 0x100) as u8);
    assert(buf@ =~= old(buf)@ + spec_be32(x));
}

/// Appends the big-endian encoding of a 64-bit value.
pub fn push_be64(buf: &mut Vec<u8>, x: u64)
    ensures
        final(buf)@ == old(buf)@ + spec_be64(x),
{
    buf.push(((x / 0x100000000000000) % 0x100) as u8);
    buf.push(((x / 0x1000000000000) % 0x100) as u8);
    buf.push(((x / 0x10000000000) % 0x100) as u8);
    buf.push(((x / 0x100000000) % 0x100) as u8);
    buf.push(((x / 0x1000000) % 0x100) as u8);
    buf.push(((x / 0x10000) % 0x100) as u8);
    buf.push(((x / 0x100) % 0x100) as u8);
    buf.push((x % 0x100) as u8);
    assert(buf@ =~= old(buf)@ + spec_be64(x));
}

/// Reads a big-endian 16-bit value at `pos`.
pub fn read_be16(buf: &Vec<u8>, pos: usize) -> (r: u16)
    requires
        pos + 2 <= buf@.len(),
    ensures
        r == be16_val(buf@.subrange(pos as int, pos + 2)),
{
    let n = buf.len();
    assert(pos + 2 <= n);
    let r = (buf[pos] as u16) * 0x100 + (buf[pos + 1] as u16);
    proof {
        let s = buf@.subrange(pos as int, pos + 2);
        assert(s[0] == buf@[pos as int] && s[1] == buf@[pos + 1]);
    }
    r
}

/// Reads a big-endian 32-bit value at `pos`.
pub fn read_be32(buf: &Vec<u8>, pos: usize) -> (r: u32)
    requires
        pos + 4 <= buf@.len(),
    ensures
        r == be32_val(buf@.subrange(pos as int, pos + 4)),
{
    let n = buf.len();
    assert(pos + 4 <= n);
    let r = (buf[pos] as u32) * 0x1000000 + (buf[pos + 1] as u32) * 0x10000
        + (buf[pos + 2] as u32) * 0x100 + (buf[pos + 3] as u32);
    proof {
        let s = buf@.subrange(pos as int, pos + 4);
        assert(s[0] == buf@[pos as int] && s[1] == buf@[pos + 1] && s[2] == buf@[pos + 2]
            && s[3] == buf@[pos + 3]);
    }
    r
}

/// Reads a big-endian 64-bit value at `pos`.
pub fn read_be64(buf: &Vec<u8>, pos: usize) -> (r: u64)
    requires
        pos + 8 <= buf@.len(),
    ensures
        r == be64_val(buf@.subrange(pos as int, pos + 8)),
{
    let n = buf.len();
    assert(pos + 8 <= n);
    let r = (buf[pos] as u64) * 0x100000000000000 + (buf[pos + 1] as u64) * 0x1000000000000
        + (buf[pos + 2] as u64) * 0x10000000000 + (buf[pos + 3] as u64) * 0x100000000
        + (buf[pos + 4] as u64) * 0x1000000 + (buf[pos + 5] as u64) * 0x10000
        + (buf[pos + 6] as u64) * 0x100 + (buf[pos + 7] as u64);
    proof {
        let s = buf@.subrange(pos as int, pos + 8);
        assert(s[0] == buf@[pos as int] && s[1] == buf@[pos + 1] && s[2] == buf@[pos + 2]
            && s[3] == buf@[pos + 3] && s[4] == buf@[pos + 4] && s[5] == buf@[pos + 5]
            && s[6] == buf@[pos + 6] && s[7] == buf@[pos + 7]);
    }
    r
}

/// Appends all bytes of `src` to `dst`.
pub fn append_bytes(dst: &mut Vec<u8>, src: &Vec<u8>)
    ensures
        final(dst)@ == old(dst)@ + src@,
{
    dst.extend_from_slice(src.as_slice());
}

/// Copies `buf[start..end]` into a fresh vector.
pub fn copy_range(buf: &Vec<u8>, start: usize, end: usize) -> (r: Vec<u8>)
    requires
        start <= end <= buf@.len(),
    ensures
        r@ == buf@.subrange(start as int, end as int),
{
    let mut r: Vec<u8> = Vec::new();
    let mut i: usize = start;
    while i < end
        invariant
            start <= i <= end <= buf@.len(),
            r@ == buf@.subrange(start as int, i as int),
        decreases end - i,
    {
        r.push(buf[i]);
        i = i + 1;
        assert(r@ =~= buf@.subrange(start as int, i as int));
    }
    r
}

/// A fresh vector holding the same bytes.
pub fn clone_bytes(v: &Vec<u8>) -> (r: Vec<u8>)
    ensures
        r@ == v@,
{
    let n = v.len();
    let r = copy_range(v, 0, n);
    assert(v@.subrange(0, n as int) =~= v@);
    r
}

/// True when the two byte vectors hold the same bytes.
pub fn bytes_eq(a: &Vec<u8>, b: &Vec<u8>) -> (r: bool)
    ensures
        r == (a@ == b@),
{
    if a.len() != b.len() {
        assert(a@.len() != b@.len());
        return false;
    }
    let n = a.len();
    let mut i: usize = 0;
    while i < n
        invariant
            i <= n,
            n == a@.len() && n == b@.len(),
            forall|j: int| 0 <= j < i ==> a@[j] == b@[j],
        decreases n - i,
    {
        if a[i] != b[i] {
            return false;
        }
        i = i + 1;
    }
    assert(a@ =~= b@);
    true
}

} // verus!
