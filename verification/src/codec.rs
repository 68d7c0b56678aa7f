//! The compression codec and the content hasher, taken from outside crates
//! behind trusted contracts, plus verified hex encoding of digests.

use vstd::prelude::*;

use sha1::Digest;

verus! {

/// What compressing a byte sequence yields. Compression is a pure function of
/// its input, so the result carries a name rather than a page of algorithm.
pub uninterp spec fn lz4_of(s: Seq<u8>) -> Seq<u8>;

/// What decompressing a byte sequence yields, where decompression succeeds.
pub uninterp spec fn unlz4_of(s: Seq<u8>) -> Seq<u8>;

/// Whether decompressing a byte sequence succeeds.
pub uninterp spec fn unlz4_ok(s: Seq<u8>) -> bool;

/// What the content hash of a byte sequence is: a fixed-width digest.
pub uninterp spec fn sha1_of(s: Seq<u8>) -> Seq<u8>;

/// Relies on lz4_flex::block::compress_prepend_size: a self-delimiting
/// compressed block, a pure function of the input, whose decompression by
/// lz4_flex::block::decompress_size_prepended is documented to give the
/// input back. The block's length prefix is a four-byte field holding the
/// input length, so only inputs below 2^32 bytes round-trip: larger ones are
/// kept out by the precondition.
#[verifier::external_body]
pub(crate) fn compress(data: &Vec<u8>) -> (r: Vec<u8>)
    requires
        data@.len() < 0x100000000,
    ensures
        r@ == lz4_of(data@),
        unlz4_ok(r@),
        unlz4_of(r@) == data@,
{
    lz4_flex::block::compress_prepend_size(data.as_slice())
}

/// Relies on lz4_flex::block::decompress_size_prepended: decompression of a
/// self-delimiting compressed block, a pure function of the input, failing
/// exactly on malformed input.
#[verifier::external_body]
pub(crate) fn decompress(data: &Vec<u8>) -> (r: Option<Vec<u8>>)
    ensures
        r is Some <==> unlz4_ok(data@),
        r matches Some(d) ==> d@ == unlz4_of(data@),
{
    lz4_flex::block::decompress_size_prepended(data.as_slice()).ok()
}

/// Relies on sha1::Sha1::digest (through the digest crate's Digest trait):
/// the 20-byte SHA-1 digest of the input, a pure function of the input.
#[verifier::external_body]
pub(crate) fn sha1_digest(data: &Vec<u8>) -> (r: Vec<u8>)
    ensures
        r@ == sha1_of(data@),
        r@.len() == 20,
{
    sha1::Sha1::digest(data.as_slice()).to_vec()
}

/// The lower-case hex digit for a value below sixteen.
pub open spec fn spec_hex_digit(v: u8) -> u8
    recommends
        v < 16,
{
    if v < 10 {
        (0x30 + v) as u8
    } else {
        (0x57 + v) as u8
    }
}

/// The lower-case hex encoding of a byte sequence: two digits per byte, most
/// significant first.
pub open spec fn hex_of(s: Seq<u8>) -> Seq<u8>
    decreases s.len(),
{
    if s.len() == 0 {
        Seq::<u8>::empty()
    } else {
        hex_of(s.drop_last()) + seq![
            spec_hex_digit(s.last() / 16),
            spec_hex_digit(s.last() % 16),
        ]
    }
}

/// Hex-encodes a byte vector, lower case.
pub fn to_hex(data: &Vec<u8>) -> (r: Vec<u8>)
    ensures
        r@ == hex_of(data@),
{
    let mut r: Vec<u8> = Vec::new();
    let n = data.len();
    let mut i: usize = 0;
    while i < n
        invariant
            i <= n,
            n == data@.len(),
            r@ == hex_of(data@.subrange(0, i as int)),
        decreases n - i,
    {
        let b = data[i];
        let hi = b / 16;
        let lo = b % 16;
        r.push(if hi < 10 {
            0x30 + hi
        } else {
            0x57 + hi
        });
        r.push(if lo < 10 {
            0x30 + lo
        } else {
            0x57 + lo
        });
        i = i + 1;
        proof {
            let pre = data@.subrange(0, i as int);
            assert(pre.drop_last() =~= data@.subrange(0, i - 1));
            assert(pre.last() == data@[i - 1]);
            assert(r@ =~= hex_of(pre.drop_last()) + seq![
                spec_hex_digit(pre.last() / 16),
                spec_hex_digit(pre.last() % 16),
            ]);
        }
    }
    proof {
        assert(data@.subrange(0, n as int) =~= data@);
    }
    r
}

} // verus!
