//! The 4-byte little-endian length prefix in front of every record body.
use vstd::prelude::*;

verus! {

/// The little-endian bytes of `n`.
pub open spec fn le32_bytes(n: u32) -> Seq<u8> {
    seq![(n & 0xff) as u8, ((n >> 8) & 0xff) as u8, ((n >> 16) & 0xff) as u8, (n >> 24) as u8]
}

/// A body with its length prefix.
pub open spec fn framed(body: Seq<u8>) -> Seq<u8> {
    le32_bytes(body.len() as u32) + body
}

proof fn lemma_le32_injective(a: u32, b: u32)
    requires
        le32_bytes(a) == le32_bytes(b),
    ensures
        a == b,
{
    assert(le32_bytes(a)[0] == le32_bytes(b)[0]);
    assert(le32_bytes(a)[1] == le32_bytes(b)[1]);
    assert(le32_bytes(a)[2] == le32_bytes(b)[2]);
    assert(le32_bytes(a)[3] == le32_bytes(b)[3]);
    assert(((a & 0xff) as u8 == (b & 0xff) as u8 && ((a >> 8) & 0xff) as u8 == ((b >> 8) & 0xff) as u8
        && ((a >> 16) & 0xff) as u8 == ((b >> 16) & 0xff) as u8 && (a >> 24) as u8 == (b >> 24) as u8)
        ==> a == b) by (bit_vector);
}

/// Prefixes `body` with its length.
pub fn frame(body: &Vec<u8>) -> (r: Vec<u8>)
    requires
        body@.len() <= u32::MAX,
    ensures
        r@ == framed(body@),
{
    let n = body.len() as u32;
    let mut r: Vec<u8> = Vec::new();
    r.push((n & 0xff) as u8);
    r.push(((n >> 8) & 0xff) as u8);
    r.push(((n >> 16) & 0xff) as u8);
    r.push((n >> 24) as u8);
    r.extend_from_slice(body.as_slice());
    assert(r@ =~= framed(body@));
    r
}

/// The length that the 4 bytes at `at` hold.
pub fn read_len_prefix(data: &[u8], at: usize) -> (r: u32)
    requires
        at + 4 <= data@.len(),
    ensures
        le32_bytes(r) == data@.subrange(at as int, at + 4),
        forall|n: u32| le32_bytes(n) == data@.subrange(at as int, at + 4) ==> r == n,
{
    let b0 = data[at];
    let b1 = data[at + 1];
    let b2 = data[at + 2];
    let b3 = data[at + 3];
    let r = (b0 as u32) | ((b1 as u32) << 8) | ((b2 as u32) << 16) | ((b3 as u32) << 24);
    assert(((r & 0xff) as u8 == b0 && ((r >> 8) & 0xff) as u8 == b1 && ((r >> 16) & 0xff) as u8 == b2
        && (r >> 24) as u8 == b3)) by (bit_vector)
        requires
            r == (b0 as u32) | ((b1 as u32) << 8) | ((b2 as u32) << 16) | ((b3 as u32) << 24),
    ;
    assert(le32_bytes(r) =~= data@.subrange(at as int, at + 4));
    proof {
        assert forall|n: u32| le32_bytes(n) == data@.subrange(at as int, at + 4) implies r == n by {
            lemma_le32_injective(r, n);
        }
    }
    r
}

} // verus!
