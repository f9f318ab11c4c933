//! Little-endian integers.

use vstd::prelude::*;

verus! {

/// The four bytes of `x`, least significant first.
#[verifier::opaque]
pub open spec fn le32(x: u32) -> Seq<u8> {
    seq![
        (x % 256) as u8,
        ((x / 0x100) % 256) as u8,
        ((x / 0x1_0000) % 256) as u8,
        ((x / 0x100_0000) % 256) as u8,
    ]
}

/// The number whose four bytes, least significant first, open `b`.
#[verifier::opaque]
pub open spec fn de32(b: Seq<u8>) -> u32
    recommends
        b.len() >= 4,
{
    (b[0] + 0x100 * b[1] + 0x1_0000 * b[2] + 0x100_0000 * b[3]) as u32
}

/// The eight bytes of `x`, least significant first.
#[verifier::opaque]
pub open spec fn le64(x: u64) -> Seq<u8> {
    le32((x % 0x1_0000_0000) as u32) + le32((x / 0x1_0000_0000) as u32)
}

/// The number whose eight bytes, least significant first, open `b`.
#[verifier::opaque]
pub open spec fn de64(b: Seq<u8>) -> u64
    recommends
        b.len() >= 8,
{
    (de32(b.subrange(0, 4)) + 0x1_0000_0000 * de32(b.subrange(4, 8))) as u64
}

/// Decoding undoes encoding, for 32 bits.
pub proof fn lemma_de32_le32(x: u32)
    ensures
        le32(x).len() == 4,
        de32(le32(x)) == x,
{
    reveal(le32);
    reveal(de32);
}

/// Encoding undoes decoding, for 32 bits.
pub proof fn lemma_le32_de32(b: Seq<u8>)
    requires
        b.len() == 4,
    ensures
        le32(de32(b)) == b,
{
    reveal(le32);
    reveal(de32);
    let q2: int = b[2] + 0x100 * b[3];
    let q1: int = b[1] + 0x100 * q2;
    let v: int = b[0] + 0x100 * q1;
    assert(v == de32(b));
    assert(v / 0x100 == q1 && v % 0x100 == b[0]);
    assert(q1 / 0x100 == q2 && q1 % 0x100 == b[1]);
    assert(q2 / 0x100 == b[3] && q2 % 0x100 == b[2]);
    assert(v / 0x1_0000 == q2);
    assert(v / 0x100_0000 == b[3]);
    assert(le32(de32(b)) =~= b);
}

/// Decoding undoes encoding, for 64 bits.
pub proof fn lemma_de64_le64(x: u64)
    ensures
        le64(x).len() == 8,
        de64(le64(x)) == x,
{
    reveal(le64);
    reveal(de64);
    let lo = (x % 0x1_0000_0000) as u32;
    let hi = (x / 0x1_0000_0000) as u32;
    lemma_de32_le32(lo);
    lemma_de32_le32(hi);
    assert(le64(x).subrange(0, 4) =~= le32(lo));
    assert(le64(x).subrange(4, 8) =~= le32(hi));
}

/// Encoding undoes decoding, for 64 bits.
pub proof fn lemma_le64_de64(b: Seq<u8>)
    requires
        b.len() == 8,
    ensures
        le64(de64(b)) == b,
{
    reveal(le64);
    reveal(de64);
    let lo = de32(b.subrange(0, 4));
    let hi = de32(b.subrange(4, 8));
    lemma_le32_de32(b.subrange(0, 4));
    lemma_le32_de32(b.subrange(4, 8));
    assert(de64(b) % 0x1_0000_0000 == lo);
    assert(de64(b) / 0x1_0000_0000 == hi);
    assert(le64(de64(b)) =~= b);
}

/// Appends the four bytes of `x` to `out`.
pub fn push_u32(out: &mut Vec<u8>, x: u32)
    ensures
        final(out)@ == old(out)@ + le32(x),
{
    out.push((x % 256) as u8);
    out.push(((x / 0x100) % 256) as u8);
    out.push(((x / 0x1_0000) % 256) as u8);
    out.push(((x / 0x100_0000) % 256) as u8);
    proof {
        reveal(le32);
    }
    assert(out@ =~= old(out)@ + le32(x));
}

/// Appends the eight bytes of `x` to `out`.
pub fn push_u64(out: &mut Vec<u8>, x: u64)
    ensures
        final(out)@ == old(out)@ + le64(x),
{
    push_u32(out, (x % 0x1_0000_0000) as u32);
    push_u32(out, (x / 0x1_0000_0000) as u32);
    proof {
        reveal(le64);
    }
    assert(out@ =~= old(out)@ + le64(x));
}

/// Reads the 32-bit number that starts at `at`.
pub fn read_u32(bytes: &[u8], at: usize) -> (x: u32)
    requires
        at + 4 <= bytes.len(),
    ensures
        x == de32(bytes@.subrange(at as int, at + 4)),
{
    let b0: u32 = bytes[at] as u32;
    let b1: u32 = bytes[at + 1] as u32;
    let b2: u32 = bytes[at + 2] as u32;
    let b3: u32 = bytes[at + 3] as u32;
    proof {
        reveal(de32);
    }
    b0 + 0x100 * b1 + 0x1_0000 * b2 + 0x100_0000 * b3
}

/// Reads the 64-bit number that starts at `at`.
pub fn read_u64(bytes: &[u8], at: usize) -> (x: u64)
    requires
        at + 8 <= bytes.len(),
    ensures
        x == de64(bytes@.subrange(at as int, at + 8)),
{
    let lo: u64 = read_u32(bytes, at) as u64;
    let hi: u64 = read_u32(bytes, at + 4) as u64;
    proof {
        reveal(de64);
        let b = bytes@.subrange(at as int, at + 8);
        assert(b.subrange(0, 4) =~= bytes@.subrange(at as int, at + 4));
        assert(b.subrange(4, 8) =~= bytes@.subrange(at + 4, at + 8));
    }
    lo + 0x1_0000_0000 * hi
}

} // verus!
