//! Fiat-Shamir transcripts: the bytes that a challenge hash absorbs.

use crate::bignum::nat_of_be;
use vstd::prelude::*;

verus! {

/// The 4-byte big-endian encoding of `x`.
pub open spec fn u32_be(x: u32) -> Seq<u8> {
    seq![
        (x / 0x100_0000) as u8,
        ((x / 0x1_0000) % 256) as u8,
        ((x / 0x100) % 256) as u8,
        (x % 256) as u8,
    ]
}

/// The 8-byte big-endian encoding of `x`.
pub open spec fn u64_be(x: u64) -> Seq<u8> {
    seq![
        (x / 0x100_0000_0000_0000) as u8,
        ((x / 0x1_0000_0000_0000) % 256) as u8,
        ((x / 0x100_0000_0000) % 256) as u8,
        ((x / 0x1_0000_0000) % 256) as u8,
        ((x / 0x100_0000) % 256) as u8,
        ((x / 0x1_0000) % 256) as u8,
        ((x / 0x100) % 256) as u8,
        (x % 256) as u8,
    ]
}

/// Appending a byte to a big-endian string shifts its value by a byte.
pub proof fn lemma_nat_of_be_push(s: Seq<u8>, b: u8)
    ensures
        nat_of_be(s.push(b)) == nat_of_be(s) * 256 + b,
{
    assert(s.push(b).drop_last() =~= s);
}

/// Peeling the next byte off `x / d`: it is `x / (256 d)` shifted by a
/// byte, plus its last byte.
proof fn lemma_split_byte(x: nat, d: nat)
    requires
        d > 0,
    ensures
        x / d == (x / (d * 256)) * 256 + (x / d) % 256,
        (x / d) % 256 < 256,
{
    vstd::arithmetic::div_mod::lemma_fundamental_div_mod((x / d) as int, 256);
    vstd::arithmetic::div_mod::lemma_div_denominator(x as int, d as int, 256);
}

/// `u32_be(x)` is the big-endian encoding of `x`: four bytes that read back
/// as `x`.
pub proof fn lemma_u32_be(x: u32)
    ensures
        u32_be(x).len() == 4,
        nat_of_be(u32_be(x)) == x,
{
    let n = x as nat;
    lemma_split_byte(n, 1);
    lemma_split_byte(n, 0x100);
    lemma_split_byte(n, 0x1_0000);
    assert(n / 0x100_0000 < 256) by {
        vstd::arithmetic::div_mod::lemma_div_is_ordered(n as int, 0xffff_ffff, 0x100_0000);
    }
    let b0 = (x / 0x100_0000) as u8;
    let b1 = ((x / 0x1_0000) % 256) as u8;
    let b2 = ((x / 0x100) % 256) as u8;
    let b3 = (x % 256) as u8;
    assert(b0 == n / 0x100_0000);
    assert(b1 == (n / 0x1_0000) % 256);
    assert(b2 == (n / 0x100) % 256);
    assert(b3 == n % 256);
    let s0 = Seq::<u8>::empty();
    assert(u32_be(x) =~= s0.push(b0).push(b1).push(b2).push(b3));
    lemma_nat_of_be_push(s0, b0);
    lemma_nat_of_be_push(s0.push(b0), b1);
    lemma_nat_of_be_push(s0.push(b0).push(b1), b2);
    lemma_nat_of_be_push(s0.push(b0).push(b1).push(b2), b3);
    assert(nat_of_be(s0) == 0);
}

/// `u64_be(x)` is the big-endian encoding of `x`: eight bytes that read
/// back as `x`.
pub proof fn lemma_u64_be(x: u64)
    ensures
        u64_be(x).len() == 8,
        nat_of_be(u64_be(x)) == x,
{
    let n = x as nat;
    lemma_split_byte(n, 1);
    lemma_split_byte(n, 0x100);
    lemma_split_byte(n, 0x1_0000);
    lemma_split_byte(n, 0x100_0000);
    lemma_split_byte(n, 0x1_0000_0000);
    lemma_split_byte(n, 0x100_0000_0000);
    lemma_split_byte(n, 0x1_0000_0000_0000);
    assert(n / 0x100_0000_0000_0000 < 256) by {
        vstd::arithmetic::div_mod::lemma_div_is_ordered(
            n as int,
            0xffff_ffff_ffff_ffff,
            0x100_0000_0000_0000,
        );
    }
    let b0 = (x / 0x100_0000_0000_0000) as u8;
    let b1 = ((x / 0x1_0000_0000_0000) % 256) as u8;
    let b2 = ((x / 0x100_0000_0000) % 256) as u8;
    let b3 = ((x / 0x1_0000_0000) % 256) as u8;
    let b4 = ((x / 0x100_0000) % 256) as u8;
    let b5 = ((x / 0x1_0000) % 256) as u8;
    let b6 = ((x / 0x100) % 256) as u8;
    let b7 = (x % 256) as u8;
    assert(b0 == n / 0x100_0000_0000_0000);
    assert(b1 == (n / 0x1_0000_0000_0000) % 256);
    assert(b2 == (n / 0x100_0000_0000) % 256);
    assert(b3 == (n / 0x1_0000_0000) % 256);
    assert(b4 == (n / 0x100_0000) % 256);
    assert(b5 == (n / 0x1_0000) % 256);
    assert(b6 == (n / 0x100) % 256);
    assert(b7 == n % 256);
    let s0 = Seq::<u8>::empty();
    let s1 = s0.push(b0);
    let s2 = s1.push(b1);
    let s3 = s2.push(b2);
    let s4 = s3.push(b3);
    let s5 = s4.push(b4);
    let s6 = s5.push(b5);
    let s7 = s6.push(b6);
    let s8 = s7.push(b7);
    assert(u64_be(x) =~= s8);
    lemma_nat_of_be_push(s0, b0);
    lemma_nat_of_be_push(s1, b1);
    lemma_nat_of_be_push(s2, b2);
    lemma_nat_of_be_push(s3, b3);
    lemma_nat_of_be_push(s4, b4);
    lemma_nat_of_be_push(s5, b5);
    lemma_nat_of_be_push(s6, b6);
    lemma_nat_of_be_push(s7, b7);
    assert(nat_of_be(s0) == 0);
}

/// One tagged, length-prefixed piece of a transcript: the tag byte, the
/// piece's length as a 4-byte big-endian number (taken modulo 2^32), then
/// the piece itself.
pub open spec fn fs_piece_bytes(tag: u8, bytes: Seq<u8>) -> Seq<u8> {
    seq![tag] + u32_be(bytes.len() as u32) + bytes
}

/// A transcript piece can be read off the front of a transcript: two
/// transcripts that start with pieces of the same tag (each shorter than
/// 2^32 bytes) and are equal hold the same piece and the same rest.
pub proof fn lemma_fs_piece_unique(
    tag: u8,
    a: Seq<u8>,
    b: Seq<u8>,
    rest_a: Seq<u8>,
    rest_b: Seq<u8>,
)
    requires
        a.len() < 0x1_0000_0000,
        b.len() < 0x1_0000_0000,
        fs_piece_bytes(tag, a) + rest_a == fs_piece_bytes(tag, b) + rest_b,
    ensures
        a == b,
        rest_a == rest_b,
{
    let x = fs_piece_bytes(tag, a) + rest_a;
    let y = fs_piece_bytes(tag, b) + rest_b;
    lemma_u32_be(a.len() as u32);
    lemma_u32_be(b.len() as u32);
    assert(x.subrange(1, 5) =~= u32_be(a.len() as u32));
    assert(y.subrange(1, 5) =~= u32_be(b.len() as u32));
    assert(a.len() == b.len());
    let n = a.len() as int;
    assert(x.subrange(5, 5 + n) =~= a);
    assert(y.subrange(5, 5 + n) =~= b);
    assert(x.subrange(5 + n, x.len() as int) =~= rest_a);
    assert(y.subrange(5 + n, y.len() as int) =~= rest_b);
}

/// Appends the big-endian encoding of `x`.
pub fn push_u32_be(out: &mut Vec<u8>, x: u32)
    ensures
        final(out)@ == old(out)@ + u32_be(x),
{
    out.push((x / 0x100_0000) as u8);
    out.push(((x / 0x1_0000) % 256) as u8);
    out.push(((x / 0x100) % 256) as u8);
    out.push((x % 256) as u8);
    assert(out@ =~= old(out)@ + u32_be(x));
}

/// Appends the big-endian encoding of `x`.
pub fn push_u64_be(out: &mut Vec<u8>, x: u64)
    ensures
        final(out)@ == old(out)@ + u64_be(x),
{
    out.push((x / 0x100_0000_0000_0000) as u8);
    out.push(((x / 0x1_0000_0000_0000) % 256) as u8);
    out.push(((x / 0x100_0000_0000) % 256) as u8);
    out.push(((x / 0x1_0000_0000) % 256) as u8);
    out.push(((x / 0x100_0000) % 256) as u8);
    out.push(((x / 0x1_0000) % 256) as u8);
    out.push(((x / 0x100) % 256) as u8);
    out.push((x % 256) as u8);
    assert(out@ =~= old(out)@ + u64_be(x));
}

/// Appends `bytes` to the transcript.
pub fn push_bytes(out: &mut Vec<u8>, bytes: &[u8])
    ensures
        final(out)@ == old(out)@ + bytes@,
{
    let ghost start = out@;
    let n = bytes.len();
    let mut i: usize = 0;
    while i < n
        invariant
            n == bytes@.len(),
            i <= n,
            out@ == start + bytes@.take(i as int),
        decreases n - i,
    {
        out.push(bytes[i]);
        i = i + 1;
        assert(out@ =~= start + bytes@.take(i as int));
    }
    assert(bytes@.take(n as int) =~= bytes@);
}

/// Appends one tagged, length-prefixed piece to the transcript.
pub fn fs_piece(transcript: &mut Vec<u8>, tag: u8, bytes: &[u8])
    ensures
        final(transcript)@ == old(transcript)@ + fs_piece_bytes(tag, bytes@),
{
    transcript.push(tag);
    push_u32_be(transcript, bytes.len() as u32);
    push_bytes(transcript, bytes);
    assert(transcript@ =~= old(transcript)@ + fs_piece_bytes(tag, bytes@));
}

} // verus!
