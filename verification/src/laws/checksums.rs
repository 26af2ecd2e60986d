//! What CRC-32 does to sums and to itself.

use vstd::prelude::*;
use crate::builder::{crc_bit, crc_bits, crc_of, crc_register};
use crate::bytes::le_bytes;

verus! {

// ---------------------------------------------------------------------------
// Sums
// ---------------------------------------------------------------------------

/// One step of the register is linear.
proof fn lemma_bit_linear(x: u32, y: u32, z: u32)
    by (bit_vector)
    ensures
        crc_bit(x ^ y ^ z) == crc_bit(x) ^ crc_bit(y) ^ crc_bit(z),
{
}

proof fn lemma_bits_linear(x: u32, y: u32, z: u32, n: nat)
    ensures
        crc_bits(x ^ y ^ z, n) == crc_bits(x, n) ^ crc_bits(y, n) ^ crc_bits(z, n),
    decreases n,
{
    if n > 0 {
        lemma_bit_linear(x, y, z);
        lemma_bits_linear(crc_bit(x), crc_bit(y), crc_bit(z), (n - 1) as nat);
    }
}

/// Sums of three can be taken before or after.
proof fn lemma_regroup(a: u32, b: u32, c: u32, x: u8, y: u8, z: u8)
    by (bit_vector)
    ensures
        (a ^ b ^ c) ^ ((x ^ y ^ z) as u32) == (a ^ (x as u32)) ^ (b ^ (y as u32)) ^ (c ^ (z as u32)),
{
}

proof fn lemma_ones()
    by (bit_vector)
    ensures
        0xffff_ffffu32 == 0xffff_ffffu32 ^ 0xffff_ffffu32 ^ 0xffff_ffffu32,
{
}

proof fn lemma_complement(a: u32, b: u32, c: u32)
    by (bit_vector)
    ensures
        (0xffff_ffffu32 - (a ^ b ^ c)) as u32 == ((0xffff_ffffu32 - a) as u32) ^ ((0xffff_ffffu32
            - b) as u32) ^ ((0xffff_ffffu32 - c) as u32),
{
}

/// The byte-wise sum of three slices of one length.
pub open spec fn sum_of(a: Seq<u8>, b: Seq<u8>, c: Seq<u8>) -> Seq<u8> {
    Seq::new(a.len(), |i: int| a[i] ^ b[i] ^ c[i])
}

proof fn lemma_register_sum(a: Seq<u8>, b: Seq<u8>, c: Seq<u8>)
    requires
        a.len() == b.len() == c.len(),
    ensures
        crc_register(sum_of(a, b, c)) == crc_register(a) ^ crc_register(b) ^ crc_register(c),
    decreases a.len(),
{
    let d = sum_of(a, b, c);
    if a.len() == 0 {
        lemma_ones();
    } else {
        lemma_register_sum(a.drop_last(), b.drop_last(), c.drop_last());
        assert(d.drop_last() =~= sum_of(a.drop_last(), b.drop_last(), c.drop_last()));
        let (x, y, z) = (
            crc_register(a.drop_last()),
            crc_register(b.drop_last()),
            crc_register(c.drop_last()),
        );
        lemma_regroup(x, y, z, a.last(), b.last(), c.last());
        lemma_bits_linear(
            x ^ (a.last() as u32),
            y ^ (b.last() as u32),
            z ^ (c.last() as u32),
            8,
        );
    }
}

/// The checksum of the sum of three equally long slices is the sum of their
/// checksums.
pub proof fn law_checksum_of_sum(a: Seq<u8>, b: Seq<u8>, c: Seq<u8>)
    requires
        a.len() == b.len() == c.len(),
    ensures
        crc_of(sum_of(a, b, c)) == crc_of(a) ^ crc_of(b) ^ crc_of(c),
{
    lemma_register_sum(a, b, c);
    lemma_complement(crc_register(a), crc_register(b), crc_register(c));
}

// ---------------------------------------------------------------------------
// The residue
// ---------------------------------------------------------------------------

/// An even addend only moves down.
proof fn lemma_bit_shift(x: u32, z: u32)
    by (bit_vector)
    requires
        z % 2 == 0,
    ensures
        crc_bit(x ^ z) == crc_bit(x) ^ (z / 2),
{
}

/// Eight steps bring the second byte of an addend to the bottom.
proof fn lemma_byte_shift(x: u32, z: u32, n: nat, y: u32, p: u32)
    requires
        p == step(n),
        z == y * p,
    ensures
        crc_bits(x ^ z, n) == crc_bits(x, n) ^ y,
    decreases n,
{
    if n > 0 {
        let q = step((n - 1) as nat);
        assert(p == 2 * q);
        assert(y * p == 2 * (y * q)) by (nonlinear_arith)
            requires
                p == 2 * q,
        ;
        lemma_bit_shift(x, z);
        lemma_byte_shift(crc_bit(x), z / 2, (n - 1) as nat, y, q as u32);
    } else {
        assert(y * p == y) by (nonlinear_arith)
            requires
                p == 1,
        ;
    }
}

/// `2^n`.
spec fn step(n: nat) -> nat
    decreases n,
{
    if n == 0 {
        1
    } else {
        2 * step((n - 1) as nat)
    }
}

proof fn lemma_low_byte(r: u32, x: u32)
    by (bit_vector)
    ensures
        r ^ x == (r ^ (x % 256)) ^ ((x / 256) * 256) as u32,
        (x / 256) * 256 <= 0xffff_ffffu32,
        r ^ 0 == r,
{
}

/// Taking in the lowest byte of `x` leaves the others for the steps to come.
proof fn lemma_take_byte(r: u32, x: u32)
    ensures
        crc_bits(r ^ x, 8) == crc_bits(r ^ (x % 256), 8) ^ (x / 256),
{
    reveal_with_fuel(step, 9);
    lemma_low_byte(r, x);
    lemma_byte_shift(r ^ (x % 256), ((x / 256) * 256) as u32, 8, x / 256, 256);
}

proof fn lemma_more_bits(c: u32, a: nat, b: nat)
    ensures
        crc_bits(c, a + b) == crc_bits(crc_bits(c, a), b),
    decreases a,
{
    if a > 0 {
        lemma_more_bits(crc_bit(c), (a - 1) as nat, b);
        assert((a + b - 1) as nat == (a - 1) as nat + b);
    }
}

/// Four bytes of a number, lowest first, are taken in like the number itself.
proof fn lemma_take_word(s: Seq<u8>, x: u32)
    ensures
        crc_register(s + le_bytes(x as nat, 4)) == crc_bits(crc_register(s) ^ x, 32),
{
    let r0 = crc_register(s);
    let x1 = x / 256;
    let x2 = x1 / 256;
    let x3 = x2 / 256;
    let (b0, b1, b2, b3) = ((x % 256) as u8, (x1 % 256) as u8, (x2 % 256) as u8, x3 as u8);
    reveal_with_fuel(le_bytes, 5);
    assert(le_bytes(x as nat, 4) =~= seq![b0, b1, b2, b3]);
    let s1 = s.push(b0);
    let s2 = s1.push(b1);
    let s3 = s2.push(b2);
    let s4 = s3.push(b3);
    assert(s + le_bytes(x as nat, 4) =~= s4);
    assert(s1.drop_last() =~= s && s2.drop_last() =~= s1 && s3.drop_last() =~= s2
        && s4.drop_last() =~= s3);
    let r1 = crc_register(s1);
    let r2 = crc_register(s2);
    let r3 = crc_register(s3);
    let r4 = crc_register(s4);
    lemma_take_byte(r0, x);
    lemma_take_byte(r1, x1);
    lemma_take_byte(r2, x2);
    lemma_take_byte(r3, x3);
    assert(x3 % 256 == x3);
    assert(x3 / 256 == 0);
    lemma_low_byte(r4, 0);
    assert(crc_bits(r3 ^ x3, 8) == r4);
    lemma_more_bits(r2 ^ x2, 8, 8);
    lemma_more_bits(r1 ^ x1, 8, 16);
    lemma_more_bits(r0 ^ x, 8, 24);
}

proof fn lemma_steps()
    by (bit_vector)
    ensures
        crc_bit(0xffffffffu32) == 0x92477cdfu32,
        crc_bit(0x92477cdfu32) == 0xa49b3d4fu32,
        crc_bit(0xa49b3d4fu32) == 0xbff51d87u32,
        crc_bit(0xbff51d87u32) == 0xb2420de3u32,
        crc_bit(0xb2420de3u32) == 0xb49985d1u32,
        crc_bit(0xb49985d1u32) == 0xb7f441c8u32,
        crc_bit(0xb7f441c8u32) == 0x5bfa20e4u32,
        crc_bit(0x5bfa20e4u32) == 0x2dfd1072u32,
        crc_bit(0x2dfd1072u32) == 0x16fe8839u32,
        crc_bit(0x16fe8839u32) == 0xe6c7c73cu32,
        crc_bit(0xe6c7c73cu32) == 0x7363e39eu32,
        crc_bit(0x7363e39eu32) == 0x39b1f1cfu32,
        crc_bit(0x39b1f1cfu32) == 0xf1607bc7u32,
        crc_bit(0xf1607bc7u32) == 0x9508bec3u32,
        crc_bit(0x9508bec3u32) == 0xa73cdc41u32,
        crc_bit(0xa73cdc41u32) == 0xbe26ed00u32,
        crc_bit(0xbe26ed00u32) == 0x5f137680u32,
        crc_bit(0x5f137680u32) == 0x2f89bb40u32,
        crc_bit(0x2f89bb40u32) == 0x17c4dda0u32,
        crc_bit(0x17c4dda0u32) == 0x0be26ed0u32,
        crc_bit(0x0be26ed0u32) == 0x05f13768u32,
        crc_bit(0x05f13768u32) == 0x02f89bb4u32,
        crc_bit(0x02f89bb4u32) == 0x017c4ddau32,
        crc_bit(0x017c4ddau32) == 0x00be26edu32,
        crc_bit(0x00be26edu32) == 0xede79056u32,
        crc_bit(0xede79056u32) == 0x76f3c82bu32,
        crc_bit(0x76f3c82bu32) == 0xd6c16735u32,
        crc_bit(0xd6c16735u32) == 0x86d830bau32,
        crc_bit(0x86d830bau32) == 0x436c185du32,
        crc_bit(0x436c185du32) == 0xcc0e8f0eu32,
        crc_bit(0xcc0e8f0eu32) == 0x66074787u32,
        crc_bit(0x66074787u32) == 0xdebb20e3u32,
{
}

/// The register that started with ones, after 32 steps.
proof fn lemma_ones_register()
    ensures
        crc_bits(0xffff_ffffu32, 32) == 0xdebb20e3u32,
{
    lemma_steps();
    assert(crc_bits(0xffffffffu32, 32) == crc_bits(0x92477cdfu32, 31));
    assert(crc_bits(0x92477cdfu32, 31) == crc_bits(0xa49b3d4fu32, 30));
    assert(crc_bits(0xa49b3d4fu32, 30) == crc_bits(0xbff51d87u32, 29));
    assert(crc_bits(0xbff51d87u32, 29) == crc_bits(0xb2420de3u32, 28));
    assert(crc_bits(0xb2420de3u32, 28) == crc_bits(0xb49985d1u32, 27));
    assert(crc_bits(0xb49985d1u32, 27) == crc_bits(0xb7f441c8u32, 26));
    assert(crc_bits(0xb7f441c8u32, 26) == crc_bits(0x5bfa20e4u32, 25));
    assert(crc_bits(0x5bfa20e4u32, 25) == crc_bits(0x2dfd1072u32, 24));
    assert(crc_bits(0x2dfd1072u32, 24) == crc_bits(0x16fe8839u32, 23));
    assert(crc_bits(0x16fe8839u32, 23) == crc_bits(0xe6c7c73cu32, 22));
    assert(crc_bits(0xe6c7c73cu32, 22) == crc_bits(0x7363e39eu32, 21));
    assert(crc_bits(0x7363e39eu32, 21) == crc_bits(0x39b1f1cfu32, 20));
    assert(crc_bits(0x39b1f1cfu32, 20) == crc_bits(0xf1607bc7u32, 19));
    assert(crc_bits(0xf1607bc7u32, 19) == crc_bits(0x9508bec3u32, 18));
    assert(crc_bits(0x9508bec3u32, 18) == crc_bits(0xa73cdc41u32, 17));
    assert(crc_bits(0xa73cdc41u32, 17) == crc_bits(0xbe26ed00u32, 16));
    assert(crc_bits(0xbe26ed00u32, 16) == crc_bits(0x5f137680u32, 15));
    assert(crc_bits(0x5f137680u32, 15) == crc_bits(0x2f89bb40u32, 14));
    assert(crc_bits(0x2f89bb40u32, 14) == crc_bits(0x17c4dda0u32, 13));
    assert(crc_bits(0x17c4dda0u32, 13) == crc_bits(0x0be26ed0u32, 12));
    assert(crc_bits(0x0be26ed0u32, 12) == crc_bits(0x05f13768u32, 11));
    assert(crc_bits(0x05f13768u32, 11) == crc_bits(0x02f89bb4u32, 10));
    assert(crc_bits(0x02f89bb4u32, 10) == crc_bits(0x017c4ddau32, 9));
    assert(crc_bits(0x017c4ddau32, 9) == crc_bits(0x00be26edu32, 8));
    assert(crc_bits(0x00be26edu32, 8) == crc_bits(0xede79056u32, 7));
    assert(crc_bits(0xede79056u32, 7) == crc_bits(0x76f3c82bu32, 6));
    assert(crc_bits(0x76f3c82bu32, 6) == crc_bits(0xd6c16735u32, 5));
    assert(crc_bits(0xd6c16735u32, 5) == crc_bits(0x86d830bau32, 4));
    assert(crc_bits(0x86d830bau32, 4) == crc_bits(0x436c185du32, 3));
    assert(crc_bits(0x436c185du32, 3) == crc_bits(0xcc0e8f0eu32, 2));
    assert(crc_bits(0xcc0e8f0eu32, 2) == crc_bits(0x66074787u32, 1));
    assert(crc_bits(0x66074787u32, 1) == crc_bits(0xdebb20e3u32, 0));
}

proof fn lemma_own_complement(r: u32)
    by (bit_vector)
    ensures
        r ^ ((0xffff_ffffu32 - r) as u32) == 0xffff_ffffu32,
{
}

/// Data followed by its own checksum, lowest byte first, has one and the same
/// checksum whatever the data.
pub proof fn law_checksum_residue(data: Seq<u8>)
    ensures
        crc_of(data + le_bytes(crc_of(data) as nat, 4)) == 0x2144_df1c,
{
    lemma_take_word(data, crc_of(data));
    lemma_own_complement(crc_register(data));
    lemma_ones_register();
}

} // verus!
