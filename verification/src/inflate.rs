//! A bounded raw-DEFLATE (RFC 1951) decoder, used to read npy headers out of
//! compressed `.npz` members without any dependency. It is a *prefix*
//! decoder: decompression stops as soon as `max_out` bytes have been
//! produced, so extracting a 128-byte header from a member that would
//! decompress to gigabytes costs almost nothing. All three block types
//! (stored, fixed Huffman, dynamic Huffman) are supported.

use vstd::prelude::*;
use vstd::slice::slice_subrange;
use vstd::string::*;
use crate::bytes::{le, put_bytes, u16le};

verus! {

/// Result of a bounded inflate.
#[derive(Debug)]
pub struct Inflated {
    /// The decompressed bytes (at most `max_out` of them).
    pub data: Vec<u8>,
    /// True when the final block finished inside the budget; false when the
    /// decoder stopped early because `max_out` was reached.
    pub complete: bool,
}

// ---------------------------------------------------------------------------
// Bits (LSB-first, as DEFLATE packs them)
// ---------------------------------------------------------------------------

pub open spec fn pow2(n: nat) -> nat
    decreases n,
{
    if n == 0 {
        1
    } else {
        2 * pow2((n - 1) as nat)
    }
}

/// Bit `p` of a byte sequence.
pub open spec fn bit_at(b: Seq<u8>, p: int) -> nat {
    (b[p / 8] as nat / pow2((p % 8) as nat)) % 2
}

/// The `n`-bit number at bit `p`, least significant bit first.
pub open spec fn bits_value(b: Seq<u8>, p: int, n: nat) -> nat
    decreases n,
{
    if n == 0 {
        0
    } else {
        bits_value(b, p, (n - 1) as nat) + pow2((n - 1) as nat) * bit_at(b, p + n - 1)
    }
}

pub open spec fn end_of_data() -> Seq<char> {
    "unexpected end of compressed data"@
}

/// The `n`-bit number at bit `p`, if the input reaches that far.
pub open spec fn bits_at(b: Seq<u8>, p: int, n: nat) -> Result<nat, Seq<char>> {
    if p + n > 8 * b.len() {
        Err(end_of_data())
    } else {
        Ok(bits_value(b, p, n))
    }
}

// ---------------------------------------------------------------------------
// Canonical Huffman codes
// ---------------------------------------------------------------------------

pub const MAX_BITS: usize = 15;

/// The symbols below `n` whose code has `len` bits, in ascending order.
pub open spec fn symbols_of(lengths: Seq<u8>, len: nat, n: nat) -> Seq<nat>
    decreases n,
{
    if n == 0 || n > lengths.len() {
        seq![]
    } else if lengths[n - 1] == len {
        symbols_of(lengths, len, (n - 1) as nat).push((n - 1) as nat)
    } else {
        symbols_of(lengths, len, (n - 1) as nat)
    }
}

/// How many codes have `len` bits.
pub open spec fn count_of(lengths: Seq<u8>, len: nat) -> nat {
    symbols_of(lengths, len, lengths.len()).len()
}

/// The numerically first code of `len` bits.
pub open spec fn first_code(lengths: Seq<u8>, len: nat) -> nat
    decreases len,
{
    if len <= 1 {
        0
    } else {
        2 * (first_code(lengths, (len - 1) as nat) + count_of(lengths, (len - 1) as nat))
    }
}

/// How many codes of `len` bits are left over by the codes of up to `len`
/// bits; negative when there are too many of them.
pub open spec fn slack(lengths: Seq<u8>, len: nat) -> int
    decreases len,
{
    if len == 0 {
        1
    } else {
        2 * slack(lengths, (len - 1) as nat) - count_of(lengths, len)
    }
}

/// Why code lengths cannot belong together, if they cannot. An incomplete
/// code is tolerated: some real encoders emit one for the distance tree of
/// tiny streams.
pub open spec fn length_error(lengths: Seq<u8>) -> Option<Seq<char>> {
    if exists|i: int| 0 <= i < lengths.len() && #[trigger] lengths[i] > MAX_BITS {
        Some("code length exceeds 15"@)
    } else if exists|l: nat| 1 <= l <= MAX_BITS && #[trigger] slack(lengths, l) < 0 {
        Some("over-subscribed Huffman code"@)
    } else {
        None
    }
}

/// Why code lengths do not describe a code, if they do not: a code has at
/// least one symbol.
pub open spec fn code_error(lengths: Seq<u8>) -> Option<Seq<char>> {
    if length_error(lengths) is Some {
        length_error(lengths)
    } else if count_of(lengths, 0) == lengths.len() {
        Some("empty Huffman code"@)
    } else {
        None
    }
}

/// The symbol whose code starts at bit `p`, given that the `len - 1` bits
/// before it, worth `code`, are not a code; and where the code ends.
pub open spec fn decode_from(lengths: Seq<u8>, b: Seq<u8>, p: int, len: nat, code: nat) -> Result<
    (nat, int),
    Seq<char>,
>
    decreases MAX_BITS + 1 - len,
{
    if len > MAX_BITS {
        Err("invalid Huffman code"@)
    } else if p + 1 > 8 * b.len() {
        Err(end_of_data())
    } else {
        let c = 2 * code + bit_at(b, p);
        let first = first_code(lengths, len);
        if c < first + count_of(lengths, len) {
            Ok((symbols_of(lengths, len, lengths.len())[c - first], p + 1))
        } else {
            decode_from(lengths, b, p + 1, len + 1, c)
        }
    }
}

/// The symbol whose code starts at bit `p`, and where the code ends.
pub open spec fn decode_at(lengths: Seq<u8>, b: Seq<u8>, p: int) -> Result<(nat, int), Seq<char>> {
    decode_from(lengths, b, p, 1, 0)
}

/// The code lengths of the fixed literal/length code.
pub open spec fn fixed_literals() -> Seq<u8> {
    Seq::new(
        288,
        |i: int|
            if i < 144 {
                8u8
            } else if i < 256 {
                9u8
            } else if i < 280 {
                7u8
            } else {
                8u8
            },
    )
}

/// The code lengths of the fixed distance code.
pub open spec fn fixed_distances() -> Seq<u8> {
    Seq::new(30, |i: int| 5u8)
}

/// Order in which code lengths for the code-length alphabet are stored.
pub const CLC_ORDER: [usize; 19] = [
    16, 17, 18, 0, 8, 7, 9, 6, 10, 5, 11, 4, 12, 3, 13, 2, 14, 1, 15,
];

/// Extra-bit tables for length codes 257..=285 (RFC 1951 §3.2.5).
pub const LEN_BASE: [u16; 29] = [
    3, 4, 5, 6, 7, 8, 9, 10, 11, 13, 15, 17, 19, 23, 27, 31, 35, 43, 51, 59, 67, 83, 99, 115, 131,
    163, 195, 227, 258,
];

pub const LEN_EXTRA: [u8; 29] = [
    0, 0, 0, 0, 0, 0, 0, 0, 1, 1, 1, 1, 2, 2, 2, 2, 3, 3, 3, 3, 4, 4, 4, 4, 5, 5, 5, 5, 0,
];

pub const DIST_BASE: [u16; 30] = [
    1, 2, 3, 4, 5, 7, 9, 13, 17, 25, 33, 49, 65, 97, 129, 193, 257, 385, 513, 769, 1025, 1537,
    2049, 3073, 4097, 6145, 8193, 12289, 16385, 24577,
];

pub const DIST_EXTRA: [u8; 30] = [
    0, 0, 0, 0, 1, 1, 2, 2, 3, 3, 4, 4, 5, 5, 6, 6, 7, 7, 8, 8, 9, 9, 10, 10, 11, 11, 12, 12, 13,
    13,
];

/// The stored lengths of the code-length code, from slot `j` of `n` on.
pub open spec fn clc_from(b: Seq<u8>, p: int, j: nat, n: nat, acc: Seq<u8>) -> Result<
    (Seq<u8>, int),
    Seq<char>,
>
    decreases n - j,
{
    if j >= n {
        Ok((acc, p))
    } else {
        match bits_at(b, p, 3) {
            Err(e) => Err(e),
            Ok(v) => clc_from(b, p + 3, j + 1, n, acc.update(CLC_ORDER[j as int] as int, v as u8)),
        }
    }
}

pub open spec fn run_of(acc: Seq<u8>, value: u8, n: nat) -> Seq<u8> {
    acc + Seq::new(n, |i: int| value)
}

/// What code-length symbol `sym`, whose code ended at bit `q`, adds to `acc`:
/// a length, or a run of lengths.
pub open spec fn length_step(b: Seq<u8>, q: int, sym: nat, total: nat, acc: Seq<u8>) -> Result<
    (Seq<u8>, int),
    Seq<char>,
> {
    if sym <= 15 {
        Ok((acc.push(sym as u8), q))
    } else if sym == 16 && acc.len() == 0 {
        Err("repeat code with no previous length"@)
    } else if sym <= 18 {
        let extra: nat = if sym == 16 {
            2
        } else if sym == 17 {
            3
        } else {
            7
        };
        let base: nat = if sym == 18 {
            11
        } else {
            3
        };
        let value = if sym == 16 {
            acc.last()
        } else {
            0u8
        };
        match bits_at(b, q, extra) {
            Err(e) => Err(e),
            Ok(v) => if acc.len() + base + v > total {
                Err("code-length run overflows the table"@)
            } else {
                Ok((run_of(acc, value, base + v), q + extra))
            },
        }
    } else {
        Err("invalid code-length symbol"@)
    }
}

/// Code lengths up to `total` of them, written with the code-length code
/// `clc`, from bit `p` on.
pub open spec fn lengths_from(b: Seq<u8>, p: int, clc: Seq<u8>, total: nat, acc: Seq<u8>) -> Result<
    (Seq<u8>, int),
    Seq<char>,
>
    decreases total - acc.len(),
{
    if acc.len() >= total {
        Ok((acc, p))
    } else {
        match decode_at(clc, b, p) {
            Err(e) => Err(e),
            Ok((sym, q)) => match length_step(b, q, sym, total, acc) {
                Err(e) => Err(e),
                Ok((next, r)) => lengths_from(b, r, clc, total, next),
            },
        }
    }
}

/// The literal/length and distance code lengths of a dynamic block. A block of
/// literals alone has no distance codes: all its distance lengths are zero,
/// and only a length symbol, which needs a distance, fails to decode in it.
pub open spec fn dynamic_at(b: Seq<u8>, p: int) -> Result<(Seq<u8>, Seq<u8>, int), Seq<char>> {
    match (bits_at(b, p, 5), bits_at(b, p + 5, 5), bits_at(b, p + 10, 4)) {
        (Ok(l), Ok(d), Ok(c)) => {
            let hlit = l + 257;
            let hdist = d + 1;
            if hlit > 286 || hdist > 30 {
                Err("dynamic header declares too many codes"@)
            } else {
                match clc_from(b, p + 14, 0, c + 4, Seq::new(19, |i: int| 0u8)) {
                    Err(e) => Err(e),
                    Ok((clc, q)) => match code_error(clc) {
                        Some(e) => Err(e),
                        None => match lengths_from(b, q, clc, hlit + hdist, seq![]) {
                            Err(e) => Err(e),
                            Ok((all, r)) => {
                                let lit = all.take(hlit as int);
                                let dist = all.skip(hlit as int);
                                match code_error(lit) {
                                    Some(e) => Err(e),
                                    None => match length_error(dist) {
                                        Some(e) => Err(e),
                                        None => Ok((lit, dist, r)),
                                    },
                                }
                            },
                        },
                    },
                }
            }
        },
        _ => Err(end_of_data()),
    }
}

// ---------------------------------------------------------------------------
// Block bodies
// ---------------------------------------------------------------------------

/// `n` bytes, each copied from `d` places back, stopping at `max` bytes of
/// output.
pub open spec fn copied(out: Seq<u8>, d: nat, n: nat, max: nat) -> Seq<u8>
    decreases n,
{
    if n == 0 {
        out
    } else {
        let next = out.push(out[out.len() - d]);
        if next.len() >= max {
            next
        } else {
            copied(next, d, (n - 1) as nat, max)
        }
    }
}

/// A back-reference: the length and distance that follow length symbol `sym`.
pub open spec fn reference_at(dist: Seq<u8>, b: Seq<u8>, p: int, sym: nat) -> Result<
    (nat, nat, int),
    Seq<char>,
> {
    let lx = LEN_EXTRA[sym - 257] as nat;
    match bits_at(b, p, lx) {
        Err(e) => Err(e),
        Ok(lv) => match decode_at(dist, b, p + lx) {
            Err(e) => Err(e),
            Ok((ds, q)) => if ds >= 30 {
                Err("invalid distance symbol"@)
            } else {
                let dx = DIST_EXTRA[ds as int] as nat;
                match bits_at(b, q, dx) {
                    Err(e) => Err(e),
                    Ok(dv) => Ok(
                        (
                            LEN_BASE[sym - 257] as nat + lv,
                            DIST_BASE[ds as int] as nat + dv,
                            q + dx,
                        ),
                    ),
                }
            },
        },
    }
}

/// A Huffman-coded block body from bit `p` on, after the output `out`.
pub open spec fn huffman_from(
    lit: Seq<u8>,
    dist: Seq<u8>,
    b: Seq<u8>,
    p: int,
    out: Seq<u8>,
    max: nat,
) -> Result<(Seq<u8>, int), Seq<char>>
    decreases 8 * b.len() - p,
{
    match decode_at(lit, b, p) {
        Err(e) => Err(e),
        Ok((sym, q)) => {
            proof {
                lemma_decode_progress(lit, b, p, 1, 0);
            }
            if sym <= 255 {
                let next = out.push(sym as u8);
                if next.len() >= max {
                    Ok((next, q))
                } else {
                    huffman_from(lit, dist, b, q, next, max)
                }
            } else if sym == 256 {
                Ok((out, q))
            } else if sym <= 285 {
                match reference_at(dist, b, q, sym) {
                    Err(e) => Err(e),
                    Ok((len, d, r)) => {
                        proof {
                            lemma_reference_progress(dist, b, q, sym);
                        }
                        if d > out.len() {
                            Err("back-reference before start of output"@)
                        } else {
                            let next = copied(out, d, len, max);
                            if next.len() >= max {
                                Ok((next, r))
                            } else {
                                huffman_from(lit, dist, b, r, next, max)
                            }
                        }
                    },
                }
            } else {
                Err("invalid literal/length symbol"@)
            }
        },
    }
}

/// The next whole byte at or after bit `p`.
pub open spec fn byte_after(p: int) -> int {
    (p + 7) / 8
}

/// A stored block body from bit `p` on.
pub open spec fn stored_at(b: Seq<u8>, p: int, out: Seq<u8>, max: nat) -> Result<
    (Seq<u8>, int),
    Seq<char>,
> {
    let s = byte_after(p);
    if s + 4 > b.len() {
        Err(end_of_data())
    } else {
        let len = le(b, s, 2);
        if le(b, s + 2, 2) != 0xffff - len {
            Err("stored block LEN/NLEN mismatch"@)
        } else if s + 4 + len > b.len() {
            Err(end_of_data())
        } else {
            let room: nat = if out.len() < max {
                (max - out.len()) as nat
            } else {
                0
            };
            let want = if room < len {
                room
            } else {
                len
            };
            Ok((out + b.subrange(s + 4, s + 4 + want), 8 * (s + 4 + len)))
        }
    }
}

/// The body of a block of type `kind` from bit `p` on.
pub open spec fn block_at(b: Seq<u8>, p: int, kind: nat, out: Seq<u8>, max: nat) -> Result<
    (Seq<u8>, int),
    Seq<char>,
> {
    if kind == 0 {
        stored_at(b, p, out, max)
    } else if kind == 1 {
        huffman_from(fixed_literals(), fixed_distances(), b, p, out, max)
    } else if kind == 2 {
        match dynamic_at(b, p) {
            Err(e) => Err(e),
            Ok((lit, dist, q)) => huffman_from(lit, dist, b, q, out, max),
        }
    } else {
        Err("reserved block type 3"@)
    }
}

/// The blocks from bit `p` on, after the output `out`: the first `max` bytes
/// of the whole output, and whether that is all of it.
pub open spec fn blocks_from(b: Seq<u8>, p: int, out: Seq<u8>, max: nat) -> Result<
    (Seq<u8>, bool),
    Seq<char>,
>
    decreases 8 * b.len() - p,
{
    match (bits_at(b, p, 1), bits_at(b, p + 1, 2)) {
        (Ok(last), Ok(kind)) => match block_at(b, p + 3, kind, out, max) {
            Err(e) => Err(e),
            Ok((next, q)) => {
                if next.len() >= max {
                    Ok((next.take(max as int), false))
                } else if last == 1 {
                    Ok((next, true))
                } else {
                    proof {
                        lemma_block_progress(b, p + 3, kind, out, max);
                    }
                    blocks_from(b, q, next, max)
                }
            },
        },
        _ => Err(end_of_data()),
    }
}

/// What the first `max` bytes of a DEFLATE stream decompress to.
pub open spec fn inflated(b: Seq<u8>, max: nat) -> Result<(Seq<u8>, bool), Seq<char>> {
    blocks_from(b, 0, seq![], max)
}

pub proof fn lemma_decode_progress(lengths: Seq<u8>, b: Seq<u8>, p: int, len: nat, code: nat)
    ensures
        decode_from(lengths, b, p, len, code) matches Ok((_, q)) ==> p < q <= 8 * b.len(),
    decreases MAX_BITS + 1 - len,
{
    if len <= MAX_BITS && p + 1 <= 8 * b.len() {
        lemma_decode_progress(lengths, b, p + 1, len + 1, 2 * code + bit_at(b, p));
    }
}

pub proof fn lemma_reference_progress(dist: Seq<u8>, b: Seq<u8>, p: int, sym: nat)
    ensures
        reference_at(dist, b, p, sym) matches Ok((_, _, q)) ==> p < q <= 8 * b.len(),
{
    lemma_decode_progress(dist, b, p + LEN_EXTRA[sym - 257] as nat, 1, 0);
}

pub proof fn lemma_huffman_progress(
    lit: Seq<u8>,
    dist: Seq<u8>,
    b: Seq<u8>,
    p: int,
    out: Seq<u8>,
    max: nat,
)
    ensures
        huffman_from(lit, dist, b, p, out, max) matches Ok((_, q)) ==> p < q <= 8 * b.len(),
    decreases 8 * b.len() - p,
{
    lemma_decode_progress(lit, b, p, 1, 0);
    if let Ok((sym, q)) = decode_at(lit, b, p) {
        if sym <= 255 {
            lemma_huffman_progress(lit, dist, b, q, out.push(sym as u8), max);
        } else if 257 <= sym <= 285 {
            lemma_reference_progress(dist, b, q, sym);
            if let Ok((len, d, r)) = reference_at(dist, b, q, sym) {
                lemma_huffman_progress(lit, dist, b, r, copied(out, d, len, max), max);
            }
        }
    }
}

pub proof fn lemma_clc_progress(b: Seq<u8>, p: int, j: nat, n: nat, acc: Seq<u8>)
    requires
        p <= 8 * b.len(),
    ensures
        clc_from(b, p, j, n, acc) matches Ok((_, q)) ==> p <= q <= 8 * b.len(),
    decreases n - j,
{
    if j < n {
        if let Ok(v) = bits_at(b, p, 3) {
            lemma_clc_progress(
                b,
                p + 3,
                j + 1,
                n,
                acc.update(CLC_ORDER[j as int] as int, v as u8),
            );
        }
    }
}

pub proof fn lemma_lengths_progress(b: Seq<u8>, p: int, clc: Seq<u8>, total: nat, acc: Seq<u8>)
    requires
        p <= 8 * b.len(),
        acc.len() <= total,
    ensures
        lengths_from(b, p, clc, total, acc) matches Ok((all, q)) ==> p <= q <= 8 * b.len()
            && all.len() == total,
    decreases total - acc.len(),
{
    if acc.len() < total {
        lemma_decode_progress(clc, b, p, 1, 0);
        if let Ok((sym, q)) = decode_at(clc, b, p) {
            if let Ok((next, r)) = length_step(b, q, sym, total, acc) {
                lemma_lengths_progress(b, r, clc, total, next);
            }
        }
    }
}

pub proof fn lemma_dynamic_progress(b: Seq<u8>, p: int)
    ensures
        dynamic_at(b, p) matches Ok((_, _, q)) ==> p < q <= 8 * b.len(),
{
    if let Ok(c) = bits_at(b, p + 10, 4) {
        lemma_clc_progress(b, p + 14, 0, c + 4, Seq::new(19, |i: int| 0u8));
        if let Ok((clc, q)) = clc_from(b, p + 14, 0, c + 4, Seq::new(19, |i: int| 0u8)) {
            let hlit = bits_value(b, p, 5) + 257;
            let hdist = bits_value(b, p + 5, 5) + 1;
            lemma_lengths_progress(b, q, clc, hlit + hdist, seq![]);
        }
    }
}

pub proof fn lemma_block_progress(b: Seq<u8>, p: int, kind: nat, out: Seq<u8>, max: nat)
    ensures
        block_at(b, p, kind, out, max) matches Ok((_, q)) ==> p < q <= 8 * b.len(),
{
    if kind == 1 {
        lemma_huffman_progress(fixed_literals(), fixed_distances(), b, p, out, max);
    } else if kind == 2 {
        lemma_dynamic_progress(b, p);
        if let Ok((lit, dist, q)) = dynamic_at(b, p) {
            lemma_huffman_progress(lit, dist, b, q, out, max);
        }
    }
}

proof fn lemma_tables()
    ensures
        forall|i: int| 0 <= i < 29 ==> #[trigger] LEN_EXTRA[i] <= 5,
        forall|i: int| 0 <= i < 30 ==> #[trigger] DIST_EXTRA[i] <= 13,
        forall|i: int| 0 <= i < 30 ==> #[trigger] DIST_BASE[i] >= 1,
        forall|i: int| 0 <= i < 19 ==> #[trigger] CLC_ORDER[i] < 19,
{
}

// ---------------------------------------------------------------------------
// Bit reader
// ---------------------------------------------------------------------------

struct BitReader<'a> {
    b: &'a [u8],
    pos: usize,
    bit: u8,
}

/// Bit `k` of a byte.
fn bit_of(byte: u8, k: u8) -> (r: u8)
    requires
        k < 8,
    ensures
        r == (byte as nat / pow2(k as nat)) % 2,
{
    reveal_with_fuel(pow2, 8);
    let d: u8 = match k {
        0 => 1,
        1 => 2,
        2 => 4,
        3 => 8,
        4 => 16,
        5 => 32,
        6 => 64,
        _ => 128,
    };
    (byte / d) % 2
}

pub proof fn lemma_one_bit(b: Seq<u8>, p: int)
    ensures
        bits_value(b, p, 1) == bit_at(b, p),
{
    let n: nat = 1;
    assert(bits_value(b, p, 0) == 0);
    assert(pow2(0) == 1);
    assert(bits_value(b, p, n) == bits_value(b, p, 0) + pow2(0) * bit_at(b, p + n - 1));
    assert(p + n - 1 == p);
}

proof fn lemma_pow2_bound(n: nat)
    requires
        n <= 16,
    ensures
        1 <= pow2(n) <= 65536,
{
    reveal_with_fuel(pow2, 17);
}

impl<'a> BitReader<'a> {
    spec fn inv(&self) -> bool {
        self.pos <= self.b@.len() <= usize::MAX && self.bit < 8 && (self.pos == self.b@.len()
            ==> self.bit == 0)
    }

    spec fn p(&self) -> int {
        8 * self.pos + self.bit
    }

    fn bits(&mut self, n: u8) -> (r: Result<u32, String>)
        requires
            old(self).inv(),
            n <= 16,
        ensures
            bits_at(old(self).b@, old(self).p(), n as nat) == match r {
                Ok(v) => Ok::<nat, Seq<char>>(v as nat),
                Err(e) => Err(e@),
            },
            r matches Ok(v) ==> v < pow2(n as nat) && final(self).inv() && final(self).b == old(
                self).b && final(self).p() == old(self).p() + n,
    {
        let mut v: u32 = 0;
        let mut weight: u32 = 1;
        let mut i: u8 = 0;
        while i < n
            invariant
                i <= n <= 16,
                self.inv(),
                self.b == old(self).b,
                self.p() == old(self).p() + i,
                weight == pow2(i as nat),
                v < weight,
                v == bits_value(self.b@, old(self).p(), i as nat),
            decreases n - i,
        {
            if self.pos >= self.b.len() {
                return Err("unexpected end of compressed data".to_owned());
            }
            proof {
                lemma_pow2_bound(i as nat);
            }
            let bit: u8 = bit_of(self.b[self.pos], self.bit);
            proof {
                let w = pow2(i as nat);
                let x = bit_at(self.b@, self.p());
                assert(bit == x);
                assert(w * x == if x == 1 {
                    w
                } else {
                    0
                }) by (nonlinear_arith)
                    requires
                        x == 0 || x == 1,
                ;
            }
            if bit == 1 {
                v = v + weight;
            }
            weight = weight * 2;
            if self.bit == 7 {
                self.bit = 0;
                self.pos = self.pos + 1;
            } else {
                self.bit = self.bit + 1;
            }
            i = i + 1;
        }
        Ok(v)
    }

    fn align_byte(&mut self)
        requires
            old(self).inv(),
        ensures
            final(self).inv(),
            final(self).b == old(self).b,
            final(self).bit == 0,
            final(self).pos == byte_after(old(self).p()),
    {
        if self.bit != 0 {
            self.bit = 0;
            self.pos = self.pos + 1;
        }
    }

    /// Step over `n` bytes; the result is where they start.
    fn take(&mut self, n: usize) -> (r: Result<usize, String>)
        requires
            old(self).inv(),
            old(self).bit == 0,
        ensures
            match r {
                Ok(start) => start == old(self).pos && start + n <= old(self).b@.len() && final(
                    self).inv() && final(self).b == old(self).b && final(self).pos == start + n
                    && final(self).bit == 0,
                Err(e) => old(self).pos + n > old(self).b@.len() && e@ == end_of_data(),
            },
    {
        if n > self.b.len() - self.pos {
            return Err("unexpected end of compressed data".to_owned());
        }
        let start: usize = self.pos;
        self.pos = start + n;
        Ok(start)
    }
}

// ---------------------------------------------------------------------------
// Huffman tables (canonical, decoded with the counts/offsets method)
// ---------------------------------------------------------------------------

/// How many of the symbols below `n` have codes of 1 to `len - 1` bits.
spec fn offset_of(lengths: Seq<u8>, len: nat, n: nat) -> nat
    decreases len,
{
    if len <= 1 {
        0
    } else {
        offset_of(lengths, (len - 1) as nat, n) + symbols_of(lengths, (len - 1) as nat, n).len()
    }
}

proof fn lemma_offset_step(lengths: Seq<u8>, len: nat, n: nat)
    requires
        0 < n <= lengths.len(),
    ensures
        offset_of(lengths, len, n) == offset_of(lengths, len, (n - 1) as nat) + (if 1
            <= lengths[n - 1] < len {
            1nat
        } else {
            0nat
        }),
    decreases len,
{
    if len > 1 {
        lemma_offset_step(lengths, (len - 1) as nat, n);
    }
}

/// No more symbols are listed than there are.
proof fn lemma_offset_bound(lengths: Seq<u8>, len: nat, n: nat)
    requires
        n <= lengths.len(),
    ensures
        offset_of(lengths, len, n) <= n,
    decreases n,
{
    if n > 0 {
        lemma_offset_step(lengths, len, n);
        lemma_offset_bound(lengths, len, (n - 1) as nat);
    } else {
        lemma_offset_empty(lengths, len);
    }
}

proof fn lemma_offset_empty(lengths: Seq<u8>, len: nat)
    ensures
        offset_of(lengths, len, 0) == 0,
    decreases len,
{
    if len > 1 {
        lemma_offset_empty(lengths, (len - 1) as nat);
    }
}

proof fn lemma_offset_monotone(lengths: Seq<u8>, a: nat, c: nat, n: nat)
    requires
        1 <= a < c,
    ensures
        offset_of(lengths, a, n) + symbols_of(lengths, a, n).len() <= offset_of(lengths, c, n),
    decreases c,
{
    if a < c - 1 {
        lemma_offset_monotone(lengths, a, (c - 1) as nat, n);
    }
}

/// The symbols below `m` start the list of the symbols below `n`.
pub proof fn lemma_symbols_prefix(lengths: Seq<u8>, len: nat, m: nat, n: nat)
    requires
        m <= n <= lengths.len(),
    ensures
        symbols_of(lengths, len, m).len() <= symbols_of(lengths, len, n).len(),
        symbols_of(lengths, len, m) == symbols_of(lengths, len, n).take(
            symbols_of(lengths, len, m).len() as int,
        ),
    decreases n,
{
    let small = symbols_of(lengths, len, m);
    let big = symbols_of(lengths, len, n);
    if m < n {
        lemma_symbols_prefix(lengths, len, m, (n - 1) as nat);
        assert(small =~= big.take(small.len() as int));
    } else {
        assert(small =~= big.take(small.len() as int));
    }
}

/// Symbols are listed below the bound.
proof fn lemma_symbols_range(lengths: Seq<u8>, len: nat, n: nat)
    requires
        n <= lengths.len(),
    ensures
        symbols_of(lengths, len, n).len() <= n,
        forall|k: int|
            0 <= k < symbols_of(lengths, len, n).len() ==> #[trigger] symbols_of(lengths, len, n)[k]
                < n,
    decreases n,
{
    if n > 0 {
        lemma_symbols_range(lengths, len, (n - 1) as nat);
    }
}

/// Codes of `len` bits and what is left of them make up all numbers of `len`
/// bits.
pub proof fn lemma_kraft(lengths: Seq<u8>, len: nat)
    requires
        1 <= len,
    ensures
        first_code(lengths, len) + count_of(lengths, len) + slack(lengths, len) == pow2(len),
    decreases len,
{
    if len > 1 {
        lemma_kraft(lengths, (len - 1) as nat);
    } else {
        reveal_with_fuel(pow2, 2);
        reveal_with_fuel(slack, 2);
    }
}

/// Symbol `k` among those of `len` bits stands at its canonical place.
spec fn placed(symbols: Seq<u16>, lengths: Seq<u8>, len: nat, k: int) -> bool {
    let at = offset_of(lengths, len, lengths.len()) + k;
    at < symbols.len() && symbols[at] == symbols_of(lengths, len, lengths.len())[k]
}

struct Huffman {
    /// count[len] = number of codes with that bit length.
    count: Vec<u16>,
    /// Symbols sorted by (length, symbol) — canonical order.
    symbols: Vec<u16>,
    /// The code lengths the tables were built from.
    lengths: Ghost<Seq<u8>>,
}

impl Huffman {
    spec fn inv(&self) -> bool {
        let lengths = self.lengths@;
        &&& self.count@.len() == 16
        &&& lengths.len() <= u16::MAX
        &&& length_error(lengths) is None
        &&& forall|l: int|
            0 <= l <= MAX_BITS ==> #[trigger] self.count@[l] == count_of(lengths, l as nat)
        &&& forall|l: nat, k: int|
            1 <= l <= MAX_BITS && 0 <= k < count_of(lengths, l) ==> #[trigger] placed(
                self.symbols@,
                lengths,
                l,
                k,
            )
    }

    /// Build from per-symbol code lengths (0 = symbol unused).
    fn new(lengths: &[u8]) -> (r: Result<Huffman, String>)
        requires
            lengths@.len() <= u16::MAX,
        ensures
            match r {
                Ok(h) => h.inv() && h.lengths@ == lengths@ && code_error(lengths@) is None,
                Err(e) => code_error(lengths@) == Some(e@),
            },
    {
        match Huffman::new_or_empty(lengths) {
            Err(e) => Err(e),
            Ok(h) => {
                if h.count[0] as usize == lengths.len() {
                    Err("empty Huffman code".to_owned())
                } else {
                    Ok(h)
                }
            },
        }
    }

    /// Build from per-symbol code lengths of which all may be 0: such a code
    /// has no symbol, and nothing decodes in it.
    fn new_or_empty(lengths: &[u8]) -> (r: Result<Huffman, String>)
        requires
            lengths@.len() <= u16::MAX,
        ensures
            match r {
                Ok(h) => h.inv() && h.lengths@ == lengths@,
                Err(e) => length_error(lengths@) == Some(e@),
            },
    {
        let ghost ls = lengths@;
        let n: usize = lengths.len();
        let mut count: Vec<u16> = zeros16(16);
        let mut i: usize = 0;
        while i < n
            invariant
                i <= n,
                n == ls.len() <= u16::MAX,
                ls == lengths@,
                count@.len() == 16,
                forall|k: int| 0 <= k < i ==> #[trigger] ls[k] <= MAX_BITS,
                forall|l: int|
                    0 <= l <= MAX_BITS ==> #[trigger] count@[l] == symbols_of(
                        ls,
                        l as nat,
                        i as nat,
                    ).len(),
            decreases n - i,
        {
            let l: usize = lengths[i] as usize;
            if l > MAX_BITS {
                assert(ls[i as int] > MAX_BITS);
                return Err("code length exceeds 15".to_owned());
            }
            proof {
                lemma_symbols_range(ls, l as nat, i as nat);
            }
            let c: u16 = count[l];
            count.set(l, c + 1);
            i = i + 1;
        }
        let mut left: i32 = 1;
        let mut l: usize = 1;
        while l <= MAX_BITS
            invariant
                1 <= l <= MAX_BITS + 1,
                count@.len() == 16,
                ls == lengths@,
                n == ls.len() <= u16::MAX,
                forall|l: int| 0 <= l <= MAX_BITS ==> #[trigger] count@[l] == count_of(ls, l as nat),
                left == slack(ls, (l - 1) as nat),
                0 <= left <= pow2((l - 1) as nat),
                forall|k: nat| 1 <= k < l ==> #[trigger] slack(ls, k) >= 0,
                forall|i: int| 0 <= i < ls.len() ==> #[trigger] ls[i] <= MAX_BITS,
            decreases MAX_BITS + 1 - l,
        {
            proof {
                lemma_pow2_bound((l - 1) as nat);
                lemma_symbols_range(ls, l as nat, ls.len());
            }
            left = left * 2 - count[l] as i32;
            if left < 0 {
                assert(slack(ls, l as nat) < 0);
                return Err("over-subscribed Huffman code".to_owned());
            }
            l = l + 1;
        }
        let symbols: Vec<u16> = sort_symbols(lengths, &count);
        Ok(Huffman { count, symbols, lengths: Ghost(ls) })
    }

    fn decode(&self, r: &mut BitReader) -> (res: Result<u16, String>)
        requires
            self.inv(),
            old(r).inv(),
        ensures
            match res {
                Ok(sym) => decode_at(self.lengths@, old(r).b@, old(r).p()) == Ok::<
                    (nat, int),
                    Seq<char>,
                >((sym as nat, final(r).p())),
                Err(e) => decode_at(self.lengths@, old(r).b@, old(r).p()) == Err::<
                    (nat, int),
                    Seq<char>,
                >(e@),
            },
            res is Ok ==> final(r).inv() && final(r).b == old(r).b,
    {
        let ghost ls = self.lengths@;
        let mut code: u32 = 0;
        let mut first: u32 = 0;
        let mut index: u32 = 0;
        let mut len: usize = 1;
        while len <= MAX_BITS
            invariant
                1 <= len <= MAX_BITS + 1,
                self.inv(),
                ls == self.lengths@,
                r.inv(),
                r.b == old(r).b,
                code < pow2((len - 1) as nat),
                first == first_code(ls, len as nat),
                2 * code >= first,
                index == offset_of(ls, len as nat, ls.len()),
                decode_from(ls, r.b@, r.p(), len as nat, code as nat) == decode_at(
                    ls,
                    old(r).b@,
                    old(r).p(),
                ),
            decreases MAX_BITS + 1 - len,
        {
            proof {
                lemma_pow2_bound((len - 1) as nat);
                lemma_pow2_bound(len as nat);
                lemma_kraft(ls, len as nat);
                lemma_offset_bound(ls, (len + 1) as nat, ls.len());
                assert(slack(ls, len as nat) >= 0);
            }
            let ghost p = r.p();
            let ghost b = r.b@;
            let bit: u32 = match r.bits(1) {
                Ok(v) => v,
                Err(e) => {
                    return Err(e);
                },
            };
            proof {
                lemma_one_bit(b, p);
            }
            code = code * 2 + bit;
            let cnt: u32 = self.count[len] as u32;
            if code < first + cnt {
                assert(placed(self.symbols@, ls, len as nat, code - first));
                return Ok(self.symbols[(index + (code - first)) as usize]);
            }
            index = index + cnt;
            first = (first + cnt) * 2;
            len = len + 1;
        }
        Err("invalid Huffman code".to_owned())
    }
}

fn zeros16(n: usize) -> (r: Vec<u16>)
    ensures
        r@.len() == n,
        forall|i: int| 0 <= i < n ==> #[trigger] r@[i] == 0,
{
    let mut r: Vec<u16> = Vec::new();
    while r.len() < n
        invariant
            r@.len() <= n,
            forall|i: int| 0 <= i < r@.len() ==> #[trigger] r@[i] == 0,
        decreases n - r@.len(),
    {
        r.push(0);
    }
    r
}

/// The used symbols in canonical order.
fn sort_symbols(lengths: &[u8], count: &Vec<u16>) -> (symbols: Vec<u16>)
    requires
        lengths@.len() <= u16::MAX,
        count@.len() == 16,
        forall|i: int| 0 <= i < lengths@.len() ==> #[trigger] lengths@[i] <= MAX_BITS,
        forall|l: int|
            0 <= l <= MAX_BITS ==> #[trigger] count@[l] == count_of(lengths@, l as nat),
    ensures
        forall|l: nat, k: int|
            1 <= l <= MAX_BITS && 0 <= k < count_of(lengths@, l) ==> #[trigger] placed(
                symbols@,
                lengths@,
                l,
                k,
            ),
{
    let ghost ls = lengths@;
    let n: usize = lengths.len();
    let mut offsets: Vec<u16> = zeros16(16);
    let mut l: usize = 1;
    while l < MAX_BITS
        invariant
            1 <= l <= MAX_BITS,
            n == ls.len() <= u16::MAX,
            count@.len() == 16,
            offsets@.len() == 16,
            forall|l: int| 0 <= l <= MAX_BITS ==> #[trigger] count@[l] == count_of(ls, l as nat),
            forall|k: int|
                1 <= k <= l ==> #[trigger] offsets@[k] == offset_of(ls, k as nat, ls.len()),
        decreases MAX_BITS - l,
    {
        proof {
            lemma_offset_bound(ls, (l + 1) as nat, ls.len());
        }
        let next: u16 = offsets[l] + count[l];
        offsets.set(l + 1, next);
        l = l + 1;
    }
    let mut symbols: Vec<u16> = zeros16(n);
    let mut i: usize = 0;
    while i < n
        invariant
            i <= n,
            n == ls.len() <= u16::MAX,
            ls == lengths@,
            forall|i: int| 0 <= i < ls.len() ==> #[trigger] ls[i] <= MAX_BITS,
            offsets@.len() == 16,
            symbols@.len() == n,
            forall|l: int|
                1 <= l <= MAX_BITS ==> #[trigger] offsets@[l] == offset_of(ls, l as nat, ls.len())
                    + symbols_of(ls, l as nat, i as nat).len(),
            forall|l: nat, k: int|
                1 <= l <= MAX_BITS && 0 <= k < symbols_of(ls, l, i as nat).len()
                    ==> #[trigger] placed(symbols@, ls, l, k),
        decreases n - i,
    {
        let len: usize = lengths[i] as usize;
        if len != 0 {
            let at: u16 = offsets[len];
            let ghost k0 = symbols_of(ls, len as nat, i as nat).len();
            let ghost before = symbols@;
            proof {
                lemma_symbols_prefix(ls, len as nat, (i + 1) as nat, ls.len());
                lemma_offset_bound(ls, (len + 1) as nat, ls.len());
                assert(symbols_of(ls, len as nat, ls.len())[k0 as int] == i) by {
                    let s = symbols_of(ls, len as nat, (i + 1) as nat);
                    assert(s[k0 as int] == i);
                    assert(s == symbols_of(ls, len as nat, ls.len()).take(s.len() as int));
                }
            }
            symbols.set(at as usize, i as u16);
            offsets.set(len, at + 1);
            proof {
                assert forall|l: nat, k: int|
                    1 <= l <= MAX_BITS && 0 <= k < symbols_of(
                        ls,
                        l,
                        (i + 1) as nat,
                    ).len() implies #[trigger] placed(symbols@, ls, l, k) by {
                    if l == len && k == k0 {
                    } else {
                        assert(placed(before, ls, l, k));
                        lemma_symbols_prefix(ls, l, i as nat, ls.len());
                        if l < len {
                            lemma_offset_monotone(ls, l, len as nat, ls.len());
                        } else if l > len {
                            lemma_offset_monotone(ls, len as nat, l, ls.len());
                        }
                    }
                }
            }
        } else {
            assert forall|l: nat, k: int|
                1 <= l <= MAX_BITS && 0 <= k < symbols_of(
                    ls,
                    l,
                    (i + 1) as nat,
                ).len() implies #[trigger] placed(symbols@, ls, l, k) by {
                assert(symbols_of(ls, l, (i + 1) as nat) == symbols_of(ls, l, i as nat));
            }
        }
        i = i + 1;
    }
    symbols
}

pub open spec fn clamp(n: int, lo: int, hi: int) -> int {
    if n < lo {
        0
    } else if n > hi {
        hi - lo
    } else {
        n - lo
    }
}

pub proof fn lemma_fixed_literal_counts(len: nat, n: nat)
    requires
        n <= 288,
    ensures
        symbols_of(fixed_literals(), len, n).len() == if len == 8 {
            clamp(n as int, 0, 144) + clamp(n as int, 280, 288)
        } else if len == 9 {
            clamp(n as int, 144, 256)
        } else if len == 7 {
            clamp(n as int, 256, 280)
        } else {
            0
        },
    decreases n,
{
    if n > 0 {
        lemma_fixed_literal_counts(len, (n - 1) as nat);
    }
}

pub proof fn lemma_fixed_distance_counts(len: nat, n: nat)
    requires
        n <= 30,
    ensures
        symbols_of(fixed_distances(), len, n).len() == if len == 5 {
            n
        } else {
            0
        },
    decreases n,
{
    if n > 0 {
        lemma_fixed_distance_counts(len, (n - 1) as nat);
    }
}

/// The fixed codes are well-formed.
pub proof fn lemma_fixed_codes()
    ensures
        code_error(fixed_literals()) is None,
        code_error(fixed_distances()) is None,
{
    let f = fixed_literals();
    let d = fixed_distances();
    assert forall|l: nat| 1 <= l <= MAX_BITS implies #[trigger] slack(f, l) >= 0 by {
        assert forall|k: nat| count_of(f, k) == if k == 8 {
            152nat
        } else if k == 9 {
            112
        } else if k == 7 {
            24
        } else {
            0
        } by {
            lemma_fixed_literal_counts(k, 288);
        }
        reveal_with_fuel(slack, 16);
    }
    assert forall|l: nat| 1 <= l <= MAX_BITS implies #[trigger] slack(d, l) >= 0 by {
        assert forall|k: nat| count_of(d, k) == if k == 5 {
            30nat
        } else {
            0
        } by {
            lemma_fixed_distance_counts(k, 30);
        }
        reveal_with_fuel(slack, 16);
    }
    lemma_fixed_literal_counts(0, 288);
    lemma_fixed_distance_counts(0, 30);
    assert(forall|i: int| 0 <= i < f.len() ==> #[trigger] f[i] <= 9);
    assert(forall|i: int| 0 <= i < d.len() ==> #[trigger] d[i] == 5);
}

fn fixed_tables() -> (r: Result<(Huffman, Huffman), String>)
    ensures
        r matches Ok((lit, dist)) && lit.inv() && dist.inv() && lit.lengths@ == fixed_literals()
            && dist.lengths@ == fixed_distances(),
{
    proof {
        lemma_fixed_codes();
    }
    let mut lit: Vec<u8> = Vec::new();
    while lit.len() < 288
        invariant
            lit@.len() <= 288,
            forall|i: int| 0 <= i < lit@.len() ==> #[trigger] lit@[i] == fixed_literals()[i],
        decreases 288 - lit@.len(),
    {
        let i: usize = lit.len();
        lit.push(
            if i < 144 {
                8
            } else if i < 256 {
                9
            } else if i < 280 {
                7
            } else {
                8
            },
        );
    }
    assert(lit@ =~= fixed_literals());
    let mut dist: Vec<u8> = Vec::new();
    while dist.len() < 30
        invariant
            dist@.len() <= 30,
            forall|i: int| 0 <= i < dist@.len() ==> #[trigger] dist@[i] == 5,
        decreases 30 - dist@.len(),
    {
        dist.push(5);
    }
    assert(dist@ =~= fixed_distances());
    let l: Huffman = match Huffman::new(lit.as_slice()) {
        Ok(h) => h,
        Err(e) => {
            return Err(e);
        },
    };
    match Huffman::new(dist.as_slice()) {
        Ok(d) => Ok((l, d)),
        Err(e) => Err(e),
    }
}

fn read_clc(r: &mut BitReader, n: usize) -> (res: Result<Vec<u8>, String>)
    requires
        old(r).inv(),
        n <= 19,
    ensures
        clc_from(old(r).b@, old(r).p(), 0, n as nat, Seq::new(19, |i: int| 0u8)) == match res {
            Ok(v) => Ok::<(Seq<u8>, int), Seq<char>>((v@, final(r).p())),
            Err(e) => Err(e@),
        },
        res matches Ok(v) ==> v@.len() == 19 && final(r).inv() && final(r).b == old(r).b,
{
    proof {
        lemma_tables();
        reveal_with_fuel(pow2, 4);
    }
    let mut v: Vec<u8> = Vec::new();
    while v.len() < 19
        invariant
            v@.len() <= 19,
            forall|i: int| 0 <= i < v@.len() ==> #[trigger] v@[i] == 0,
        decreases 19 - v@.len(),
    {
        v.push(0);
    }
    assert(v@ =~= Seq::new(19, |i: int| 0u8));
    let mut j: usize = 0;
    while j < n
        invariant
            j <= n <= 19,
            v@.len() == 19,
            r.inv(),
            r.b == old(r).b,
            pow2(3) == 8,
            forall|i: int| 0 <= i < 19 ==> #[trigger] CLC_ORDER[i] < 19,
            clc_from(r.b@, r.p(), j as nat, n as nat, v@) == clc_from(
                old(r).b@,
                old(r).p(),
                0,
                n as nat,
                Seq::new(19, |i: int| 0u8),
            ),
        decreases n - j,
    {
        match r.bits(3) {
            Ok(x) => {
                v.set(CLC_ORDER[j], x as u8);
            },
            Err(e) => {
                return Err(e);
            },
        }
        j = j + 1;
    }
    Ok(v)
}

/// Apply one code-length symbol.
fn apply_length(r: &mut BitReader, sym: u16, total: usize, acc: &mut Vec<u8>) -> (res: Result<
    (),
    String,
>)
    requires
        old(r).inv(),
        old(acc)@.len() < total <= 1000,
    ensures
        length_step(old(r).b@, old(r).p(), sym as nat, total as nat, old(acc)@) == match res {
            Ok(_) => Ok::<(Seq<u8>, int), Seq<char>>((final(acc)@, final(r).p())),
            Err(e) => Err(e@),
        },
        res is Ok ==> final(r).inv() && final(r).b == old(r).b && old(acc)@.len() < final(acc)@.len()
            <= total,
{
    if sym <= 15 {
        acc.push(sym as u8);
        return Ok(());
    }
    if sym > 18 {
        return Err("invalid code-length symbol".to_owned());
    }
    if sym == 16 && acc.len() == 0 {
        return Err("repeat code with no previous length".to_owned());
    }
    let value: u8 = if sym == 16 {
        acc[acc.len() - 1]
    } else {
        0
    };
    let extra: u8 = if sym == 16 {
        2
    } else if sym == 17 {
        3
    } else {
        7
    };
    proof {
        lemma_pow2_bound(extra as nat);
    }
    let n: usize = match r.bits(extra) {
        Ok(x) => x as usize + (if sym == 18 {
            11
        } else {
            3
        }),
        Err(e) => {
            return Err(e);
        },
    };
    if n > total - acc.len() {
        return Err("code-length run overflows the table".to_owned());
    }
    let ghost before = acc@;
    let mut k: usize = 0;
    assert(acc@ =~= run_of(before, value, 0));
    while k < n
        invariant
            k <= n,
            acc@ == run_of(before, value, k as nat),
        decreases n - k,
    {
        acc.push(value);
        k = k + 1;
        assert(acc@ =~= run_of(before, value, k as nat));
    }
    Ok(())
}

fn read_lengths(r: &mut BitReader, clc: &Huffman, total: usize) -> (res: Result<Vec<u8>, String>)
    requires
        old(r).inv(),
        clc.inv(),
        total <= 1000,
    ensures
        lengths_from(old(r).b@, old(r).p(), clc.lengths@, total as nat, seq![]) == match res {
            Ok(v) => Ok::<(Seq<u8>, int), Seq<char>>((v@, final(r).p())),
            Err(e) => Err(e@),
        },
        res matches Ok(v) ==> v@.len() == total && final(r).inv() && final(r).b == old(r).b,
{
    let mut acc: Vec<u8> = Vec::new();
    while acc.len() < total
        invariant
            acc@.len() <= total <= 1000,
            r.inv(),
            clc.inv(),
            r.b == old(r).b,
            lengths_from(r.b@, r.p(), clc.lengths@, total as nat, acc@) == lengths_from(
                old(r).b@,
                old(r).p(),
                clc.lengths@,
                total as nat,
                seq![],
            ),
        decreases total - acc@.len(),
    {
        let sym: u16 = match clc.decode(r) {
            Ok(s) => s,
            Err(e) => {
                return Err(e);
            },
        };
        match apply_length(r, sym, total, &mut acc) {
            Ok(_) => {},
            Err(e) => {
                return Err(e);
            },
        }
    }
    Ok(acc)
}

fn dynamic_tables(r: &mut BitReader) -> (res: Result<(Huffman, Huffman), String>)
    requires
        old(r).inv(),
    ensures
        match res {
            Ok((lit, dist)) => lit.inv() && dist.inv() && final(r).inv() && final(r).b == old(r).b
                && dynamic_at(old(r).b@, old(r).p()) == Ok::<
                (Seq<u8>, Seq<u8>, int),
                Seq<char>,
            >((lit.lengths@, dist.lengths@, final(r).p())),
            Err(e) => dynamic_at(old(r).b@, old(r).p()) == Err::<
                (Seq<u8>, Seq<u8>, int),
                Seq<char>,
            >(e@),
        },
{
    proof {
        lemma_pow2_bound(5);
        reveal_with_fuel(pow2, 6);
    }
    let hlit: usize = match r.bits(5) {
        Ok(v) => v as usize + 257,
        Err(e) => {
            return Err(e);
        },
    };
    let hdist: usize = match r.bits(5) {
        Ok(v) => v as usize + 1,
        Err(e) => {
            return Err(e);
        },
    };
    let hclen: usize = match r.bits(4) {
        Ok(v) => v as usize + 4,
        Err(e) => {
            return Err(e);
        },
    };
    if hlit > 286 || hdist > 30 {
        return Err("dynamic header declares too many codes".to_owned());
    }
    let clc_lengths: Vec<u8> = match read_clc(r, hclen) {
        Ok(v) => v,
        Err(e) => {
            return Err(e);
        },
    };
    let clc: Huffman = match Huffman::new(clc_lengths.as_slice()) {
        Ok(h) => h,
        Err(e) => {
            return Err(e);
        },
    };
    let lengths: Vec<u8> = match read_lengths(r, &clc, hlit + hdist) {
        Ok(v) => v,
        Err(e) => {
            return Err(e);
        },
    };
    assert(lengths@.subrange(0, hlit as int) =~= lengths@.take(hlit as int));
    assert(lengths@.subrange(hlit as int, lengths@.len() as int) =~= lengths@.skip(hlit as int));
    let lit: Huffman = match Huffman::new(slice_subrange(lengths.as_slice(), 0, hlit)) {
        Ok(h) => h,
        Err(e) => {
            return Err(e);
        },
    };
    let dist: Huffman = match Huffman::new_or_empty(
        slice_subrange(lengths.as_slice(), hlit, lengths.len()),
    ) {
        Ok(h) => h,
        Err(e) => {
            return Err(e);
        },
    };
    Ok((lit, dist))
}

// ---------------------------------------------------------------------------
// Decoder
// ---------------------------------------------------------------------------

fn stored_block(r: &mut BitReader, out: &mut Vec<u8>, max_out: usize) -> (res: Result<(), String>)
    requires
        old(r).inv(),
    ensures
        stored_at(old(r).b@, old(r).p(), old(out)@, max_out as nat) == match res {
            Ok(_) => Ok::<(Seq<u8>, int), Seq<char>>((final(out)@, final(r).p())),
            Err(e) => Err(e@),
        },
        res is Ok ==> final(r).inv() && final(r).b == old(r).b,
{
    r.align_byte();
    let hdr: usize = match r.take(4) {
        Ok(p) => p,
        Err(e) => {
            return Err(e);
        },
    };
    let len: u16 = u16le(r.b, hdr);
    let nlen: u16 = u16le(r.b, hdr + 2);
    if nlen != 0xffff - len {
        return Err("stored block LEN/NLEN mismatch".to_owned());
    }
    let start: usize = match r.take(len as usize) {
        Ok(p) => p,
        Err(e) => {
            return Err(e);
        },
    };
    let room: usize = if out.len() < max_out {
        max_out - out.len()
    } else {
        0
    };
    let want: usize = if room < len as usize {
        room
    } else {
        len as usize
    };
    put_bytes(out, slice_subrange(r.b, start, start + want));
    Ok(())
}

fn copy_back(out: &mut Vec<u8>, d: usize, len: usize, max_out: usize)
    requires
        1 <= d <= old(out)@.len(),
    ensures
        final(out)@ == copied(old(out)@, d as nat, len as nat, max_out as nat),
{
    let mut k: usize = len;
    while k > 0
        invariant
            1 <= d <= out@.len(),
            copied(out@, d as nat, k as nat, max_out as nat) == copied(
                old(out)@,
                d as nat,
                len as nat,
                max_out as nat,
            ),
        decreases k,
    {
        let byte: u8 = out[out.len() - d];
        out.push(byte);
        if out.len() >= max_out {
            return;
        }
        k = k - 1;
    }
}

fn read_reference(r: &mut BitReader, dist: &Huffman, sym: u16) -> (res: Result<
    (usize, usize),
    String,
>)
    requires
        old(r).inv(),
        dist.inv(),
        257 <= sym <= 285,
    ensures
        reference_at(dist.lengths@, old(r).b@, old(r).p(), sym as nat) == match res {
            Ok((len, d)) => Ok::<(nat, nat, int), Seq<char>>((len as nat, d as nat, final(r).p())),
            Err(e) => Err(e@),
        },
        res matches Ok((len, d)) ==> 1 <= d && final(r).inv() && final(r).b == old(r).b,
{
    proof {
        lemma_tables();
        lemma_pow2_bound(5);
    }
    let idx: usize = (sym - 257) as usize;
    proof {
        lemma_pow2_bound(LEN_EXTRA[idx as int] as nat);
    }
    let len: usize = match r.bits(LEN_EXTRA[idx]) {
        Ok(v) => LEN_BASE[idx] as usize + v as usize,
        Err(e) => {
            return Err(e);
        },
    };
    let dsym: usize = match dist.decode(r) {
        Ok(s) => s as usize,
        Err(e) => {
            return Err(e);
        },
    };
    if dsym >= 30 {
        return Err("invalid distance symbol".to_owned());
    }
    proof {
        lemma_pow2_bound(DIST_EXTRA[dsym as int] as nat);
    }
    match r.bits(DIST_EXTRA[dsym]) {
        Ok(v) => Ok((len, DIST_BASE[dsym] as usize + v as usize)),
        Err(e) => Err(e),
    }
}

fn huffman_block(
    r: &mut BitReader,
    lit: &Huffman,
    dist: &Huffman,
    out: &mut Vec<u8>,
    max_out: usize,
) -> (res: Result<(), String>)
    requires
        old(r).inv(),
        lit.inv(),
        dist.inv(),
    ensures
        huffman_from(
            lit.lengths@,
            dist.lengths@,
            old(r).b@,
            old(r).p(),
            old(out)@,
            max_out as nat,
        ) == match res {
            Ok(_) => Ok::<(Seq<u8>, int), Seq<char>>((final(out)@, final(r).p())),
            Err(e) => Err(e@),
        },
        res is Ok ==> final(r).inv() && final(r).b == old(r).b,
{
    loop
        invariant
            r.inv(),
            lit.inv(),
            dist.inv(),
            r.b == old(r).b,
            huffman_from(lit.lengths@, dist.lengths@, r.b@, r.p(), out@, max_out as nat)
                == huffman_from(
                lit.lengths@,
                dist.lengths@,
                old(r).b@,
                old(r).p(),
                old(out)@,
                max_out as nat,
            ),
        decreases 8 * r.b@.len() - r.p(),
    {
        proof {
            lemma_decode_progress(lit.lengths@, r.b@, r.p(), 1, 0);
        }
        let sym: u16 = match lit.decode(r) {
            Ok(s) => s,
            Err(e) => {
                return Err(e);
            },
        };
        if sym <= 255 {
            out.push(sym as u8);
            if out.len() >= max_out {
                return Ok(());
            }
        } else if sym == 256 {
            return Ok(());
        } else if sym <= 285 {
            proof {
                lemma_reference_progress(dist.lengths@, r.b@, r.p(), sym as nat);
            }
            let (len, d) = match read_reference(r, dist, sym) {
                Ok(p) => p,
                Err(e) => {
                    return Err(e);
                },
            };
            if d > out.len() {
                return Err("back-reference before start of output".to_owned());
            }
            copy_back(out, d, len, max_out);
            if out.len() >= max_out {
                return Ok(());
            }
        } else {
            return Err("invalid literal/length symbol".to_owned());
        }
    }
}

fn block(r: &mut BitReader, kind: u32, out: &mut Vec<u8>, max_out: usize) -> (res: Result<
    (),
    String,
>)
    requires
        old(r).inv(),
    ensures
        block_at(old(r).b@, old(r).p(), kind as nat, old(out)@, max_out as nat) == match res {
            Ok(_) => Ok::<(Seq<u8>, int), Seq<char>>((final(out)@, final(r).p())),
            Err(e) => Err(e@),
        },
        res is Ok ==> final(r).inv() && final(r).b == old(r).b,
{
    if kind == 0 {
        stored_block(r, out, max_out)
    } else if kind == 1 {
        match fixed_tables() {
            Ok((lit, dist)) => huffman_block(r, &lit, &dist, out, max_out),
            Err(e) => Err(e),
        }
    } else if kind == 2 {
        match dynamic_tables(r) {
            Ok((lit, dist)) => huffman_block(r, &lit, &dist, out, max_out),
            Err(e) => Err(e),
        }
    } else {
        Err("reserved block type 3".to_owned())
    }
}

/// Decompress up to `max_out` bytes from a raw DEFLATE stream.
#[verifier::rlimit(50)]
pub fn inflate_prefix(input: &[u8], max_out: usize) -> (res: Result<Inflated, String>)
    ensures
        inflated(input@, max_out as nat) == match res {
            Ok(r) => Ok::<(Seq<u8>, bool), Seq<char>>((r.data@, r.complete)),
            Err(e) => Err(e@),
        },
{
    let n: usize = input.len();
    let mut r = BitReader { b: input, pos: 0, bit: 0 };
    let mut out: Vec<u8> = Vec::new();
    assert(r.inv() && n == input@.len());
    loop
        invariant
            r.inv(),
            r.b == input,
            blocks_from(input@, r.p(), out@, max_out as nat) == inflated(
                input@,
                max_out as nat,
            ),
        decreases 8 * input@.len() - r.p(),
    {
        let ghost p = r.p();
        let last: u32 = match r.bits(1) {
            Ok(v) => v,
            Err(e) => {
                return Err(e);
            },
        };
        let kind: u32 = match r.bits(2) {
            Ok(v) => v,
            Err(e) => {
                return Err(e);
            },
        };
        proof {
            lemma_block_progress(input@, p + 3, kind as nat, out@, max_out as nat);
        }
        match block(&mut r, kind, &mut out, max_out) {
            Ok(_) => {},
            Err(e) => {
                return Err(e);
            },
        }
        if out.len() >= max_out {
            let ghost all = out@;
            out.truncate(max_out);
            assert(out@ =~= all.take(max_out as int));
            return Ok(Inflated { data: out, complete: false });
        }
        if last == 1 {
            return Ok(Inflated { data: out, complete: true });
        }
    }
}

} // verus!
