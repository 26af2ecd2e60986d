//! What a compressed block means: bits, numbers, back-references and the code
//! lengths in front of a dynamic block, each written out as the format has
//! them and read back.

use vstd::prelude::*;
use crate::bytes::le;
use crate::inflate::{bit_at, bits_at, bits_value, block_at, blocks_from, byte_after, clc_from, code_error, copied, decode_at, dynamic_at, fixed_distances, fixed_literals, huffman_from, inflated, length_error, length_step, lengths_from, lemma_block_progress, lemma_fixed_codes, pow2, reference_at, run_of, stored_at, CLC_ORDER, DIST_BASE, DIST_EXTRA, LEN_BASE, LEN_EXTRA};
use crate::laws::huffman::{code_bits, code_of, law_code_decodes_to_symbol, law_fixed_codes, lemma_code_fits, lemma_pow2_positive};

verus! {

// ---------------------------------------------------------------------------
// Bits
// ---------------------------------------------------------------------------

/// A bit as a number; beyond the end there are zeros.
pub open spec fn digit_of(s: Seq<bool>, i: int) -> nat {
    if 0 <= i < s.len() && s[i] {
        1
    } else {
        0
    }
}

/// Bits in bytes, the first of eight lowest.
pub open spec fn packed(s: Seq<bool>) -> Seq<u8> {
    Seq::new(
        ((s.len() + 7) / 8) as nat,
        |i: int|
            (digit_of(s, 8 * i) + 2 * digit_of(s, 8 * i + 1) + 4 * digit_of(s, 8 * i + 2) + 8
                * digit_of(s, 8 * i + 3) + 16 * digit_of(s, 8 * i + 4) + 32 * digit_of(s, 8 * i + 5)
                + 64 * digit_of(s, 8 * i + 6) + 128 * digit_of(s, 8 * i + 7)) as u8,
    )
}

/// The bits `s` stand in `b` from bit `p` on.
pub open spec fn has_bits(b: Seq<u8>, p: int, s: Seq<bool>) -> bool {
    &&& 0 <= p
    &&& p + s.len() <= 8 * b.len()
    &&& forall|i: int| 0 <= i < s.len() ==> bit_at(b, p + i) == digit_of(s, #[trigger] (i + 0))
}

proof fn lemma_byte_bits(v: int, a: int, b: int, c: int, d: int, e: int, f: int, g: int, h: int)
    requires
        0 <= a <= 1,
        0 <= b <= 1,
        0 <= c <= 1,
        0 <= d <= 1,
        0 <= e <= 1,
        0 <= f <= 1,
        0 <= g <= 1,
        0 <= h <= 1,
        v == a + 2 * b + 4 * c + 8 * d + 16 * e + 32 * f + 64 * g + 128 * h,
    ensures
        v % 2 == a,
        (v / 2) % 2 == b,
        (v / 4) % 2 == c,
        (v / 8) % 2 == d,
        (v / 16) % 2 == e,
        (v / 32) % 2 == f,
        (v / 64) % 2 == g,
        (v / 128) % 2 == h,
        0 <= v <= 255,
{
}

/// The decoder takes bits from the bytes in the order they were put in.
pub proof fn law_bits_are_packed_low_first(s: Seq<bool>)
    ensures
        has_bits(packed(s), 0, s),
{
    let b = packed(s);
    assert forall|i: int| 0 <= i < s.len() implies bit_at(b, 0 + i) == digit_of(
        s,
        #[trigger] (i + 0),
    ) by {
        let k = i / 8;
        let v = b[k] as int;
        lemma_byte_bits(
            (digit_of(s, 8 * k) + 2 * digit_of(s, 8 * k + 1) + 4 * digit_of(s, 8 * k + 2) + 8
                * digit_of(s, 8 * k + 3) + 16 * digit_of(s, 8 * k + 4) + 32 * digit_of(s, 8 * k + 5)
                + 64 * digit_of(s, 8 * k + 6) + 128 * digit_of(s, 8 * k + 7)) as int,
            digit_of(s, 8 * k) as int,
            digit_of(s, 8 * k + 1) as int,
            digit_of(s, 8 * k + 2) as int,
            digit_of(s, 8 * k + 3) as int,
            digit_of(s, 8 * k + 4) as int,
            digit_of(s, 8 * k + 5) as int,
            digit_of(s, 8 * k + 6) as int,
            digit_of(s, 8 * k + 7) as int,
        );
        reveal_with_fuel(pow2, 9);
        let r = i % 8;
        assert(r == 0 || r == 1 || r == 2 || r == 3 || r == 4 || r == 5 || r == 6 || r == 7);
        assert(i == 8 * k + r);
    }
}

proof fn lemma_bits_split(b: Seq<u8>, p: int, x: Seq<bool>, y: Seq<bool>)
    requires
        has_bits(b, p, x + y),
    ensures
        has_bits(b, p, x),
        has_bits(b, p + x.len(), y),
{
    let w = x + y;
    assert forall|i: int| 0 <= i < x.len() implies bit_at(b, p + i) == digit_of(
        x,
        #[trigger] (i + 0),
    ) by {
        assert(bit_at(b, p + i) == digit_of(w, i + 0));
        assert(w[i] == x[i]);
    }
    assert forall|i: int| 0 <= i < y.len() implies bit_at(b, p + x.len() + i) == digit_of(
        y,
        #[trigger] (i + 0),
    ) by {
        let j = x.len() + i;
        assert(bit_at(b, p + j) == digit_of(w, j + 0));
        assert(w[j] == y[i]);
    }
}

/// A number of `n` bits, lowest first.
pub open spec fn low_first(x: nat, n: nat) -> Seq<bool>
    decreases n,
{
    if n == 0 {
        seq![]
    } else {
        let h = pow2((n - 1) as nat);
        low_first(x % h, (n - 1) as nat).push(x >= h)
    }
}

/// A number of `n` bits, highest first.
pub open spec fn high_first(x: nat, n: nat) -> Seq<bool>
    decreases n,
{
    if n == 0 {
        seq![]
    } else {
        high_first(x / 2, (n - 1) as nat).push(x % 2 == 1)
    }
}

proof fn lemma_widths(x: nat, n: nat)
    ensures
        low_first(x, n).len() == n,
        high_first(x, n).len() == n,
    decreases n,
{
    if n > 0 {
        lemma_pow2_positive((n - 1) as nat);
        lemma_widths(x % pow2((n - 1) as nat), (n - 1) as nat);
        lemma_widths(x / 2, (n - 1) as nat);
    }
}

/// Numbers are read lowest bit first.
pub proof fn law_numbers_are_low_first(b: Seq<u8>, p: int, x: nat, n: nat)
    requires
        has_bits(b, p, low_first(x, n)),
        x < pow2(n),
    ensures
        bits_at(b, p, n) == Ok::<nat, Seq<char>>(x),
    decreases n,
{
    lemma_widths(x, n);
    if n > 0 {
        let m = (n - 1) as nat;
        let h = pow2(m);
        lemma_pow2_positive(m);
        let y = x % h;
        let s = low_first(y, m);
        lemma_widths(y, m);
        assert(low_first(x, n) =~= s + seq![x >= h]);
        lemma_bits_split(b, p, s, seq![x >= h]);
        law_numbers_are_low_first(b, p, y, m);
        assert(bit_at(b, p + m + 0) == digit_of(seq![x >= h], 0int + 0));
        if x >= h {
            vstd::arithmetic::div_mod::lemma_fundamental_div_mod_converse(
                x as int,
                h as int,
                1,
                x - h,
            );
            assert(h * 1 == h);
        } else {
            vstd::arithmetic::div_mod::lemma_small_mod(x, h);
            assert(h * 0 == 0);
        }
        assert(bits_value(b, p, n) == bits_value(b, p, m) + h * bit_at(b, p + n - 1));
    }
}

proof fn lemma_code_read(b: Seq<u8>, p: int, x: nat, n: nat)
    requires
        has_bits(b, p, high_first(x, n)),
        x < pow2(n),
    ensures
        code_bits(b, p, n) == x,
    decreases n,
{
    lemma_widths(x, n);
    if n > 0 {
        let m = (n - 1) as nat;
        let s = high_first(x / 2, m);
        lemma_widths(x / 2, m);
        assert(high_first(x, n) =~= s + seq![x % 2 == 1]);
        lemma_bits_split(b, p, s, seq![x % 2 == 1]);
        lemma_code_read(b, p, x / 2, m);
        assert(bit_at(b, p + m + 0) == digit_of(seq![x % 2 == 1], 0int + 0));
    }
}

// ---------------------------------------------------------------------------
// Symbols
// ---------------------------------------------------------------------------

/// Whether a symbol has a code.
pub open spec fn has_code(lengths: Seq<u8>, sym: nat) -> bool {
    sym < lengths.len() && 1 <= lengths[sym as int] <= 15
}

/// A symbol in a Huffman code: its code, highest bit first.
pub open spec fn symbol_bits(lengths: Seq<u8>, sym: nat) -> Seq<bool> {
    high_first(code_of(lengths, sym), lengths[sym as int] as nat)
}

proof fn lemma_symbol_read(lengths: Seq<u8>, b: Seq<u8>, p: int, sym: nat)
    requires
        has_code(lengths, sym),
        length_error(lengths) is None,
        has_bits(b, p, symbol_bits(lengths, sym)),
    ensures
        symbol_bits(lengths, sym).len() == lengths[sym as int],
        decode_at(lengths, b, p) == Ok::<(nat, int), Seq<char>>(
            (sym, p + symbol_bits(lengths, sym).len()),
        ),
{
    let l = lengths[sym as int] as nat;
    lemma_widths(code_of(lengths, sym), l);
    lemma_code_fits(lengths, sym);
    lemma_code_read(b, p, code_of(lengths, sym), l);
    law_code_decodes_to_symbol(lengths, b, p, sym);
}

// ---------------------------------------------------------------------------
// Lengths and distances
// ---------------------------------------------------------------------------

/// How many extra bits a match length takes: none up to 10 and for the
/// longest, and then one more each time the range doubles.
pub open spec fn length_extra(l: nat) -> nat {
    if l <= 10 || l == 258 {
        0
    } else if l <= 18 {
        1
    } else if l <= 34 {
        2
    } else if l <= 66 {
        3
    } else if l <= 130 {
        4
    } else {
        5
    }
}

/// The symbol of a match length: consecutive ones up to 10, four for each
/// number of extra bits after that, and one of its own for the longest.
pub open spec fn length_symbol(l: nat) -> nat {
    if l == 258 {
        285
    } else if l <= 10 {
        254 + l
    } else {
        let e = length_extra(l);
        (257 + 4 * e + (l - 3) as nat / pow2(e)) as nat
    }
}

/// What the extra bits of a match length hold.
pub open spec fn length_rest(l: nat) -> nat {
    if l == 258 {
        0
    } else {
        (l - 3) as nat % pow2(length_extra(l))
    }
}

/// How many extra bits a distance takes: none up to 4, and then one more each
/// time the distance doubles.
pub open spec fn distance_extra(d: nat) -> nat
    decreases d,
{
    if d <= 4 {
        0
    } else {
        1 + distance_extra(((d + 1) / 2) as nat)
    }
}

/// The symbol of a distance: two for each number of extra bits.
pub open spec fn distance_symbol(d: nat) -> nat {
    let e = distance_extra(d);
    (2 * e + (d - 1) as nat / pow2(e)) as nat
}

/// What the extra bits of a distance hold.
pub open spec fn distance_rest(d: nat) -> nat {
    (d - 1) as nat % pow2(distance_extra(d))
}

proof fn lemma_length_symbol(l: nat)
    requires
        3 <= l <= 258,
    ensures
        257 <= length_symbol(l) <= 285,
        LEN_EXTRA[length_symbol(l) - 257] == length_extra(l),
        LEN_BASE[length_symbol(l) - 257] + length_rest(l) == l,
        length_rest(l) < pow2(length_extra(l)),
{
    reveal_with_fuel(pow2, 6);
    let e = length_extra(l);
    if l == 258 || l <= 10 {
    } else if e == 1 {
        let q = (l - 3) / 2;
        assert(q == 4 || q == 5 || q == 6 || q == 7);
    } else if e == 2 {
        let q = (l - 3) / 4;
        assert(q == 4 || q == 5 || q == 6 || q == 7);
    } else if e == 3 {
        let q = (l - 3) / 8;
        assert(q == 4 || q == 5 || q == 6 || q == 7);
    } else if e == 4 {
        let q = (l - 3) / 16;
        assert(q == 4 || q == 5 || q == 6 || q == 7);
    } else {
        let q = (l - 3) / 32;
        assert(q == 4 || q == 5 || q == 6 || q == 7);
    }
}

/// The range of distances with `e` extra bits.
proof fn lemma_distance_extra(d: nat)
    requires
        1 <= d <= 32768,
    ensures
        d <= 4 ==> distance_extra(d) == 0,
        5 <= d <= 8 ==> distance_extra(d) == 1,
        9 <= d <= 16 ==> distance_extra(d) == 2,
        17 <= d <= 32 ==> distance_extra(d) == 3,
        33 <= d <= 64 ==> distance_extra(d) == 4,
        65 <= d <= 128 ==> distance_extra(d) == 5,
        129 <= d <= 256 ==> distance_extra(d) == 6,
        257 <= d <= 512 ==> distance_extra(d) == 7,
        513 <= d <= 1024 ==> distance_extra(d) == 8,
        1025 <= d <= 2048 ==> distance_extra(d) == 9,
        2049 <= d <= 4096 ==> distance_extra(d) == 10,
        4097 <= d <= 8192 ==> distance_extra(d) == 11,
        8193 <= d <= 16384 ==> distance_extra(d) == 12,
        16385 <= d ==> distance_extra(d) == 13,
    decreases d,
{
    if d > 4 {
        lemma_distance_extra(((d + 1) / 2) as nat);
    }
}

spec fn distance_fits(d: nat) -> bool {
    &&& distance_symbol(d) < 30
    &&& DIST_EXTRA[distance_symbol(d) as int] == distance_extra(d)
    &&& DIST_BASE[distance_symbol(d) as int] + distance_rest(d) == d
    &&& distance_rest(d) < pow2(distance_extra(d))
}

proof fn lemma_short_distance(d: nat)
    requires
        1 <= d <= 256,
    ensures
        distance_fits(d),
{
    lemma_distance_extra(d);
    reveal_with_fuel(pow2, 7);
    if d <= 4 {
        assert((d - 1) as nat / 1 == d - 1);
    } else if d <= 8 {
        let q = (d - 1) / 2;
        assert(q == 2 || q == 3);
    } else if d <= 16 {
        let q = (d - 1) / 4;
        assert(q == 2 || q == 3);
    } else if d <= 32 {
        let q = (d - 1) / 8;
        assert(q == 2 || q == 3);
    } else if d <= 64 {
        let q = (d - 1) / 16;
        assert(q == 2 || q == 3);
    } else if d <= 128 {
        let q = (d - 1) / 32;
        assert(q == 2 || q == 3);
    } else {
        let q = (d - 1) / 64;
        assert(q == 2 || q == 3);
    }
}

proof fn lemma_long_distance(d: nat)
    requires
        256 < d <= 32768,
    ensures
        distance_fits(d),
{
    lemma_distance_extra(d);
    reveal_with_fuel(pow2, 14);
    if d <= 512 {
        let q = (d - 1) / 128;
        assert(q == 2 || q == 3);
    } else if d <= 1024 {
        let q = (d - 1) / 256;
        assert(q == 2 || q == 3);
    } else if d <= 2048 {
        let q = (d - 1) / 512;
        assert(q == 2 || q == 3);
    } else if d <= 4096 {
        let q = (d - 1) / 1024;
        assert(q == 2 || q == 3);
    } else if d <= 8192 {
        let q = (d - 1) / 2048;
        assert(q == 2 || q == 3);
    } else if d <= 16384 {
        let q = (d - 1) / 4096;
        assert(q == 2 || q == 3);
    } else {
        let q = (d - 1) / 8192;
        assert(q == 2 || q == 3);
    }
}

/// What follows the length symbol of a match.
pub open spec fn match_tail(dist: Seq<u8>, l: nat, d: nat) -> Seq<bool> {
    low_first(length_rest(l), length_extra(l)) + symbol_bits(dist, distance_symbol(d)) + low_first(
        distance_rest(d),
        distance_extra(d),
    )
}

/// A back-reference is read for what it says: every length from 3 to 258 and
/// every distance from 1 to 32768, written as its symbols and extra bits, comes
/// out as that very length and distance.
pub proof fn law_reference_is_read(dist: Seq<u8>, b: Seq<u8>, p: int, l: nat, d: nat)
    requires
        3 <= l <= 258,
        1 <= d <= 32768,
        length_error(dist) is None,
        has_code(dist, distance_symbol(d)),
        has_bits(b, p, match_tail(dist, l, d)),
    ensures
        257 <= length_symbol(l) <= 285,
        reference_at(dist, b, p, length_symbol(l)) == Ok::<(nat, nat, int), Seq<char>>(
            (l, d, p + match_tail(dist, l, d).len()),
        ),
{
    lemma_length_symbol(l);
    if d <= 256 {
        lemma_short_distance(d);
    } else {
        lemma_long_distance(d);
    }
    let x = low_first(length_rest(l), length_extra(l));
    let y = symbol_bits(dist, distance_symbol(d));
    let z = low_first(distance_rest(d), distance_extra(d));
    lemma_widths(length_rest(l), length_extra(l));
    lemma_widths(distance_rest(d), distance_extra(d));
    lemma_bits_split(b, p, x + y, z);
    lemma_bits_split(b, p, x, y);
    law_numbers_are_low_first(b, p, length_rest(l), length_extra(l));
    lemma_symbol_read(dist, b, p + x.len(), distance_symbol(d));
    law_numbers_are_low_first(b, p + x.len() + y.len(), distance_rest(d), distance_extra(d));
}

// ---------------------------------------------------------------------------
// Literals and matches
// ---------------------------------------------------------------------------

/// What a compressed block is made of.
pub ghost enum Token {
    Byte(u8),
    Match(nat, nat),
}

/// The data after one more token: the byte, or as many bytes as the match is
/// long, which repeat the last ones.
pub open spec fn extended(out: Seq<u8>, t: Token) -> Seq<u8> {
    match t {
        Token::Byte(c) => out + seq![c],
        Token::Match(l, d) => repeated(out, d, l),
    }
}

/// `n` more bytes, which repeat the last `d` ones over and over.
pub open spec fn repeated(out: Seq<u8>, d: nat, n: nat) -> Seq<u8> {
    out + Seq::new(n, |i: int| out[out.len() - d + i % (d as int)])
}

/// The data that tokens stand for, after `out`.
pub open spec fn expanded(out: Seq<u8>, ts: Seq<Token>) -> Seq<u8>
    decreases ts.len(),
{
    if ts.len() == 0 {
        out
    } else {
        expanded(extended(out, ts[0]), ts.skip(1))
    }
}

/// Whether a token may follow `n` bytes of data, and has codes.
pub open spec fn token_sound(lit: Seq<u8>, dist: Seq<u8>, n: nat, t: Token) -> bool {
    match t {
        Token::Byte(c) => has_code(lit, c as nat),
        Token::Match(l, d) => {
            &&& 3 <= l <= 258
            &&& 1 <= d <= 32768
            &&& d <= n
            &&& has_code(lit, length_symbol(l))
            &&& has_code(dist, distance_symbol(d))
        },
    }
}

/// Whether each token may follow those before it.
pub open spec fn tokens_sound(lit: Seq<u8>, dist: Seq<u8>, out: Seq<u8>, ts: Seq<Token>) -> bool
    decreases ts.len(),
{
    if ts.len() == 0 {
        has_code(lit, 256)
    } else {
        &&& token_sound(lit, dist, out.len(), ts[0])
        &&& tokens_sound(lit, dist, extended(out, ts[0]), ts.skip(1))
    }
}

pub open spec fn token_bits(lit: Seq<u8>, dist: Seq<u8>, t: Token) -> Seq<bool> {
    match t {
        Token::Byte(c) => symbol_bits(lit, c as nat),
        Token::Match(l, d) => symbol_bits(lit, length_symbol(l)) + match_tail(dist, l, d),
    }
}

/// Tokens, and the symbol that ends a block.
pub open spec fn tokens_bits(lit: Seq<u8>, dist: Seq<u8>, ts: Seq<Token>) -> Seq<bool>
    decreases ts.len(),
{
    if ts.len() == 0 {
        symbol_bits(lit, 256)
    } else {
        token_bits(lit, dist, ts[0]) + tokens_bits(lit, dist, ts.skip(1))
    }
}

proof fn lemma_repeat_one(out: Seq<u8>, d: nat, k: nat)
    requires
        1 <= d <= out.len(),
    ensures
        ({
            let r = repeated(out, d, k);
            r.push(r[r.len() - d]) == repeated(out, d, k + 1)
        }),
{
    let r = repeated(out, d, k);
    let at = r.len() - d;
    let w = repeated(out, d, k + 1);
    vstd::arithmetic::div_mod::lemma_mod_bound(k as int, d as int);
    assert forall|i: int| 0 <= i < k + 1 implies 0 <= out.len() - d + #[trigger] (i % (d as int))
        < out.len() by {
        vstd::arithmetic::div_mod::lemma_mod_bound(i, d as int);
    }
    if k < d {
        vstd::arithmetic::div_mod::lemma_small_mod(k, d);
        assert(r[at] == out[at]);
    } else {
        vstd::arithmetic::div_mod::lemma_mod_add_multiples_vanish(k - d, d as int);
        assert((k - d) % (d as int) == k as int % (d as int));
        assert(r[at] == out[out.len() - d + (k - d) % (d as int)]);
    }
    assert(r.push(r[at]) =~= w);
}

proof fn lemma_copies(out: Seq<u8>, d: nat, k: nat, n: nat, max: nat)
    requires
        1 <= d <= out.len(),
        out.len() + k + n < max,
    ensures
        copied(repeated(out, d, k), d, n, max) == repeated(out, d, k + n),
    decreases n,
{
    if n > 0 {
        lemma_repeat_one(out, d, k);
        lemma_copies(out, d, k + 1, (n - 1) as nat, max);
        assert(k + 1 + (n - 1) as nat == k + n);
    }
}

proof fn lemma_only_grows(out: Seq<u8>, ts: Seq<Token>)
    ensures
        expanded(out, ts).len() >= out.len(),
    decreases ts.len(),
{
    if ts.len() > 0 {
        lemma_only_grows(extended(out, ts[0]), ts.skip(1));
    }
}

/// One token is read, and the decoder goes on behind it.
proof fn lemma_token_read(
    lit: Seq<u8>,
    dist: Seq<u8>,
    b: Seq<u8>,
    p: int,
    out: Seq<u8>,
    t: Token,
    max: nat,
)
    requires
        length_error(lit) is None,
        length_error(dist) is None,
        token_sound(lit, dist, out.len(), t),
        has_bits(b, p, token_bits(lit, dist, t)),
        extended(out, t).len() < max,
    ensures
        huffman_from(lit, dist, b, p, out, max) == huffman_from(
            lit,
            dist,
            b,
            p + token_bits(lit, dist, t).len(),
            extended(out, t),
            max,
        ),
{
    match t {
        Token::Byte(c) => {
            lemma_symbol_read(lit, b, p, c as nat);
            assert(out.push(c) =~= extended(out, t));
        },
        Token::Match(l, d) => {
            let y = symbol_bits(lit, length_symbol(l));
            lemma_bits_split(b, p, y, match_tail(dist, l, d));
            lemma_symbol_read(lit, b, p, length_symbol(l));
            law_reference_is_read(dist, b, p + y.len(), l, d);
            assert(repeated(out, d, 0) =~= out);
            lemma_copies(out, d, 0, l, max);
        },
    }
}

/// Decoding a block undoes writing it, in any code: the data come out that the
/// literals and matches stand for, and the reader stands behind the symbol that
/// ends the block.
pub proof fn law_tokens_are_undone(
    lit: Seq<u8>,
    dist: Seq<u8>,
    b: Seq<u8>,
    p: int,
    out: Seq<u8>,
    ts: Seq<Token>,
    max: nat,
)
    requires
        length_error(lit) is None,
        length_error(dist) is None,
        tokens_sound(lit, dist, out, ts),
        has_bits(b, p, tokens_bits(lit, dist, ts)),
        expanded(out, ts).len() < max,
    ensures
        huffman_from(lit, dist, b, p, out, max) == Ok::<(Seq<u8>, int), Seq<char>>(
            (expanded(out, ts), p + tokens_bits(lit, dist, ts).len()),
        ),
    decreases ts.len(),
{
    if ts.len() == 0 {
        lemma_symbol_read(lit, b, p, 256);
    } else {
        let t = ts[0];
        let x = token_bits(lit, dist, t);
        let rest = ts.skip(1);
        let next = extended(out, t);
        lemma_bits_split(b, p, x, tokens_bits(lit, dist, rest));
        lemma_only_grows(next, rest);
        lemma_token_read(lit, dist, b, p, out, t, max);
        law_tokens_are_undone(lit, dist, b, p + x.len(), next, rest, max);
    }
}

/// A match may not reach back before the first byte.
pub proof fn law_far_match_is_refused(
    lit: Seq<u8>,
    dist: Seq<u8>,
    b: Seq<u8>,
    p: int,
    out: Seq<u8>,
    l: nat,
    d: nat,
    max: nat,
)
    requires
        length_error(lit) is None,
        length_error(dist) is None,
        3 <= l <= 258,
        out.len() < d <= 32768,
        has_code(lit, length_symbol(l)),
        has_code(dist, distance_symbol(d)),
        has_bits(b, p, token_bits(lit, dist, Token::Match(l, d))),
    ensures
        huffman_from(lit, dist, b, p, out, max) == Err::<(Seq<u8>, int), Seq<char>>(
            "back-reference before start of output"@,
        ),
{
    let y = symbol_bits(lit, length_symbol(l));
    lemma_bits_split(b, p, y, match_tail(dist, l, d));
    lemma_symbol_read(lit, b, p, length_symbol(l));
    law_reference_is_read(dist, b, p + y.len(), l, d);
}

// ---------------------------------------------------------------------------
// Code lengths
// ---------------------------------------------------------------------------

/// How a table of code lengths is written down, in steps: one length, the
/// previous one three to six times more, three to ten zeros, or eleven to 138.
pub ghost enum Step {
    Length(u8),
    Again(nat),
    Zeros(nat),
    ManyZeros(nat),
}

pub open spec fn times(v: u8, n: nat) -> Seq<u8> {
    Seq::new(n, |i: int| v)
}

/// The lengths after one more step.
pub open spec fn stepped(acc: Seq<u8>, s: Step) -> Seq<u8> {
    match s {
        Step::Length(v) => acc + seq![v],
        Step::Again(n) => acc + times(acc.last(), n),
        Step::Zeros(n) => acc + times(0, n),
        Step::ManyZeros(n) => acc + times(0, n),
    }
}

pub open spec fn step_symbol(s: Step) -> nat {
    match s {
        Step::Length(v) => v as nat,
        Step::Again(n) => 16,
        Step::Zeros(n) => 17,
        Step::ManyZeros(n) => 18,
    }
}

pub open spec fn step_bits(clc: Seq<u8>, s: Step) -> Seq<bool> {
    symbol_bits(clc, step_symbol(s)) + match s {
        Step::Length(v) => seq![],
        Step::Again(n) => low_first((n - 3) as nat, 2),
        Step::Zeros(n) => low_first((n - 3) as nat, 3),
        Step::ManyZeros(n) => low_first((n - 11) as nat, 7),
    }
}

pub open spec fn steps_bits(clc: Seq<u8>, ss: Seq<Step>) -> Seq<bool>
    decreases ss.len(),
{
    if ss.len() == 0 {
        seq![]
    } else {
        step_bits(clc, ss[0]) + steps_bits(clc, ss.skip(1))
    }
}

pub open spec fn step_sound(clc: Seq<u8>, acc: Seq<u8>, s: Step) -> bool {
    &&& has_code(clc, step_symbol(s))
    &&& match s {
        Step::Length(v) => v <= 15,
        Step::Again(n) => 3 <= n <= 6 && acc.len() > 0,
        Step::Zeros(n) => 3 <= n <= 10,
        Step::ManyZeros(n) => 11 <= n <= 138,
    }
}

/// Whether steps lead from the lengths `acc` to the lengths `all`.
pub open spec fn steps_lead(clc: Seq<u8>, acc: Seq<u8>, ss: Seq<Step>, all: Seq<u8>) -> bool
    decreases ss.len(),
{
    if ss.len() == 0 {
        acc == all
    } else {
        &&& step_sound(clc, acc, ss[0])
        &&& steps_lead(clc, stepped(acc, ss[0]), ss.skip(1), all)
    }
}

proof fn lemma_steps_grow(clc: Seq<u8>, acc: Seq<u8>, ss: Seq<Step>, all: Seq<u8>)
    requires
        steps_lead(clc, acc, ss, all),
    ensures
        acc.len() + ss.len() <= all.len(),
    decreases ss.len(),
{
    if ss.len() > 0 {
        lemma_steps_grow(clc, stepped(acc, ss[0]), ss.skip(1), all);
    }
}

proof fn lemma_one_step(clc: Seq<u8>, b: Seq<u8>, p: int, acc: Seq<u8>, s: Step, total: nat)
    requires
        length_error(clc) is None,
        step_sound(clc, acc, s),
        has_bits(b, p, step_bits(clc, s)),
        stepped(acc, s).len() <= total,
    ensures
        decode_at(clc, b, p) matches Ok((sym, q)) && length_step(b, q, sym, total, acc) == Ok::<
            (Seq<u8>, int),
            Seq<char>,
        >((stepped(acc, s), p + step_bits(clc, s).len())),
{
    let x = symbol_bits(clc, step_symbol(s));
    let y: Seq<bool> = match s {
        Step::Length(v) => seq![],
        Step::Again(n) => low_first((n - 3) as nat, 2),
        Step::Zeros(n) => low_first((n - 3) as nat, 3),
        Step::ManyZeros(n) => low_first((n - 11) as nat, 7),
    };
    lemma_bits_split(b, p, x, y);
    lemma_symbol_read(clc, b, p, step_symbol(s));
    let q = p + x.len();
    match s {
        Step::Length(v) => {
            assert(acc.push(v) =~= acc + seq![v]);
        },
        Step::Again(n) => {
            assert(pow2(2) == 4) by {
                reveal_with_fuel(pow2, 3);
            }
            law_numbers_are_low_first(b, q, (n - 3) as nat, 2);
            lemma_widths((n - 3) as nat, 2);
            assert(run_of(acc, acc.last(), n) =~= acc + times(acc.last(), n));
        },
        Step::Zeros(n) => {
            assert(pow2(3) == 8) by {
                reveal_with_fuel(pow2, 4);
            }
            law_numbers_are_low_first(b, q, (n - 3) as nat, 3);
            lemma_widths((n - 3) as nat, 3);
            assert(run_of(acc, 0, n) =~= acc + times(0, n));
        },
        Step::ManyZeros(n) => {
            assert(pow2(7) == 128) by {
                reveal_with_fuel(pow2, 8);
            }
            law_numbers_are_low_first(b, q, (n - 11) as nat, 7);
            lemma_widths((n - 11) as nat, 7);
            assert(run_of(acc, 0, n) =~= acc + times(0, n));
        },
    }
}

/// Code lengths are read for what the steps say.
pub proof fn law_steps_are_undone(
    clc: Seq<u8>,
    b: Seq<u8>,
    p: int,
    acc: Seq<u8>,
    ss: Seq<Step>,
    all: Seq<u8>,
)
    requires
        length_error(clc) is None,
        steps_lead(clc, acc, ss, all),
        has_bits(b, p, steps_bits(clc, ss)),
    ensures
        lengths_from(b, p, clc, all.len(), acc) == Ok::<(Seq<u8>, int), Seq<char>>(
            (all, p + steps_bits(clc, ss).len()),
        ),
    decreases ss.len(),
{
    lemma_steps_grow(clc, acc, ss, all);
    if ss.len() > 0 {
        let x = step_bits(clc, ss[0]);
        let next = stepped(acc, ss[0]);
        lemma_bits_split(b, p, x, steps_bits(clc, ss.skip(1)));
        lemma_steps_grow(clc, next, ss.skip(1), all);
        lemma_one_step(clc, b, p, acc, ss[0], all.len());
        law_steps_are_undone(clc, b, p + x.len(), next, ss.skip(1), all);
    }
}

/// Which length the `j`th slot of the first table gives: the three kinds of
/// runs, zero, and then the lengths outward from eight.
pub open spec fn slot_symbol(j: nat) -> nat {
    if j < 3 {
        16 + j
    } else if j == 3 {
        0
    } else if j % 2 == 0 {
        (8 + (j - 4) / 2) as nat
    } else {
        (7 - (j - 5) / 2) as nat
    }
}

/// The slot of a symbol.
pub open spec fn slot_of(s: nat) -> nat {
    if s >= 16 {
        (s - 16) as nat
    } else if s == 0 {
        3
    } else if s >= 8 {
        (4 + 2 * (s - 8)) as nat
    } else {
        (5 + 2 * (7 - s)) as nat
    }
}

pub open spec fn slots_bits(clc: Seq<u8>, j: nat, n: nat) -> Seq<bool>
    decreases n - j,
{
    if j >= n {
        seq![]
    } else {
        low_first(clc[slot_symbol(j) as int] as nat, 3) + slots_bits(clc, j + 1, n)
    }
}

proof fn lemma_slot(j: nat)
    requires
        j < 19,
    ensures
        slot_symbol(j) < 19,
        slot_of(slot_symbol(j)) == j,
        CLC_ORDER[j as int] == slot_symbol(j),
{
}

proof fn lemma_slots_read(clc: Seq<u8>, b: Seq<u8>, p: int, j: nat, n: nat, acc: Seq<u8>)
    requires
        j <= n <= 19,
        clc.len() == 19,
        acc.len() == 19,
        forall|s: nat| s < 19 ==> (#[trigger] clc[s as int]) < 8,
        forall|s: nat|
            s < 19 ==> #[trigger] acc[s as int] == (if slot_of(s) < j {
                clc[s as int]
            } else {
                0
            }),
        forall|s: nat| s < 19 && slot_of(s) >= n ==> #[trigger] clc[s as int] == 0,
        has_bits(b, p, slots_bits(clc, j, n)),
    ensures
        clc_from(b, p, j, n, acc) == Ok::<(Seq<u8>, int), Seq<char>>((clc, p + 3 * (n - j))),
        slots_bits(clc, j, n).len() == 3 * (n - j),
    decreases n - j,
{
    if j < n {
        let s0 = slot_symbol(j);
        lemma_slot(j);
        let v = clc[s0 as int];
        let x = low_first(v as nat, 3);
        lemma_widths(v as nat, 3);
        assert(pow2(3) == 8) by {
            reveal_with_fuel(pow2, 4);
        }
        lemma_bits_split(b, p, x, slots_bits(clc, j + 1, n));
        law_numbers_are_low_first(b, p, v as nat, 3);
        let next = acc.update(s0 as int, v);
        assert forall|s: nat| s < 19 implies #[trigger] next[s as int] == (if slot_of(s) < j + 1 {
            clc[s as int]
        } else {
            0
        }) by {
            if s != s0 {
                assert(slot_of(s) != j);
                assert(acc[s as int] == (if slot_of(s) < j {
                    clc[s as int]
                } else {
                    0
                }));
            }
        }
        lemma_slots_read(clc, b, p + 3, j + 1, n, next);
    } else {
        assert forall|i: int| 0 <= i < 19 implies acc[i] == clc[i] by {
            let s = i as nat;
            assert(acc[s as int] == (if slot_of(s) < j {
                clc[s as int]
            } else {
                0
            }));
            assert(clc[s as int] < 8);
        }
        assert(acc =~= clc);
    }
}

/// The tables in front of a dynamic block: the lengths of the two codes, the
/// code that they are written in, how many of its slots are written, and the
/// steps.
pub ghost struct Tables {
    pub lit: Seq<u8>,
    pub dist: Seq<u8>,
    pub clc: Seq<u8>,
    pub slots: nat,
    pub steps: Seq<Step>,
}

pub open spec fn tables_sound(t: Tables) -> bool {
    &&& 257 <= t.lit.len() <= 286
    &&& 1 <= t.dist.len() <= 30
    &&& 4 <= t.slots <= 19
    &&& t.clc.len() == 19
    &&& forall|s: nat| s < 19 ==> (#[trigger] t.clc[s as int]) < 8
    &&& forall|s: nat| s < 19 && slot_of(s) >= t.slots ==> #[trigger] t.clc[s as int] == 0
    &&& code_error(t.clc) is None
    &&& code_error(t.lit) is None
    &&& length_error(t.dist) is None
    &&& steps_lead(t.clc, seq![], t.steps, t.lit + t.dist)
}

pub open spec fn tables_bits(t: Tables) -> Seq<bool> {
    low_first((t.lit.len() - 257) as nat, 5) + (low_first((t.dist.len() - 1) as nat, 5) + (
    low_first((t.slots - 4) as nat, 4) + (slots_bits(t.clc, 0, t.slots) + steps_bits(
        t.clc,
        t.steps,
    ))))
}

/// The tables in front of a dynamic block are read back as they were written.
#[verifier::rlimit(50)]
pub proof fn law_tables_are_undone(t: Tables, b: Seq<u8>, p: int)
    requires
        tables_sound(t),
        has_bits(b, p, tables_bits(t)),
    ensures
        dynamic_at(b, p) == Ok::<(Seq<u8>, Seq<u8>, int), Seq<char>>(
            (t.lit, t.dist, p + tables_bits(t).len()),
        ),
{
    let x1 = low_first((t.lit.len() - 257) as nat, 5);
    let x2 = low_first((t.dist.len() - 1) as nat, 5);
    let x3 = low_first((t.slots - 4) as nat, 4);
    let x4 = slots_bits(t.clc, 0, t.slots);
    let x5 = steps_bits(t.clc, t.steps);
    lemma_widths((t.lit.len() - 257) as nat, 5);
    lemma_widths((t.dist.len() - 1) as nat, 5);
    lemma_widths((t.slots - 4) as nat, 4);
    assert(pow2(5) == 32 && pow2(4) == 16) by {
        reveal_with_fuel(pow2, 6);
    }
    lemma_bits_split(b, p, x1, x2 + (x3 + (x4 + x5)));
    lemma_bits_split(b, p + 5, x2, x3 + (x4 + x5));
    lemma_bits_split(b, p + 10, x3, x4 + x5);
    lemma_bits_split(b, p + 14, x4, x5);
    law_numbers_are_low_first(b, p, (t.lit.len() - 257) as nat, 5);
    law_numbers_are_low_first(b, p + 5, (t.dist.len() - 1) as nat, 5);
    law_numbers_are_low_first(b, p + 10, (t.slots - 4) as nat, 4);
    let zeros = Seq::new(19, |i: int| 0u8);
    lemma_slots_read(t.clc, b, p + 14, 0, t.slots, zeros);
    let all = t.lit + t.dist;
    law_steps_are_undone(t.clc, b, p + 14 + x4.len(), seq![], t.steps, all);
    assert(all.take(t.lit.len() as int) =~= t.lit);
    assert(all.skip(t.lit.len() as int) =~= t.dist);
}

// ---------------------------------------------------------------------------
// Streams
// ---------------------------------------------------------------------------

/// A block: bytes as they are, after some padding; or literals and matches in
/// the fixed code or in one of the block's own.
pub ghost enum Block {
    Stored(Seq<bool>, Seq<u8>),
    Fixed(Seq<Token>),
    Dynamic(Tables, Seq<Token>),
}

/// Bytes, each lowest bit first.
pub open spec fn bytes_bits(d: Seq<u8>) -> Seq<bool>
    decreases d.len(),
{
    if d.len() == 0 {
        seq![]
    } else {
        low_first(d[0] as nat, 8) + bytes_bits(d.skip(1))
    }
}

/// A stored block's length, its complement and the bytes.
pub open spec fn counted(d: Seq<u8>) -> Seq<u8> {
    let n = d.len();
    let m = (65535 - n) as nat;
    seq![(n % 256) as u8, (n / 256) as u8, (m % 256) as u8, (m / 256) as u8] + d
}

pub open spec fn block_kind(k: Block) -> nat {
    match k {
        Block::Stored(_, _) => 0,
        Block::Fixed(_) => 1,
        Block::Dynamic(_, _) => 2,
    }
}

pub open spec fn block_body(k: Block) -> Seq<bool> {
    match k {
        Block::Stored(pad, d) => pad + bytes_bits(counted(d)),
        Block::Fixed(ts) => tokens_bits(fixed_literals(), fixed_distances(), ts),
        Block::Dynamic(t, ts) => tables_bits(t) + tokens_bits(t.lit, t.dist, ts),
    }
}

/// The data after one more block.
pub open spec fn block_data(out: Seq<u8>, k: Block) -> Seq<u8> {
    match k {
        Block::Stored(_, d) => out + d,
        Block::Fixed(ts) => expanded(out, ts),
        Block::Dynamic(_, ts) => expanded(out, ts),
    }
}

/// Whether a block whose body starts at bit `p` may follow the data `out`.
pub open spec fn block_sound(p: int, out: Seq<u8>, k: Block) -> bool {
    match k {
        Block::Stored(pad, d) => pad.len() < 8 && (p + pad.len()) % 8 == 0 && d.len() <= 65535,
        Block::Fixed(ts) => tokens_sound(fixed_literals(), fixed_distances(), out, ts),
        Block::Dynamic(t, ts) => tables_sound(t) && tokens_sound(t.lit, t.dist, out, ts),
    }
}

/// A bit that says whether the block is the last, two for its kind, the body.
pub open spec fn block_bits(k: Block, last: bool) -> Seq<bool> {
    seq![last] + (low_first(block_kind(k), 2) + block_body(k))
}

/// The blocks of a stream, the last marked.
pub open spec fn stream_bits(ks: Seq<Block>) -> Seq<bool>
    decreases ks.len(),
{
    if ks.len() == 0 {
        seq![]
    } else {
        block_bits(ks[0], ks.len() == 1) + stream_bits(ks.skip(1))
    }
}

pub open spec fn stream_data(out: Seq<u8>, ks: Seq<Block>) -> Seq<u8>
    decreases ks.len(),
{
    if ks.len() == 0 {
        out
    } else {
        stream_data(block_data(out, ks[0]), ks.skip(1))
    }
}

pub open spec fn stream_sound(p: int, out: Seq<u8>, ks: Seq<Block>) -> bool
    decreases ks.len(),
{
    if ks.len() == 0 {
        true
    } else {
        &&& block_sound(p + 3, out, ks[0])
        &&& stream_sound(
            p + block_bits(ks[0], ks.len() == 1).len(),
            block_data(out, ks[0]),
            ks.skip(1),
        )
    }
}

#[verifier::rlimit(50)]
proof fn lemma_byte_sum(v: int)
    requires
        0 <= v < 256,
    ensures
        v == v % 2 + 2 * ((v / 2) % 2) + 4 * ((v / 4) % 2) + 8 * ((v / 8) % 2) + 16 * ((v / 16) % 2)
            + 32 * ((v / 32) % 2) + 64 * ((v / 64) % 2) + 128 * ((v / 128) % 2),
{
}

proof fn lemma_byte_value(b: Seq<u8>, k: int)
    requires
        0 <= k < b.len(),
    ensures
        bits_value(b, 8 * k, 8) == b[k],
{
    let v = b[k] as nat;
    reveal_with_fuel(pow2, 9);
    assert forall|r: int| 0 <= r < 8 implies (8 * k + r) / 8 == k && #[trigger] ((8 * k + r) % 8)
        == r by {}
    assert(bit_at(b, 8 * k) == v % 2) by {
        assert((8 * k) / 8 == k && (8 * k) % 8 == 0);
        assert(v / 1 == v);
    }
    assert(bit_at(b, 8 * k + 1) == (v / 2) % 2) by {
        assert((8 * k + 1) % 8 == 1);
    }
    assert(bit_at(b, 8 * k + 2) == (v / 4) % 2) by {
        assert((8 * k + 2) % 8 == 2);
    }
    assert(bit_at(b, 8 * k + 3) == (v / 8) % 2) by {
        assert((8 * k + 3) % 8 == 3);
    }
    assert(bit_at(b, 8 * k + 4) == (v / 16) % 2) by {
        assert((8 * k + 4) % 8 == 4);
    }
    assert(bit_at(b, 8 * k + 5) == (v / 32) % 2) by {
        assert((8 * k + 5) % 8 == 5);
    }
    assert(bit_at(b, 8 * k + 6) == (v / 64) % 2) by {
        assert((8 * k + 6) % 8 == 6);
    }
    assert(bit_at(b, 8 * k + 7) == (v / 128) % 2) by {
        assert((8 * k + 7) % 8 == 7);
    }
    let p = 8 * k;
    lemma_byte_sum(v as int);
    assert(bits_value(b, p, 0) == 0);
    assert(bits_value(b, p, 1) == bits_value(b, p, 0) + 1 * bit_at(b, p + 0)) by {
        assert(pow2(0) == 1);
        assert(p + 1 - 1 == p + 0);
    }
    assert(bits_value(b, p, 2) == bits_value(b, p, 1) + 2 * bit_at(b, p + 1)) by {
        assert(pow2(1) == 2);
        assert(p + 2 - 1 == p + 1);
    }
    assert(bits_value(b, p, 3) == bits_value(b, p, 2) + 4 * bit_at(b, p + 2)) by {
        assert(pow2(2) == 4);
        assert(p + 3 - 1 == p + 2);
    }
    assert(bits_value(b, p, 4) == bits_value(b, p, 3) + 8 * bit_at(b, p + 3)) by {
        assert(pow2(3) == 8);
        assert(p + 4 - 1 == p + 3);
    }
    assert(bits_value(b, p, 5) == bits_value(b, p, 4) + 16 * bit_at(b, p + 4)) by {
        assert(pow2(4) == 16);
        assert(p + 5 - 1 == p + 4);
    }
    assert(bits_value(b, p, 6) == bits_value(b, p, 5) + 32 * bit_at(b, p + 5)) by {
        assert(pow2(5) == 32);
        assert(p + 6 - 1 == p + 5);
    }
    assert(bits_value(b, p, 7) == bits_value(b, p, 6) + 64 * bit_at(b, p + 6)) by {
        assert(pow2(6) == 64);
        assert(p + 7 - 1 == p + 6);
    }
    assert(bits_value(b, p, 8) == bits_value(b, p, 7) + 128 * bit_at(b, p + 7)) by {
        assert(pow2(7) == 128);
        assert(p + 8 - 1 == p + 7);
    }
}

proof fn lemma_bytes_read(b: Seq<u8>, k: int, d: Seq<u8>)
    requires
        has_bits(b, 8 * k, bytes_bits(d)),
    ensures
        bytes_bits(d).len() == 8 * d.len(),
        0 <= k,
        k + d.len() <= b.len(),
        b.subrange(k, k + d.len()) == d,
    decreases d.len(),
{
    if d.len() > 0 {
        let x = low_first(d[0] as nat, 8);
        lemma_widths(d[0] as nat, 8);
        lemma_bits_split(b, 8 * k, x, bytes_bits(d.skip(1)));
        assert(pow2(8) == 256) by {
            reveal_with_fuel(pow2, 9);
        }
        law_numbers_are_low_first(b, 8 * k, d[0] as nat, 8);
        lemma_byte_value(b, k);
        assert(8 * k + 8 == 8 * (k + 1));
        lemma_bytes_read(b, k + 1, d.skip(1));
        let w = b.subrange(k + 1, k + 1 + d.skip(1).len());
        assert forall|i: int| 0 <= i < d.len() implies b[k + i] == d[i] by {
            if i > 0 {
                assert(w[i - 1] == d.skip(1)[i - 1]);
            }
        }
        assert(b.subrange(k, k + d.len()) =~= d);
    } else {
        assert(b.subrange(k, k + d.len()) =~= d);
    }
}

proof fn lemma_stored_read(b: Seq<u8>, p: int, pad: Seq<bool>, d: Seq<u8>, out: Seq<u8>, max: nat)
    requires
        block_sound(p, out, Block::Stored(pad, d)),
        has_bits(b, p, pad + bytes_bits(counted(d))),
        out.len() + d.len() < max,
    ensures
        stored_at(b, p, out, max) == Ok::<(Seq<u8>, int), Seq<char>>(
            (out + d, p + (pad + bytes_bits(counted(d))).len()),
        ),
{
    let c = counted(d);
    lemma_bits_split(b, p, pad, bytes_bits(c));
    let k = (p + pad.len()) / 8;
    assert(8 * k == p + pad.len());
    lemma_bytes_read(b, k, c);
    assert(byte_after(p) == k);
    let w = b.subrange(k, k + c.len());
    assert(w[0] == b[k] && w[1] == b[k + 1] && w[2] == b[k + 2] && w[3] == b[k + 3]);
    assert(le(b, k, 2) == b[k] + 256 * b[k + 1]) by {
        reveal_with_fuel(le, 3);
    }
    assert(le(b, k + 2, 2) == b[k + 2] + 256 * b[k + 3]) by {
        reveal_with_fuel(le, 3);
    }
    assert(le(b, k, 2) == d.len());
    assert(b.subrange(k + 4, k + 4 + d.len()) =~= d) by {
        assert forall|i: int| 0 <= i < d.len() implies b[k + 4 + i] == d[i] by {
            assert(w[4 + i] == c[4 + i]);
        }
    }
}

#[verifier::rlimit(50)]
proof fn lemma_block_read(b: Seq<u8>, p: int, k: Block, out: Seq<u8>, max: nat)
    requires
        block_sound(p, out, k),
        has_bits(b, p, block_body(k)),
        block_data(out, k).len() < max,
    ensures
        block_at(b, p, block_kind(k), out, max) == Ok::<(Seq<u8>, int), Seq<char>>(
            (block_data(out, k), p + block_body(k).len()),
        ),
{
    match k {
        Block::Stored(pad, d) => {
            lemma_stored_read(b, p, pad, d, out, max);
        },
        Block::Fixed(ts) => {
            lemma_fixed_codes();
            law_tokens_are_undone(fixed_literals(), fixed_distances(), b, p, out, ts, max);
        },
        Block::Dynamic(t, ts) => {
            let x = tables_bits(t);
            lemma_bits_split(b, p, x, tokens_bits(t.lit, t.dist, ts));
            law_tables_are_undone(t, b, p);
            law_tokens_are_undone(t.lit, t.dist, b, p + x.len(), out, ts, max);
        },
    }
}

proof fn lemma_stream_grows(out: Seq<u8>, ks: Seq<Block>)
    ensures
        stream_data(out, ks).len() >= out.len(),
    decreases ks.len(),
{
    if ks.len() > 0 {
        match ks[0] {
            Block::Stored(_, _) => {},
            Block::Fixed(ts) => lemma_only_grows(out, ts),
            Block::Dynamic(_, ts) => lemma_only_grows(out, ts),
        }
        lemma_stream_grows(block_data(out, ks[0]), ks.skip(1));
    }
}

proof fn lemma_header_read(b: Seq<u8>, p: int, k: Block, last: bool)
    requires
        has_bits(b, p, block_bits(k, last)),
    ensures
        bits_at(b, p, 1) == Ok::<nat, Seq<char>>(
            if last {
                1
            } else {
                0
            },
        ),
        bits_at(b, p + 1, 2) == Ok::<nat, Seq<char>>(block_kind(k)),
        has_bits(b, p + 3, block_body(k)),
        block_bits(k, last).len() == 3 + block_body(k).len(),
{
    let x = low_first(block_kind(k), 2);
    lemma_widths(block_kind(k), 2);
    lemma_bits_split(b, p, seq![last], x + block_body(k));
    lemma_bits_split(b, p + 1, x, block_body(k));
    assert(pow2(2) == 4 && pow2(1) == 2 && pow2(0) == 1) by {
        reveal_with_fuel(pow2, 3);
    }
    law_numbers_are_low_first(b, p + 1, block_kind(k), 2);
    let v: nat = if last {
        1
    } else {
        0
    };
    assert(low_first(v, 1) =~= seq![last]) by {
        reveal_with_fuel(low_first, 2);
    }
    law_numbers_are_low_first(b, p, v, 1);
}

proof fn lemma_blocks_read(b: Seq<u8>, p: int, ks: Seq<Block>, out: Seq<u8>, max: nat)
    requires
        ks.len() > 0,
        stream_sound(p, out, ks),
        has_bits(b, p, stream_bits(ks)),
        stream_data(out, ks).len() < max,
    ensures
        blocks_from(b, p, out, max) == Ok::<(Seq<u8>, bool), Seq<char>>(
            (stream_data(out, ks), true),
        ),
    decreases ks.len(),
{
    let last = ks.len() == 1;
    let x = block_bits(ks[0], last);
    let next = block_data(out, ks[0]);
    lemma_bits_split(b, p, x, stream_bits(ks.skip(1)));
    lemma_header_read(b, p, ks[0], last);
    lemma_stream_grows(next, ks.skip(1));
    lemma_block_read(b, p + 3, ks[0], out, max);
    if !last {
        lemma_blocks_read(b, p + x.len(), ks.skip(1), next, max);
        lemma_block_progress(b, p + 3, block_kind(ks[0]), out, max);
    }
}

/// Inflating undoes every way of compressing: whatever blocks an encoder made,
/// with whatever codes, literals and matches, the data come out that they stand
/// for.
pub proof fn law_stream_is_undone(b: Seq<u8>, ks: Seq<Block>, max: nat)
    requires
        ks.len() > 0,
        stream_sound(0, seq![], ks),
        has_bits(b, 0, stream_bits(ks)),
        stream_data(seq![], ks).len() < max,
    ensures
        inflated(b, max) == Ok::<(Seq<u8>, bool), Seq<char>>((stream_data(seq![], ks), true)),
{
    lemma_blocks_read(b, 0, ks, seq![], max);
}

/// Data as literals in one block of the fixed code.
pub open spec fn literal_tokens(d: Seq<u8>) -> Seq<Token> {
    d.map_values(|c: u8| Token::Byte(c))
}

proof fn lemma_literals_stand(out: Seq<u8>, d: Seq<u8>)
    ensures
        expanded(out, literal_tokens(d)) == out + d,
        tokens_sound(fixed_literals(), fixed_distances(), out, literal_tokens(d)),
    decreases d.len(),
{
    let ts = literal_tokens(d);
    law_fixed_codes(256);
    if d.len() == 0 {
        assert(out + d =~= out);
    } else {
        law_fixed_codes(d[0] as nat);
        assert(ts.skip(1) =~= literal_tokens(d.skip(1)));
        lemma_literals_stand(out + seq![d[0]], d.skip(1));
        assert(out + seq![d[0]] + d.skip(1) =~= out + d);
    }
}

/// Any data can be written so: as literals of the fixed code they come back
/// from the packed bits.
pub proof fn law_literals_come_back(d: Seq<u8>, max: nat)
    requires
        d.len() < max,
    ensures
        inflated(packed(stream_bits(seq![Block::Fixed(literal_tokens(d))])), max) == Ok::<
            (Seq<u8>, bool),
            Seq<char>,
        >((d, true)),
{
    let ks = seq![Block::Fixed(literal_tokens(d))];
    law_bits_are_packed_low_first(stream_bits(ks));
    lemma_literals_stand(seq![], d);
    assert(seq![] + d =~= d);
    reveal_with_fuel(stream_data, 2);
    reveal_with_fuel(stream_sound, 2);
    law_stream_is_undone(packed(stream_bits(ks)), ks, max);
}

} // verus!
