//! Which code lengths make a code, and what its codes decode to.

use vstd::prelude::*;
use crate::inflate::{bit_at, count_of, decode_at, decode_from, first_code, fixed_distances, fixed_literals, length_error, lemma_fixed_distance_counts, lemma_fixed_literal_counts, lemma_kraft, lemma_symbols_prefix, pow2, slack, symbols_of, MAX_BITS};

verus! {

// ---------------------------------------------------------------------------
// Canonical codes
// ---------------------------------------------------------------------------

/// The `n` bits from bit `p` on as a number, first bit most significant.
pub open spec fn code_bits(b: Seq<u8>, p: int, n: nat) -> nat
    decreases n,
{
    if n == 0 {
        0
    } else {
        2 * code_bits(b, p, (n - 1) as nat) + bit_at(b, p + n - 1)
    }
}

/// Codes of `len` bits and their extensions come before all longer codes.
proof fn lemma_shorter_codes_first(lengths: Seq<u8>, short: nat, long: nat)
    requires
        1 <= short < long,
    ensures
        (first_code(lengths, short) + count_of(lengths, short)) * pow2((long - short) as nat)
            <= first_code(lengths, long),
    decreases long - short,
{
    let f = first_code(lengths, short) + count_of(lengths, short);
    let k = (long - short) as nat;
    let p = pow2((k - 1) as nat);
    assert(pow2(k) == 2 * p);
    if long == short + 1 {
        assert(p == 1);
        assert(f * (2 * p) == 2 * f) by (nonlinear_arith)
            requires
                p == 1,
        ;
    } else {
        lemma_shorter_codes_first(lengths, short, (long - 1) as nat);
        assert((long - 1 - short) as nat == (k - 1) as nat);
        assert(f * (2 * p) == 2 * (f * p)) by (nonlinear_arith);
    }
}

/// Dropping low-order bits.
proof fn lemma_code_prefix(b: Seq<u8>, p: int, n: nat, m: nat)
    requires
        n <= m,
    ensures
        code_bits(b, p, n) * pow2((m - n) as nat) <= code_bits(b, p, m),
        code_bits(b, p, m) < (code_bits(b, p, n) + 1) * pow2((m - n) as nat),
    decreases m - n,
{
    if n < m {
        lemma_code_prefix(b, p, n, (m - 1) as nat);
        let k = (m - n) as nat;
        let q = pow2((k - 1) as nat);
        assert(pow2(k) == 2 * q);
        assert((m - 1 - n) as nat == (k - 1) as nat);
        let c = code_bits(b, p, n);
        assert(c * (2 * q) == 2 * (c * q)) by (nonlinear_arith);
        assert((c + 1) * (2 * q) == 2 * ((c + 1) * q)) by (nonlinear_arith);
    } else {
        assert(pow2(0) == 1);
        let c = code_bits(b, p, n);
        assert(c * 1 == c && (c + 1) * 1 == c + 1);
    }
}

proof fn lemma_decode_canonical(
    lengths: Seq<u8>,
    b: Seq<u8>,
    p: int,
    len: nat,
    total: nat,
    rank: nat,
)
    requires
        1 <= len <= total <= MAX_BITS,
        p + total <= 8 * b.len(),
        rank < count_of(lengths, total),
        code_bits(b, p, total) == first_code(lengths, total) + rank,
    ensures
        decode_from(lengths, b, p + len - 1, len, code_bits(b, p, (len - 1) as nat)) == Ok::<
            (nat, int),
            Seq<char>,
        >((symbols_of(lengths, total, lengths.len())[rank as int], p + total)),
    decreases total - len,
{
    assert(code_bits(b, p, len) == 2 * code_bits(b, p, (len - 1) as nat) + bit_at(
        b,
        p + len - 1,
    ));
    if len < total {
        lemma_shorter_codes_first(lengths, len, total);
        lemma_code_prefix(b, p, len, total);
        let c = code_bits(b, p, len);
        let f = first_code(lengths, len) + count_of(lengths, len);
        let q = pow2((total - len) as nat);
        assert(c >= f) by (nonlinear_arith)
            requires
                f * q <= first_code(lengths, total),
                first_code(lengths, total) <= code_bits(b, p, total),
                code_bits(b, p, total) < (c + 1) * q,
        ;
        lemma_decode_canonical(lengths, b, p, len + 1, total, rank);
    }
}

/// A canonical Huffman code decodes to its symbol: `rank` numbers the symbols
/// of `total` bits in ascending order, and the code is the first of its length
/// plus the rank.
pub proof fn law_canonical_codes_decode(
    lengths: Seq<u8>,
    b: Seq<u8>,
    p: int,
    total: nat,
    rank: nat,
)
    requires
        1 <= total <= MAX_BITS,
        0 <= p,
        p + total <= 8 * b.len(),
        rank < count_of(lengths, total),
        code_bits(b, p, total) == first_code(lengths, total) + rank,
    ensures
        decode_at(lengths, b, p) == Ok::<(nat, int), Seq<char>>(
            (symbols_of(lengths, total, lengths.len())[rank as int], p + total),
        ),
{
    lemma_decode_canonical(lengths, b, p, 1, total, rank);
}

/// Nothing decodes in a code without symbols.
pub proof fn law_empty_code_decodes_nothing(lengths: Seq<u8>, b: Seq<u8>, p: int)
    requires
        count_of(lengths, 0) == lengths.len(),
    ensures
        decode_at(lengths, b, p) is Err,
{
    lemma_zero_count(lengths, lengths.len());
    lemma_nothing_decodes(lengths, b, p, 1, 0);
}

/// All lengths are zero when that many are.
proof fn lemma_zero_count(lengths: Seq<u8>, n: nat)
    requires
        n <= lengths.len(),
        symbols_of(lengths, 0, n).len() >= n,
    ensures
        symbols_of(lengths, 0, n).len() == n,
        forall|l: nat| l > 0 ==> #[trigger] symbols_of(lengths, l, n).len() == 0,
    decreases n,
{
    if n > 0 {
        lemma_symbols_len(lengths, 0, (n - 1) as nat);
        lemma_zero_count(lengths, (n - 1) as nat);
        assert forall|l: nat| l > 0 implies #[trigger] symbols_of(lengths, l, n).len() == 0 by {
            assert(symbols_of(lengths, l, (n - 1) as nat).len() == 0);
        }
    }
}

proof fn lemma_symbols_len(lengths: Seq<u8>, l: nat, n: nat)
    ensures
        symbols_of(lengths, l, n).len() <= n,
    decreases n,
{
    if n > 0 {
        lemma_symbols_len(lengths, l, (n - 1) as nat);
    }
}

proof fn lemma_nothing_decodes(lengths: Seq<u8>, b: Seq<u8>, p: int, len: nat, code: nat)
    requires
        1 <= len,
        first_code(lengths, len) == 0,
        forall|l: nat| l > 0 ==> #[trigger] symbols_of(lengths, l, lengths.len()).len() == 0,
    ensures
        decode_from(lengths, b, p, len, code) is Err,
    decreases MAX_BITS + 1 - len,
{
    assert(count_of(lengths, len) == 0);
    if len <= MAX_BITS {
        lemma_nothing_decodes(lengths, b, p + 1, len + 1, 2 * code + bit_at(b, p));
    }
}

/// The share of all codes of 15 bits that the first `n` symbols take up.
pub open spec fn share(lengths: Seq<u8>, n: nat) -> nat
    decreases n,
{
    if n == 0 || n > lengths.len() {
        0
    } else {
        share(lengths, (n - 1) as nat) + weight(lengths[n - 1] as nat)
    }
}

/// The share of one symbol with a code of `l` bits.
pub open spec fn weight(l: nat) -> nat {
    if 1 <= l <= MAX_BITS {
        pow2((MAX_BITS - l) as nat)
    } else {
        0
    }
}

/// The same share, of codes of up to `top` bits, counted length by length.
spec fn share_by_length(lengths: Seq<u8>, top: nat, n: nat) -> nat
    decreases top,
{
    if top == 0 {
        0
    } else {
        share_by_length(lengths, (top - 1) as nat, n) + symbols_of(lengths, top, n).len() * weight(
            top,
        )
    }
}

proof fn lemma_share_step(lengths: Seq<u8>, top: nat, n: nat)
    requires
        0 < n <= lengths.len(),
        top <= MAX_BITS,
    ensures
        share_by_length(lengths, top, n) == share_by_length(lengths, top, (n - 1) as nat) + (
        if 1 <= lengths[n - 1] <= top {
            weight(lengths[n - 1] as nat)
        } else {
            0
        }),
    decreases top,
{
    if top > 0 {
        lemma_share_step(lengths, (top - 1) as nat, n);
        let k = symbols_of(lengths, top, (n - 1) as nat).len();
        let w = weight(top);
        assert((k + 1) * w == k * w + w) by (nonlinear_arith);
    }
}

proof fn lemma_share_none(lengths: Seq<u8>, top: nat)
    ensures
        share_by_length(lengths, top, 0) == 0,
    decreases top,
{
    if top > 0 {
        lemma_share_none(lengths, (top - 1) as nat);
        assert(0 * weight(top) == 0) by (nonlinear_arith);
    }
}

proof fn lemma_share_counts(lengths: Seq<u8>, n: nat)
    requires
        n <= lengths.len(),
        forall|i: int| 0 <= i < lengths.len() ==> #[trigger] lengths[i] <= MAX_BITS,
    ensures
        share(lengths, n) == share_by_length(lengths, MAX_BITS as nat, n),
    decreases n,
{
    if n == 0 {
        lemma_share_none(lengths, MAX_BITS as nat);
    } else {
        lemma_share_counts(lengths, (n - 1) as nat);
        lemma_share_step(lengths, MAX_BITS as nat, n);
        assert(lengths[n - 1] <= MAX_BITS);
    }
}

/// What is left over at `l` bits, in codes of 15 bits.
proof fn lemma_slack_share(lengths: Seq<u8>, l: nat)
    requires
        l <= MAX_BITS,
    ensures
        slack(lengths, l) * pow2((MAX_BITS - l) as nat) == pow2(MAX_BITS as nat)
            - share_by_length(lengths, l, lengths.len()),
    decreases l,
{
    if l > 0 {
        lemma_slack_share(lengths, (l - 1) as nat);
        let a = slack(lengths, (l - 1) as nat);
        let c = count_of(lengths, l);
        let p = pow2((MAX_BITS - l) as nat);
        assert(pow2((MAX_BITS - (l - 1)) as nat) == 2 * p) by {
            assert((MAX_BITS - (l - 1) - 1) as nat == (MAX_BITS - l) as nat);
        }
        assert((2 * a - c) * p == a * (2 * p) - c * p) by (nonlinear_arith);
    } else {
        assert(1 * pow2(MAX_BITS as nat) == pow2(MAX_BITS as nat));
    }
}

proof fn lemma_slack_stays(lengths: Seq<u8>, l: nat, m: nat)
    requires
        l <= m,
        slack(lengths, l) < 0,
    ensures
        slack(lengths, m) < 0,
    decreases m - l,
{
    if l < m {
        lemma_slack_stays(lengths, l, (m - 1) as nat);
    }
}

/// Code lengths of up to 15 bits are refused exactly when together they take up
/// more than all codes there are: when the shares `2^(15 - l)` of the used
/// symbols add up to more than `2^15`. Anything less is a code, if an
/// incomplete one.
pub proof fn law_oversubscribed_by_share(lengths: Seq<u8>)
    requires
        forall|i: int| 0 <= i < lengths.len() ==> #[trigger] lengths[i] <= MAX_BITS,
    ensures
        length_error(lengths) is Some <==> share(lengths, lengths.len()) > 0x8000,
{
    lemma_share_counts(lengths, lengths.len());
    lemma_slack_share(lengths, MAX_BITS as nat);
    reveal_with_fuel(pow2, 16);
    let s = slack(lengths, MAX_BITS as nat);
    assert(s * 1 == s);
    if exists|l: nat| 1 <= l <= MAX_BITS && #[trigger] slack(lengths, l) < 0 {
        let l = choose|l: nat| 1 <= l <= MAX_BITS && #[trigger] slack(lengths, l) < 0;
        lemma_slack_stays(lengths, l, MAX_BITS as nat);
    }
}

// ---------------------------------------------------------------------------
// The code of a symbol
// ---------------------------------------------------------------------------

/// The shares of those of the first `n` symbols that come before `sym`: the
/// ones with shorter codes, and the smaller ones with codes as long.
pub open spec fn share_before(lengths: Seq<u8>, sym: nat, n: nat) -> nat
    decreases n,
{
    if n == 0 || n > lengths.len() {
        0
    } else {
        let t = (n - 1) as nat;
        let l = lengths[t as int];
        share_before(lengths, sym, t) + (if 0 < l && (l < lengths[sym as int] || (l
            == lengths[sym as int] && t < sym)) {
            weight(l as nat)
        } else {
            0
        })
    }
}

/// The code of a symbol: codes are handed out in order of their length and,
/// within a length, of their symbol, each taking up its share of all codes.
pub open spec fn code_of(lengths: Seq<u8>, sym: nat) -> nat {
    share_before(lengths, sym, lengths.len()) / weight(lengths[sym as int] as nat)
}

/// What comes before a symbol, counted length by length.
proof fn lemma_before_counts(lengths: Seq<u8>, sym: nat, n: nat)
    requires
        sym < lengths.len(),
        n <= lengths.len(),
        1 <= lengths[sym as int] <= MAX_BITS,
    ensures
        ({
            let l = lengths[sym as int] as nat;
            let m = if n < sym {
                n
            } else {
                sym
            };
            share_before(lengths, sym, n) == share_by_length(lengths, (l - 1) as nat, n)
                + symbols_of(lengths, l, m).len() * weight(l)
        }),
    decreases n,
{
    let l = lengths[sym as int] as nat;
    if n == 0 {
        lemma_share_none(lengths, (l - 1) as nat);
        assert(0 * weight(l) == 0) by (nonlinear_arith);
    } else {
        lemma_before_counts(lengths, sym, (n - 1) as nat);
        lemma_share_step(lengths, (l - 1) as nat, n);
        let k = symbols_of(lengths, l, (n - 1) as nat).len();
        let w = weight(l);
        assert((k + 1) * w == k * w + w) by (nonlinear_arith);
    }
}

/// Where the codes of `l` bits start, in shares.
proof fn lemma_first_share(lengths: Seq<u8>, l: nat)
    requires
        1 <= l <= MAX_BITS,
    ensures
        first_code(lengths, l) * weight(l) == share_by_length(
            lengths,
            (l - 1) as nat,
            lengths.len(),
        ),
    decreases l,
{
    if l == 1 {
        assert(0 * weight(1) == 0) by (nonlinear_arith);
    } else {
        let k = (l - 1) as nat;
        lemma_first_share(lengths, k);
        let f = first_code(lengths, k);
        let c = count_of(lengths, k);
        let w = weight(l);
        assert(weight(k) == 2 * w) by {
            assert((MAX_BITS - k - 1) as nat == (MAX_BITS - l) as nat);
        }
        assert((2 * (f + c)) * w == f * (2 * w) + c * (2 * w)) by (nonlinear_arith);
    }
}

pub proof fn lemma_weight_positive(l: nat)
    requires
        1 <= l <= MAX_BITS,
    ensures
        weight(l) > 0,
{
    lemma_pow2_positive((MAX_BITS - l) as nat);
}

pub proof fn lemma_pow2_positive(n: nat)
    ensures
        pow2(n) > 0,
    decreases n,
{
    if n > 0 {
        lemma_pow2_positive((n - 1) as nat);
    }
}

/// The code of a symbol is the first of its length and its rank there.
proof fn lemma_code_rank(lengths: Seq<u8>, sym: nat)
    requires
        sym < lengths.len(),
        1 <= lengths[sym as int] <= MAX_BITS,
    ensures
        ({
            let l = lengths[sym as int] as nat;
            let rank = symbols_of(lengths, l, sym).len();
            &&& code_of(lengths, sym) == first_code(lengths, l) + rank
            &&& rank < count_of(lengths, l)
            &&& symbols_of(lengths, l, lengths.len())[rank as int] == sym
        }),
{
    let l = lengths[sym as int] as nat;
    let rank = symbols_of(lengths, l, sym).len();
    let w = weight(l);
    let f = first_code(lengths, l);
    lemma_before_counts(lengths, sym, lengths.len());
    lemma_first_share(lengths, l);
    lemma_weight_positive(l);
    assert(f * w + rank * w == (f + rank) * w) by (nonlinear_arith);
    vstd::arithmetic::div_mod::lemma_div_by_multiple((f + rank) as int, w as int);
    lemma_symbols_prefix(lengths, l, sym + 1, lengths.len());
    let upto = symbols_of(lengths, l, sym + 1);
    assert(upto[rank as int] == sym);
    assert(upto == symbols_of(lengths, l, lengths.len()).take(upto.len() as int));
}

/// A code decodes to its symbol: where the bits from `p` on, first bit most
/// significant, are the code of `sym`, that symbol is read, and no more bits
/// than its code has.
pub proof fn law_code_decodes_to_symbol(lengths: Seq<u8>, b: Seq<u8>, p: int, sym: nat)
    requires
        sym < lengths.len(),
        1 <= lengths[sym as int] <= MAX_BITS,
        0 <= p,
        p + lengths[sym as int] <= 8 * b.len(),
        code_bits(b, p, lengths[sym as int] as nat) == code_of(lengths, sym),
    ensures
        decode_at(lengths, b, p) == Ok::<(nat, int), Seq<char>>((sym, p + lengths[sym as int])),
{
    lemma_code_rank(lengths, sym);
    let l = lengths[sym as int] as nat;
    law_canonical_codes_decode(lengths, b, p, l, symbols_of(lengths, l, sym).len());
}

/// A code is short enough for its length, if there is room for all.
pub proof fn lemma_code_fits(lengths: Seq<u8>, sym: nat)
    requires
        sym < lengths.len(),
        1 <= lengths[sym as int] <= MAX_BITS,
        length_error(lengths) is None,
    ensures
        code_of(lengths, sym) < pow2(lengths[sym as int] as nat),
{
    lemma_code_rank(lengths, sym);
    let l = lengths[sym as int] as nat;
    assert(slack(lengths, l) >= 0);
    lemma_kraft(lengths, l);
}

// ---------------------------------------------------------------------------
// The fixed codes
// ---------------------------------------------------------------------------

/// The fixed code of a literal or length symbol, as the format tabulates it.
pub open spec fn fixed_literal_code(sym: nat) -> nat {
    if sym < 144 {
        0x30 + sym
    } else if sym < 256 {
        (0x190 + (sym - 144)) as nat
    } else if sym < 280 {
        (sym - 256) as nat
    } else {
        (0xc0 + (sym - 280)) as nat
    }
}

/// The fixed literal code has 8 bits for 0 to 143 and for 280 to 287, 9 for 144
/// to 255, 7 for 256 to 279, and the tabulated codes; the fixed distance code
/// is the distance symbol in 5 bits.
pub proof fn law_fixed_codes(sym: nat)
    requires
        sym < 288,
    ensures
        fixed_literals().len() == 288,
        fixed_literals()[sym as int] == (if sym < 144 {
            8u8
        } else if sym < 256 {
            9u8
        } else if sym < 280 {
            7u8
        } else {
            8u8
        }),
        code_of(fixed_literals(), sym) == fixed_literal_code(sym),
        fixed_distances().len() == 30,
        sym < 30 ==> fixed_distances()[sym as int] == 5 && code_of(fixed_distances(), sym) == sym,
{
    let f = fixed_literals();
    let l = f[sym as int] as nat;
    lemma_code_rank(f, sym);
    lemma_fixed_literal_counts(l, sym);
    assert forall|k: nat| #[trigger] count_of(f, k) == if k == 8 {
        152nat
    } else if k == 9 {
        112
    } else if k == 7 {
        24
    } else {
        0
    } by {
        lemma_fixed_literal_counts(k, 288);
    }
    reveal_with_fuel(first_code, 10);
    assert(first_code(f, 7) == 0);
    assert(first_code(f, 8) == 48);
    assert(first_code(f, 9) == 400);
    if sym < 30 {
        let d = fixed_distances();
        lemma_code_rank(d, sym);
        lemma_fixed_distance_counts(5, sym);
        assert forall|k: nat| #[trigger] count_of(d, k) == if k == 5 {
            30nat
        } else {
            0
        } by {
            lemma_fixed_distance_counts(k, 30);
        }
        assert(first_code(d, 5) == 0);
    }
}

} // verus!
