//! IEEE 754 double-precision numbers, held as their 64 bits: reading them
//! from decimal text, and widening single-precision numbers. Writing them is
//! the business of [`crate::shortest`].

use vstd::prelude::*;
use crate::bignat::{lemma_power_add, lemma_power_monotone, lemma_power_positive, power, Big};

verus! {

/// The number a run of ASCII digits stands for.
pub open spec fn digit_bytes_value(s: Seq<u8>) -> nat
    decreases s.len(),
{
    if s.len() == 0 {
        0
    } else {
        digit_bytes_value(s.drop_last()) * 10 + (s.last() as nat - 48) as nat
    }
}

pub proof fn lemma_digit_bytes_prefix(s: Seq<u8>, n: int)
    requires
        0 <= n <= s.len(),
    ensures
        digit_bytes_value(s.take(n)) <= digit_bytes_value(s),
    decreases s.len() - n,
{
    if n < s.len() {
        lemma_digit_bytes_prefix(s, n + 1);
        assert(s.take(n + 1).drop_last() =~= s.take(n));
    } else {
        assert(s.take(n) =~= s);
    }
}

pub open spec fn is_digit_byte(c: u8) -> bool {
    48 <= c <= 57
}

// ---------------------------------------------------------------------------
// Layout of a double
// ---------------------------------------------------------------------------

/// Two to the power 52: the weight of the exponent field.
pub const P52: u64 = 0x10_0000_0000_0000;

/// Two to the power 53: one more than the largest significand.
pub const P53: u64 = 0x20_0000_0000_0000;

/// The bits of positive infinity.
pub const INFINITY: u64 = 0x7ff0_0000_0000_0000;

/// The sign bit.
pub const SIGN: u64 = 0x8000_0000_0000_0000;

pub open spec fn is_negative(bits: u64) -> bool {
    bits >= SIGN
}

/// The bits without the sign.
pub open spec fn magnitude(bits: u64) -> u64 {
    if bits >= SIGN {
        (bits - SIGN) as u64
    } else {
        bits
    }
}

pub open spec fn is_finite(bits: u64) -> bool {
    magnitude(bits) < INFINITY
}

pub fn finite(bits: u64) -> (r: bool)
    ensures
        r == is_finite(bits),
{
    if bits >= SIGN {
        bits - SIGN < INFINITY
    } else {
        bits < INFINITY
    }
}

pub open spec fn with_sign(neg: bool, x: u64) -> u64 {
    if neg {
        (x + SIGN) as u64
    } else {
        x
    }
}

/// A finite double is `significand * 2^exponent`.
pub open spec fn significand(mag: u64) -> nat {
    if mag < P52 {
        mag as nat
    } else {
        (mag % P52 + P52) as nat
    }
}

pub open spec fn exponent(mag: u64) -> int {
    if mag < P52 {
        -1074
    } else {
        mag as int / P52 as int - 1075
    }
}

// ---------------------------------------------------------------------------
// Rounding
// ---------------------------------------------------------------------------

/// `n / d` rounded to the nearest integer, ties to the even one.
pub open spec fn half_even(n: nat, d: nat) -> nat {
    if 2 * (n % d) > d || (2 * (n % d) == d && (n / d) % 2 == 1) {
        n / d + 1
    } else {
        n / d
    }
}

/// Numerator of `a / b / 2^e`; see [`step_den`].
pub open spec fn step_num(a: nat) -> nat {
    a * power(2, 1074)
}

/// Denominator of `a / b / 2^e`, for the exponents a double can have.
pub open spec fn step_den(b: nat, e: int) -> nat {
    b * power(2, (e + 1074) as nat)
}

/// The smallest exponent from `e` on at which `a / b` has a significand below
/// `2^53`; 972 when no double is that large.
pub open spec fn exponent_from(a: nat, b: nat, e: int) -> int
    decreases 972 - e,
{
    if e >= 972 || step_num(a) < step_den(b, e) * P53 {
        e
    } else {
        exponent_from(a, b, e + 1)
    }
}

/// The bits of the double nearest to `a / b`, ties to the even significand;
/// infinity when it is out of range.
pub open spec fn nearest_bits(a: nat, b: nat) -> u64 {
    let e = exponent_from(a, b, -1074);
    let x = (e + 1074) * P52 + half_even(step_num(a), step_den(b, e));
    if x >= INFINITY {
        INFINITY
    } else {
        x as u64
    }
}

/// Numerator of `digits * 10^exp`.
pub open spec fn decimal_num(digits: nat, exp: int) -> nat {
    if exp >= 0 {
        digits * power(10, exp as nat)
    } else {
        digits
    }
}

/// Denominator of `digits * 10^exp`.
pub open spec fn decimal_den(exp: int) -> nat {
    if exp >= 0 {
        1
    } else {
        power(10, (-exp) as nat)
    }
}

/// The double nearest to `digits * 10^exp`.
pub open spec fn decimal_double(neg: bool, digits: nat, exp: int) -> u64 {
    with_sign(neg, nearest_bits(decimal_num(digits, exp), decimal_den(exp)))
}

proof fn lemma_p53()
    ensures
        power(2, 53) == P53,
{
    assert(power(2, 13) == 8192) by {
        reveal_with_fuel(power, 14);
    }
    assert(power(2, 14) == 2 * power(2, 13));
    lemma_power_add(2, 13, 13);
    lemma_power_add(2, 13, 14);
    lemma_power_add(2, 26, 27);
    assert(power(2, 26) == 67108864);
    assert(power(2, 27) == 134217728);
    assert(power(2, 26) * power(2, 27) == 9007199254740992) by (nonlinear_arith)
        requires
            power(2, 26) == 67108864,
            power(2, 27) == 134217728,
    ;
}

/// Dividing `n` by `d` with a quotient `q` and a remainder `r` both scaled by
/// `k` is dividing it without the scale.
proof fn lemma_scaled_division(n: nat, d: nat, k: nat, q: nat, r: nat)
    requires
        d > 0,
        k > 0,
        n * k == q * (d * k) + r,
        r < d * k,
    ensures
        n / d == q,
        (n % d) * k == r,
{
    let left = n - q * d;
    assert(left * k == r) by (nonlinear_arith)
        requires
            n * k == q * (d * k) + r,
            left == n - q * d,
    ;
    assert(0 <= left < d) by (nonlinear_arith)
        requires
            left * k == r,
            0 <= r,
            r < d * k,
            k > 0,
    ;
    vstd::arithmetic::div_mod::lemma_fundamental_div_mod_converse(
        n as int,
        d as int,
        q as int,
        left as int,
    );
}

/// The double nearest to `a / b`.
fn nearest(a: Big, b: Big) -> (r: u64)
    requires
        b@ > 0,
    ensures
        r == nearest_bits(a@, b@),
        r <= INFINITY,
{
    let ghost an = a@;
    let ghost bn = b@;
    let mut num: Big = a;
    num.mul_power(2, 1074);
    let mut den: Big = b;
    let mut cap: Big = den.copy();
    cap.mul_power(2, 53);
    let mut e: i32 = -1074;
    proof {
        lemma_p53();
        assert(step_den(bn, -1074) == bn) by (nonlinear_arith)
            requires
                step_den(bn, -1074) == bn * power(2, 0),
                power(2, 0) == 1,
        ;
    }
    while e < 972 && !num.less(&cap)
        invariant
            -1074 <= e <= 972,
            num@ == step_num(an),
            den@ == step_den(bn, e as int),
            cap@ == den@ * P53,
            exponent_from(an, bn, e as int) == exponent_from(an, bn, -1074),
            e > -1074 ==> step_num(an) >= step_den(bn, e - 1) * P53,
            bn > 0,
            an == a@,
            bn == b@,
        decreases 972 - e,
    {
        den.mul_add(2, 0);
        cap.mul_add(2, 0);
        proof {
            let p = power(2, (e + 1074) as nat);
            assert((e + 1 + 1074 - 1) as nat == (e + 1074) as nat);
            assert(step_den(bn, e + 1) == bn * (2 * p));
            assert((bn * p) * 2 == bn * (2 * p)) by (nonlinear_arith);
            let d = step_den(bn, e as int);
            assert((d * P53) * 2 == (d * 2) * P53) by (nonlinear_arith);
        }
        e = e + 1;
    }
    proof {
        lemma_power_positive(2, (e + 1074) as nat);
        let p = power(2, (e + 1074) as nat);
        assert(bn * p > 0) by (nonlinear_arith)
            requires
                bn > 0,
                p > 0,
        ;
    }
    if e >= 972 {
        proof {
            lemma_out_of_range(an, bn);
        }
        return INFINITY;
    }
    let ghost n = num@;
    let ghost d = den@;
    let mut q: u64 = 0;
    let mut i: u32 = 0;
    let ghost mut k: nat = 1;
    let ghost mut room: nat = 1;
    proof {
        assert(n * 1 == 0 * (d * P53) + n) by (nonlinear_arith);
    }
    while i < 53
        invariant
            i <= 53,
            cap@ == d * P53,
            d > 0,
            num@ < cap@,
            n * k == q * cap@ + num@,
            k == power(2, i as nat),
            room == power(2, i as nat),
            q < room,
            room <= P53,
        decreases 53 - i,
    {
        let ghost r = num@;
        let ghost c = cap@;
        let ghost old_q = q as nat;
        proof {
            lemma_power_monotone(2, (i + 1) as nat, 53);
            lemma_p53();
            assert(n * (2 * k) == (2 * old_q) * c + 2 * r) by (nonlinear_arith)
                requires
                    n * k == old_q * c + r,
            ;
        }
        num.mul_add(2, 0);
        q = q * 2;
        if !num.less(&cap) {
            num.sub(&cap);
            q = q + 1;
            proof {
                assert((2 * old_q + 1) * c + (2 * r - c) == (2 * old_q) * c + 2 * r)
                    by (nonlinear_arith);
            }
        }
        proof {
            k = 2 * k;
            room = 2 * room;
        }
        i = i + 1;
    }
    proof {
        lemma_p53();
        assert(P53 as nat > 0);
        lemma_scaled_division(n, d, P53 as nat, q as nat, num@);
        let r = n % d;
        assert((2 * (r * P53) > d * P53) == (2 * r > d)) by (nonlinear_arith);
        assert((2 * (r * P53) == d * P53) == (2 * r == d)) by (nonlinear_arith);
    }
    num.mul_add(2, 0);
    let up: bool = cap.less(&num) || (!num.less(&cap) && q % 2 == 1);
    let m: u64 = if up {
        q + 1
    } else {
        q
    };
    assert(m == half_even(n, d));
    let x: u64 = (e + 1074) as u64 * P52 + m;
    if x >= INFINITY {
        INFINITY
    } else {
        x
    }
}

/// A number whose exponent would have to be 972 is out of range.
proof fn lemma_out_of_range(a: nat, b: nat)
    requires
        b > 0,
        exponent_from(a, b, -1074) == 972,
        step_num(a) >= step_den(b, 971) * P53,
    ensures
        nearest_bits(a, b) == INFINITY,
{
    let n = step_num(a);
    let d = step_den(b, 972);
    let p = power(2, 2045);
    lemma_power_positive(2, 2046);
    assert(power(2, 2046) == 2 * p);
    assert(d == 2 * step_den(b, 971)) by (nonlinear_arith)
        requires
            d == b * (2 * p),
            step_den(b, 971) == b * p,
    ;
    assert(d > 0) by (nonlinear_arith)
        requires
            d == b * (2 * p),
            b > 0,
            2 * p > 0,
    ;
    assert(n >= d * P52) by (nonlinear_arith)
        requires
            n >= step_den(b, 971) * P53,
            d == 2 * step_den(b, 971),
            P53 == 2 * P52,
    ;
    vstd::arithmetic::div_mod::lemma_div_is_ordered((d * P52) as int, n as int, d as int);
    assert((d * P52) as int / d as int == P52 as int) by {
        vstd::arithmetic::div_mod::lemma_div_by_multiple(P52 as int, d as int);
        assert(d * P52 == P52 * d) by (nonlinear_arith);
    }
}

// ---------------------------------------------------------------------------
// Decimal text to double
// ---------------------------------------------------------------------------

/// Decimal exponents beyond this are decided without arithmetic.
const FAR: i128 = 400;

proof fn lemma_ten_beats_eight(n: nat)
    ensures
        power(10, n) >= power(2, 3 * n),
    decreases n,
{
    if n > 0 {
        let k = (n - 1) as nat;
        lemma_ten_beats_eight(k);
        reveal_with_fuel(power, 4);
        assert(power(2, 3 * n) == 8 * power(2, 3 * k)) by {
            lemma_power_add(2, 3, 3 * k);
            assert(3 * n == 3 + 3 * k);
            assert(power(2, 3) == 8);
        }
    }
}

/// All exponents below 972 are too small for a number of at least `2^1024`.
proof fn lemma_far_exponent(a: nat, b: nat, e: int)
    requires
        b > 0,
        -1074 <= e <= 972,
        step_num(a) >= step_den(b, 971) * P53,
    ensures
        exponent_from(a, b, e) == 972,
    decreases 972 - e,
{
    if e < 972 {
        lemma_power_monotone(2, (e + 1074) as nat, 2045);
        let p = power(2, (e + 1074) as nat);
        let r = power(2, 2045);
        assert((b * p) * P53 <= (b * r) * P53) by (nonlinear_arith)
            requires
                p <= r,
        ;
        lemma_far_exponent(a, b, e + 1);
    }
}

/// `digits * 10^exp` is out of range when the exponent is that large.
proof fn lemma_far_above(digits: nat, exp: int)
    requires
        digits >= 1,
        exp >= FAR,
    ensures
        nearest_bits(decimal_num(digits, exp), decimal_den(exp)) == INFINITY,
{
    let a = decimal_num(digits, exp);
    let ten = power(10, exp as nat);
    lemma_ten_beats_eight(exp as nat);
    lemma_power_monotone(2, 1024, 3 * exp as nat);
    assert(a >= ten) by (nonlinear_arith)
        requires
            a == digits * ten,
            digits >= 1,
    ;
    let c = power(2, 1074);
    lemma_power_positive(2, 1074);
    lemma_power_add(2, 1024, 1074);
    lemma_power_add(2, 2045, 53);
    lemma_p53();
    let big = power(2, 1024);
    assert(a * c >= big * c) by (nonlinear_arith)
        requires
            a >= big,
    ;
    assert(1 * power(2, 2045) == power(2, 2045));
    assert(step_num(a) >= step_den(1, 971) * P53);
    lemma_far_exponent(a, 1, -1074);
    lemma_out_of_range(a, 1);
}

/// A number below half the smallest double is nearest to zero.
proof fn lemma_far_below(digits: nat, count: nat, exp: int)
    requires
        digits < power(10, count),
        exp < 0,
        exp + count <= -FAR,
    ensures
        nearest_bits(decimal_num(digits, exp), decimal_den(exp)) == 0,
{
    let b = decimal_den(exp);
    let gap = (-exp - count) as nat;
    lemma_power_add(10, count, gap);
    assert(count + gap == (-exp) as nat);
    lemma_ten_beats_eight(gap);
    lemma_power_monotone(2, 1075, 3 * gap);
    lemma_power_positive(10, gap);
    let c = power(2, 1074);
    assert(power(2, 1075) == 2 * c);
    let u = power(10, count);
    let v = power(10, gap);
    assert(2 * (digits * c) < b) by (nonlinear_arith)
        requires
            b == u * v,
            digits < u,
            v >= 2 * c,
            c >= 0,
            v > 0,
    ;
    let n = step_num(digits);
    assert(step_den(b, -1074) == b) by (nonlinear_arith)
        requires
            step_den(b, -1074) == b * power(2, 0),
            power(2, 0) == 1,
    ;
    assert(n < b * P53) by (nonlinear_arith)
        requires
            2 * n < b,
            P53 >= 1,
            n >= 0,
    ;
    vstd::arithmetic::div_mod::lemma_basic_div(n as int, b as int);
    vstd::arithmetic::div_mod::lemma_small_mod(n, b);
}

pub proof fn lemma_zero_digits_nearest(exp: int)
    ensures
        nearest_bits(decimal_num(0, exp), decimal_den(exp)) == 0,
{
    let b = decimal_den(exp);
    if exp >= 0 {
        assert(0 * power(10, exp as nat) == 0) by (nonlinear_arith);
    } else {
        lemma_power_positive(10, (-exp) as nat);
    }
    assert(0 * power(2, 1074) == 0) by (nonlinear_arith);
    assert(step_den(b, -1074) == b) by (nonlinear_arith)
        requires
            step_den(b, -1074) == b * power(2, 0),
            power(2, 0) == 1,
    ;
    vstd::arithmetic::div_mod::lemma_basic_div(0, b as int);
    vstd::arithmetic::div_mod::lemma_small_mod(0, b);
}

/// Digits from the first that is not zero on.
spec fn significant(s: Seq<u8>) -> nat
    decreases s.len(),
{
    if s.len() == 0 {
        0
    } else if significant(s.drop_last()) > 0 || s.last() != 48 {
        significant(s.drop_last()) + 1
    } else {
        0
    }
}

proof fn lemma_significant(s: Seq<u8>)
    requires
        forall|i: int| 0 <= i < s.len() ==> is_digit_byte(#[trigger] s[i]),
    ensures
        digit_bytes_value(s) < power(10, significant(s)),
        (significant(s) == 0) == (digit_bytes_value(s) == 0),
        significant(s) <= s.len(),
    decreases s.len(),
{
    if s.len() > 0 {
        lemma_significant(s.drop_last());
    }
}

/// A decimal exponent, held at a bound that is out of every range.
fn bounded_value(exp: &[u8]) -> (r: i128)
    requires
        forall|i: int| 0 <= i < exp@.len() ==> is_digit_byte(#[trigger] exp@[i]),
    ensures
        0 <= r <= 1_000_000_000_000_000_000_000_000_000_000,
        digit_bytes_value(exp@) == r || (r == 1_000_000_000_000_000_000_000_000_000_000
            && digit_bytes_value(exp@) >= r),
{
    let mut v: i128 = 0;
    let mut i: usize = 0;
    assert(exp@.take(0) =~= seq![]);
    while i < exp.len()
        invariant
            i <= exp@.len(),
            forall|i: int| 0 <= i < exp@.len() ==> is_digit_byte(#[trigger] exp@[i]),
            0 <= v < 1_000_000_000_000_000_000_000_000_000_000,
            v == digit_bytes_value(exp@.take(i as int)),
        decreases exp@.len() - i,
    {
        assert(exp@.take(i + 1).drop_last() =~= exp@.take(i as int));
        let next: i128 = v * 10 + (exp[i] - 48) as i128;
        if next >= 1_000_000_000_000_000_000_000_000_000_000 {
            proof {
                lemma_digit_bytes_prefix(exp@, i + 1);
            }
            return 1_000_000_000_000_000_000_000_000_000_000;
        }
        v = next;
        i = i + 1;
    }
    assert(exp@.take(i as int) =~= exp@);
    v
}

/// The double nearest to a decimal number: `digits`, of which the last
/// `frac_len` stand after the point, times ten to the power `exp`.
pub fn from_decimal(neg: bool, digits: &[u8], frac_len: usize, exp_neg: bool, exp: &[u8]) -> (r:
    u64)
    requires
        forall|i: int| 0 <= i < digits@.len() ==> is_digit_byte(#[trigger] digits@[i]),
        forall|i: int| 0 <= i < exp@.len() ==> is_digit_byte(#[trigger] exp@[i]),
    ensures
        r == decimal_double(
            neg,
            digit_bytes_value(digits@),
            (if exp_neg {
                -(digit_bytes_value(exp@) as int)
            } else {
                digit_bytes_value(exp@) as int
            }) - frac_len,
        ),
{
    let ghost d = digit_bytes_value(digits@);
    let ghost exact = (if exp_neg {
        -(digit_bytes_value(exp@) as int)
    } else {
        digit_bytes_value(exp@) as int
    }) - frac_len;
    let mut a: Big = Big::from_u64(0);
    let mut count: usize = 0;
    let mut i: usize = 0;
    assert(digits@.take(0) =~= seq![]);
    while i < digits.len()
        invariant
            i <= digits@.len(),
            forall|i: int| 0 <= i < digits@.len() ==> is_digit_byte(#[trigger] digits@[i]),
            a@ == digit_bytes_value(digits@.take(i as int)),
            count == significant(digits@.take(i as int)),
            count <= i,
        decreases digits@.len() - i,
    {
        assert(digits@.take(i + 1).drop_last() =~= digits@.take(i as int));
        a.mul_add(10, (digits[i] - 48) as u32);
        if count > 0 || digits[i] != 48 {
            count = count + 1;
        }
        i = i + 1;
    }
    proof {
        assert(digits@.take(i as int) =~= digits@);
        lemma_significant(digits@);
    }
    let v: i128 = bounded_value(exp);
    let e: i128 = (if exp_neg {
        -v
    } else {
        v
    }) - frac_len as i128;
    let x: u64 = if count == 0 {
        proof {
            lemma_zero_digits_nearest(exact);
        }
        0
    } else if e >= FAR {
        proof {
            lemma_far_above(d, exact);
        }
        INFINITY
    } else if e + count as i128 <= -FAR {
        proof {
            lemma_far_below(d, count as nat, exact);
        }
        0
    } else {
        assert(exact == e);
        let mut b: Big = Big::from_u64(1);
        if e >= 0 {
            a.mul_power(10, e as u128);
        } else {
            b.mul_power(10, (-e) as u128);
            proof {
                let p = power(10, (-exact) as nat);
                lemma_power_positive(10, (-exact) as nat);
                assert(1 * p == p) by (nonlinear_arith);
            }
        }
        nearest(a, b)
    };
    if neg {
        x + SIGN
    } else {
        x
    }
}

// ---------------------------------------------------------------------------
// Single to double
// ---------------------------------------------------------------------------

/// Numerator of `m * 2^e`.
pub open spec fn binary_num(m: nat, e: int) -> nat {
    if e >= 0 {
        m * power(2, e as nat)
    } else {
        m
    }
}

/// Denominator of `m * 2^e`.
pub open spec fn binary_den(e: int) -> nat {
    if e >= 0 {
        1
    } else {
        power(2, (-e) as nat)
    }
}

/// The double with the value of a single-precision number; infinities stay
/// infinite, and a NaN stays a (quiet) NaN with its payload.
pub open spec fn widened(bits: u32) -> u64 {
    let neg = bits >= 0x8000_0000;
    let mag = bits % 0x8000_0000;
    let x = mag / 0x80_0000;
    let f = mag % 0x80_0000;
    if x == 255 {
        with_sign(
            neg,
            (INFINITY + (if 0 < f < 0x40_0000 {
                f + 0x40_0000
            } else {
                f as int
            }) * 0x2000_0000) as u64,
        )
    } else if x == 0 {
        with_sign(neg, nearest_bits(binary_num(f as nat, -149), binary_den(-149)))
    } else {
        with_sign(
            neg,
            nearest_bits(
                binary_num((f + 0x80_0000) as nat, x - 150),
                binary_den(x - 150),
            ),
        )
    }
}

/// A number that is exactly `m * 2^e`, with a full significand, is its own
/// nearest double.
pub proof fn lemma_exact_nearest(a: nat, b: nat, m: nat, e: int)
    requires
        b > 0,
        -1074 <= e <= 971,
        m < P53,
        m >= P52 || e == -1074,
        step_num(a) == m * step_den(b, e),
    ensures
        nearest_bits(a, b) == (e + 1074) * P52 + m,
{
    let d = step_den(b, e);
    lemma_power_positive(2, (e + 1074) as nat);
    assert(d > 0) by (nonlinear_arith)
        requires
            d == b * power(2, (e + 1074) as nat),
            b > 0,
            power(2, (e + 1074) as nat) > 0,
    ;
    assert(m * d < d * P53) by (nonlinear_arith)
        requires
            m < P53,
            d > 0,
    ;
    if e > -1074 {
        assert(m * d >= d * P52) by (nonlinear_arith)
            requires
                m >= P52,
                d > 0,
        ;
    }
    lemma_exponent_found(a, b, e, -1074);
    vstd::arithmetic::div_mod::lemma_div_by_multiple(m as int, d as int);
    vstd::arithmetic::div_mod::lemma_mod_multiples_basic(m as int, d as int);
}

/// The exponent at which a significand is full is the one found.
pub proof fn lemma_exponent_found(a: nat, b: nat, e: int, from: int)
    requires
        b > 0,
        -1074 <= from <= e <= 971,
        step_num(a) < step_den(b, e) * P53,
        e > -1074 ==> step_num(a) >= step_den(b, e) * P52,
    ensures
        exponent_from(a, b, from) == e,
    decreases e - from,
{
    if from < e {
        let p = power(2, (from + 1074) as nat);
        let r = power(2, (e - 1 + 1074) as nat);
        lemma_power_monotone(2, (from + 1074) as nat, (e - 1 + 1074) as nat);
        assert(power(2, (e + 1074) as nat) == 2 * r) by {
            assert((e + 1074 - 1) as nat == (e - 1 + 1074) as nat);
        }
        assert((b * p) * P53 <= (b * (2 * r)) * P52) by (nonlinear_arith)
            requires
                p <= r,
                P53 == 2 * P52,
        ;
        lemma_exponent_found(a, b, e, from + 1);
    }
}

/// Doubling a significand and lowering the exponent keeps the value.
pub proof fn lemma_widen_value(m: nat, e: int, k: nat)
    requires
        -149 - 23 <= e - k,
        e <= 104,
    ensures
        step_num(binary_num(m, e)) == (m * power(2, k + 29)) * step_den(
            binary_den(e),
            e - k - 29,
        ),
        binary_den(e) > 0,
{
    let f = e - k - 29;
    if e >= 0 {
        lemma_power_add(2, k + 29, (f + 1074) as nat);
        lemma_power_add(2, e as nat, 1074);
        assert(k + 29 + (f + 1074) as nat == e as nat + 1074);
        let x = power(2, e as nat);
        let y = power(2, 1074);
        let u = power(2, k + 29);
        let v = power(2, (f + 1074) as nat);
        assert((m * x) * y == (m * u) * (1 * v)) by (nonlinear_arith)
            requires
                x * y == u * v,
        ;
    } else {
        let n = (-e) as nat;
        lemma_power_add(2, k + 29, (f + 1074) as nat);
        lemma_power_add(2, n, (e + 1074) as nat);
        assert(k + 29 + (f + 1074) as nat == (e + 1074) as nat);
        assert(n + (e + 1074) as nat == 1074nat);
        lemma_power_positive(2, n);
        let y = power(2, 1074);
        let u = power(2, k + 29);
        let v = power(2, (f + 1074) as nat);
        let w = power(2, n);
        assert(m * y == (m * u) * (w * v)) by (nonlinear_arith)
            requires
                y == w * (u * v),
        ;
    }
}

pub fn widen(bits: u32) -> (r: u64)
    ensures
        r == widened(bits),
{
    let neg: bool = bits >= 0x8000_0000;
    let mag: u32 = bits % 0x8000_0000;
    let x: u32 = mag / 0x80_0000;
    let f: u32 = mag % 0x80_0000;
    let r: u64 = if x == 255 {
        let payload: u32 = if 0 < f && f < 0x40_0000 {
            f + 0x40_0000
        } else {
            f
        };
        INFINITY + payload as u64 * 0x2000_0000
    } else if x > 0 {
        let m: u64 = (f + 0x80_0000) as u64;
        proof {
            let e = x - 150;
            lemma_widen_value(m as nat, e, 0);
            assert(power(2, 29) == 0x2000_0000) by {
                reveal_with_fuel(power, 30);
            }
            lemma_exact_nearest(
                binary_num(m as nat, e),
                binary_den(e),
                m as nat * 0x2000_0000,
                e - 29,
            );
        }
        (x as u64 + 895) * P52 + m * 0x2000_0000
    } else if f == 0 {
        proof {
            lemma_zero_binary();
        }
        0
    } else {
        let mut m: u64 = f as u64;
        let mut k: u32 = 0;
        let ghost mut p: nat = 1;
        while m < 0x80_0000
            invariant
                k <= 23,
                0 < f < 0x80_0000,
                m < 0x100_0000,
                p == power(2, k as nat),
                m == f * p,
                p >= power(2, k as nat),
                m >= 1,
                m >= p,
            decreases 0x100_0000 - m,
        {
            proof {
                assert(2 * (f * p) == f * (2 * p)) by (nonlinear_arith);
                lemma_small_shift(k as nat, m as nat);
            }
            m = m * 2;
            k = k + 1;
            proof {
                p = 2 * p;
            }
        }
        proof {
            lemma_widen_value(f as nat, -149, k as nat);
            lemma_power_add(2, k as nat, 29);
            assert(power(2, 29) == 0x2000_0000) by {
                reveal_with_fuel(power, 30);
            }
            assert(f as nat * (p * 0x2000_0000) == m * 0x2000_0000) by (nonlinear_arith)
                requires
                    m == f * p,
            ;
            lemma_exact_nearest(
                binary_num(f as nat, -149),
                binary_den(-149),
                m as nat * 0x2000_0000,
                -149 - k - 29,
            );
        }
        (896 - k as u64) * P52 + m * 0x2000_0000
    };
    if neg {
        r + SIGN
    } else {
        r
    }
}

/// Less than 23 doublings bring a positive number to `2^23`.
pub proof fn lemma_small_shift(k: nat, m: nat)
    requires
        k <= 23,
        m >= power(2, k),
        m < 0x80_0000,
    ensures
        k < 23,
{
    if k == 23 {
        assert(power(2, 23) == 0x80_0000) by {
            reveal_with_fuel(power, 24);
        }
    }
}

pub proof fn lemma_zero_binary()
    ensures
        nearest_bits(binary_num(0, -149), binary_den(-149)) == 0,
{
    let b = power(2, 149);
    lemma_power_positive(2, 149);
    assert(0 * power(2, 1074) == 0) by (nonlinear_arith);
    assert(0 * step_den(b, -1074) == 0) by (nonlinear_arith);
    lemma_exact_nearest(0, b, 0, -1074);
}

} // verus!
