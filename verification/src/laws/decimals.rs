//! The text of a double is read back as the same double.

use vstd::prelude::*;
use crate::bignat::{lemma_power_add, lemma_power_positive, power};
use crate::float::{binary_den, binary_num, decimal_den, decimal_num, exponent, half_even, is_negative, lemma_exact_nearest, lemma_exponent_found, lemma_small_shift, lemma_widen_value, lemma_zero_binary, magnitude, nearest_bits, significand, step_den, step_num, widened, with_sign, INFINITY, P52, P53, SIGN};
use crate::shortest::{gap_below, is_shortest, lemma_first_state, lemma_found, lemma_none_above, lemma_none_here, lemma_shortest_unique, lemma_state_down, lemma_state_positive, lemma_state_reads, lemma_state_up, reads_back, shortest, state, unit_den, unit_num};

verus! {

/// A quotient within half a unit of `m` rounds to it; at exactly half a unit
/// only when `m` is even.
pub proof fn lemma_half_even_near(n: nat, d: nat, m: nat)
    requires
        d > 0,
        (2 * m - 1) * d <= 2 * n <= (2 * m + 1) * d,
        m % 2 == 1 ==> (2 * m - 1) * d < 2 * n < (2 * m + 1) * d,
    ensures
        half_even(n, d) == m,
{
    if n >= m * d {
        let r = n - m * d;
        assert(0 <= r < d && 2 * r <= d && (2 * r == d ==> 2 * n == (2 * m + 1) * d))
            by (nonlinear_arith)
            requires
                r == n - m * d,
                n >= m * d,
                2 * n <= (2 * m + 1) * d,
                d > 0,
        ;
        vstd::arithmetic::div_mod::lemma_fundamental_div_mod_converse(
            n as int,
            d as int,
            m as int,
            r,
        );
    } else {
        assert(m > 0) by (nonlinear_arith)
            requires
                n < m * d,
                n >= 0,
        ;
        let r = n - (m - 1) * d;
        assert(0 <= r < d && 2 * r >= d && (2 * r == d ==> 2 * n == (2 * m - 1) * d))
            by (nonlinear_arith)
            requires
                r == n - (m - 1) * d,
                n < m * d,
                2 * n >= (2 * m - 1) * d,
                d > 0,
        ;
        vstd::arithmetic::div_mod::lemma_fundamental_div_mod_converse(
            n as int,
            d as int,
            m - 1,
            r,
        );
    }
}

/// A number inside the rounding interval of a double is nearest to it.
proof fn lemma_interval_nearest(a: nat, b: nat, mag: u64)
    requires
        b > 0,
        0 < mag < INFINITY,
        ({
            let m = significand(mag);
            let e = exponent(mag);
            let d = step_den(b, e);
            let n = step_num(a);
            if m % 2 == 0 {
                (4 * m - gap_below(m, e)) * d <= 4 * n <= (4 * m + 2) * d
            } else {
                (4 * m - gap_below(m, e)) * d < 4 * n < (4 * m + 2) * d
            }
        }),
    ensures
        nearest_bits(a, b) == mag,
{
    let m = significand(mag);
    let e = exponent(mag);
    let d = step_den(b, e);
    let n = step_num(a);
    let g = gap_below(m, e);
    lemma_power_positive(2, (e + 1074) as nat);
    assert(d > 0) by (nonlinear_arith)
        requires
            d == b * power(2, (e + 1074) as nat),
            b > 0,
            power(2, (e + 1074) as nat) > 0,
    ;
    assert(2 * n <= (2 * m + 1) * d && (m % 2 == 1 ==> 2 * n < (2 * m + 1) * d))
        by (nonlinear_arith)
        requires
            4 * n <= (4 * m + 2) * d,
            m % 2 == 1 ==> 4 * n < (4 * m + 2) * d,
    ;
    assert(n < d * P53) by (nonlinear_arith)
        requires
            2 * n <= (2 * m + 1) * d,
            m < P53,
            d > 0,
    ;
    if e == -1074 || n >= d * P52 {
        assert((2 * m - 1) * d <= 2 * n && (m % 2 == 1 ==> (2 * m - 1) * d < 2 * n))
            by (nonlinear_arith)
            requires
                (4 * m - g) * d <= 4 * n,
                m % 2 == 1 ==> (4 * m - g) * d < 4 * n,
                g == 2 || (g == 1 && m == P52 && n >= d * P52),
                d > 0,
        ;
        lemma_exponent_found(a, b, e, -1074);
        lemma_half_even_near(n, d, m);
    } else {
        assert(m == P52) by (nonlinear_arith)
            requires
                (4 * m - g) * d <= 4 * n,
                n < d * P52,
                g <= 2,
                m >= P52,
                d > 0,
        ;
        let p = power(2, (e - 1 + 1074) as nat);
        lemma_power_positive(2, (e - 1 + 1074) as nat);
        assert((e + 1074 - 1) as nat == (e - 1 + 1074) as nat);
        assert(power(2, (e + 1074) as nat) == 2 * p);
        let c = step_den(b, e - 1);
        assert(d == 2 * c && c > 0) by (nonlinear_arith)
            requires
                d == b * (2 * p),
                c == b * p,
                b > 0,
                p > 0,
        ;
        assert(n < c * P53 && n >= c * P52 && (2 * P53 - 1) * c <= 2 * n && 2 * n <= (2 * P53 + 1)
            * c) by (nonlinear_arith)
            requires
                d == 2 * c,
                c > 0,
                n < d * P52,
                (4 * m - g) * d <= 4 * n,
                g == 1,
                m == P52,
                P53 == 2 * P52,
                P52 > 2,
        ;
        lemma_exponent_found(a, b, e - 1, -1074);
        lemma_half_even_near(n, c, P53 as nat);
    }
}

/// A number equal to a decimal that reads back as a double is nearest to that
/// double.
pub proof fn lemma_reads_back_nearest(mag: u64, s: nat, q: int, a: nat, b: nat)
    requires
        0 < mag < INFINITY,
        b > 0,
        reads_back(significand(mag), exponent(mag), s, q),
        a * decimal_den(q) == b * decimal_num(s, q),
    ensures
        nearest_bits(a, b) == mag,
{
    let m = significand(mag);
    let e = exponent(mag);
    let n = step_num(a);
    let d = step_den(b, e);
    let x = s * unit_num(q, e - 2);
    let u = unit_den(q, e - 2);
    let a1 = if q >= 0 {
        power(10, q as nat)
    } else {
        1
    };
    let a2 = if q < 0 {
        power(10, (-q) as nat)
    } else {
        1
    };
    let e1 = if e < 2 {
        power(2, (2 - e) as nat)
    } else {
        1
    };
    let e2 = if e >= 2 {
        power(2, (e - 2) as nat)
    } else {
        1
    };
    let h = power(2, 1074);
    let k = power(2, (e + 1074) as nat);
    assert((-(e - 2)) as nat == (2 - e) as nat);
    assert(unit_num(q, e - 2) == a1 * e1);
    assert(u == a2 * e2);
    lemma_power_positive(2, 1074);
    lemma_power_positive(2, (e + 1074) as nat);
    if q < 0 {
        lemma_power_positive(10, (-q) as nat);
    }
    if e >= 2 {
        lemma_power_positive(2, (e - 2) as nat);
    }
    assert(a2 > 0 && e2 > 0);
    assert(u > 0) by (nonlinear_arith)
        requires
            u == a2 * e2,
            a2 > 0,
            e2 > 0,
    ;
    assert(d > 0) by (nonlinear_arith)
        requires
            d == b * k,
            b > 0,
            k > 0,
    ;
    assert(4 * h * e2 == e1 * k) by {
        reveal_with_fuel(power, 3);
        assert(power(2, 2) == 4);
        if e >= 2 {
            lemma_power_add(2, 1076, (e - 2) as nat);
            lemma_power_add(2, 2, 1074);
            assert(1076 + (e - 2) as nat == (e + 1074) as nat);
            assert(4 * h * e2 == k);
        } else {
            lemma_power_add(2, (2 - e) as nat, (e + 1074) as nat);
            lemma_power_add(2, 2, 1074);
            assert((2 - e) as nat + (e + 1074) as nat == 1076nat);
        }
    }
    assert(a * a2 == b * (s * a1)) by {
        assert(decimal_den(q) == a2);
        if q >= 0 {
            assert(decimal_num(s, q) == s * a1);
        } else {
            assert(s * 1 == s);
        }
    }
    assert((4 * n) * u == (a * a2) * (4 * h * e2)) by (nonlinear_arith)
        requires
            n == a * h,
            u == a2 * e2,
    ;
    assert(x * d == (b * (s * a1)) * (e1 * k)) by (nonlinear_arith)
        requires
            x == s * (a1 * e1),
            d == b * k,
    ;
    let lo = 4 * m - gap_below(m, e);
    let hi = (4 * m + 2) as int;
    lemma_cross(lo, x as int, u as int, (4 * n) as int, d as int);
    lemma_cross(hi, x as int, u as int, (4 * n) as int, d as int);
    lemma_interval_nearest(a, b, mag);
}

/// `y / d == x / u`, so both compare alike with a whole number.
proof fn lemma_cross(c: int, x: int, u: int, y: int, d: int)
    requires
        u > 0,
        d > 0,
        y * u == x * d,
    ensures
        (c * u <= x) == (c * d <= y),
        (c * u < x) == (c * d < y),
        (x <= c * u) == (y <= c * d),
        (x < c * u) == (y < c * d),
{
    assert((c * u <= x) == ((c * u) * d <= x * d)) by (nonlinear_arith)
        requires
            d > 0,
    ;
    assert((c * d <= y) == ((c * d) * u <= y * u)) by (nonlinear_arith)
        requires
            u > 0,
    ;
    assert((x <= c * u) == (x * d <= (c * u) * d)) by (nonlinear_arith)
        requires
            d > 0,
    ;
    assert((y <= c * d) == (y * u <= (c * d) * u)) by (nonlinear_arith)
        requires
            u > 0,
    ;
    assert((c * u) * d == (c * d) * u) by (nonlinear_arith);
}

/// From a state in which no decimal at `q` or above is read back, a shortest
/// one is found further down.
proof fn lemma_descend(
    m: nat,
    e: int,
    q: int,
    s: nat,
    r: nat,
    minus: nat,
    plus: nat,
    t: nat,
) -> (d: (nat, int))
    requires
        m > 0,
        state(m, e, q, s, r, minus, plus, t),
        r < s,
        plus <= s,
        forall|c: nat, p: int| p >= q ==> !#[trigger] reads_back(m, e, c, p),
    ensures
        is_shortest(m, e, d.0, d.1),
    decreases s - plus,
{
    lemma_state_positive(m, e, q, s, r, minus, plus, t);
    let digit = (10 * r) / s;
    let rest = (10 * r) % s;
    vstd::arithmetic::div_mod::lemma_fundamental_div_mod((10 * r) as int, s as int);
    assert(10 * r == digit * s + rest) by (nonlinear_arith)
        requires
            10 * r == s * digit + rest,
    ;
    lemma_state_down(m, e, q, s, r, minus, plus, t, digit, rest);
    let t1 = 10 * t + digit;
    let down = reads_back(m, e, t1, q - 1);
    let up = reads_back(m, e, t1 + 1, q - 1);
    if down || up {
        let c = if up && (!down || 2 * rest >= s) {
            t1 + 1
        } else {
            t1
        };
        lemma_found(m, e, q - 1, s, rest, 10 * minus, 10 * plus, t1, down, up, c);
        (c, q - 1)
    } else {
        lemma_none_here(m, e, q - 1, s, rest, 10 * minus, 10 * plus, t1);
        lemma_state_reads(m, e, q - 1, s, rest, 10 * minus, 10 * plus, t1, t1);
        lemma_state_reads(m, e, q - 1, s, rest, 10 * minus, 10 * plus, t1, t1 + 1);
        assert((t1 + 1) * s == t1 * s + s) by (nonlinear_arith);
        lemma_state_positive(m, e, q - 1, s, rest, 10 * minus, 10 * plus, t1);
        lemma_descend(m, e, q - 1, s, rest, 10 * minus, 10 * plus, t1)
    }
}

/// Raise the power of ten until the number with its neighbours is below it.
proof fn lemma_ascend(m: nat, e: int, q: int, s: nat, r: nat, minus: nat, plus: nat) -> (d: (
    nat,
    int,
))
    requires
        m > 0,
        state(m, e, q, s, r, minus, plus, 0),
    ensures
        is_shortest(m, e, d.0, d.1),
    decreases (if r + plus >= s { r + plus + 1 - s } else { 0 }),
{
    lemma_state_positive(m, e, q, s, r, minus, plus, 0);
    if r + plus < s {
        lemma_none_above(m, e, q, s, r, minus, plus);
        lemma_descend(m, e, q, s, r, minus, plus, 0)
    } else {
        lemma_state_up(m, e, q, s, r, minus, plus);
        lemma_ascend(m, e, q + 1, 10 * s, r, minus, plus)
    }
}

/// Every positive double has a shortest decimal.
pub proof fn lemma_shortest_exists(m: nat, e: int)
    requires
        m > 0,
    ensures
        is_shortest(m, e, shortest(m, e).0, shortest(m, e).1),
{
    let g = gap_below(m, e);
    let d = if e < 2 {
        let s = power(2, (2 - e) as nat);
        lemma_first_state(m, e, s, 4 * m, g, 2);
        lemma_ascend(m, e, 0, s, 4 * m, g, 2)
    } else {
        let p = power(2, (e - 2) as nat);
        lemma_first_state(m, e, 1, 4 * m * p, g * p, 2 * p);
        lemma_ascend(m, e, 0, 1, 4 * m * p, g * p, 2 * p)
    };
    lemma_shortest_unique(m, e, d.0, d.1);
}

/// The shortest decimal of a double is read back as that double.
pub proof fn law_shortest_reads_back(mag: u64)
    requires
        0 < mag < INFINITY,
    ensures
        ({
            let d = shortest(significand(mag), exponent(mag));
            nearest_bits(decimal_num(d.0, d.1), decimal_den(d.1)) == mag
        }),
{
    let m = significand(mag);
    let e = exponent(mag);
    lemma_shortest_exists(m, e);
    let d = shortest(m, e);
    if d.1 < 0 {
        lemma_power_positive(10, (-d.1) as nat);
    }
    let x = decimal_num(d.0, d.1);
    let y = decimal_den(d.1);
    assert(x * y == y * x) by (nonlinear_arith);
    lemma_reads_back_nearest(mag, d.0, d.1, x, y);
}

// ---------------------------------------------------------------------------
// Single precision
// ---------------------------------------------------------------------------

/// A finite single-precision number is `single_significand * 2^single_exponent`.
pub open spec fn single_significand(mag: u32) -> nat {
    if mag < 0x80_0000 {
        mag as nat
    } else {
        (mag % 0x80_0000 + 0x80_0000) as nat
    }
}

pub open spec fn single_exponent(mag: u32) -> int {
    if mag < 0x80_0000 {
        -149
    } else {
        mag as int / 0x80_0000 - 150
    }
}

/// The parts of a double with a full significand.
proof fn lemma_parts(e: int, m: nat, w: u64)
    requires
        -1074 <= e <= 971,
        P52 <= m < P53,
        w == (e + 1074) * P52 + m,
    ensures
        significand(w) == m,
        exponent(w) == e,
{
    let q = e + 1075;
    let r = m - P52;
    assert((e + 1074) * P52 + m == q * P52 + r);
    assert(w as int / P52 as int == q && w as int % P52 as int == r) by {
        vstd::arithmetic::div_mod::lemma_fundamental_div_mod_converse(
            w as int,
            P52 as int,
            q,
            r,
        );
    }
}

/// How often a subnormal significand has to be doubled to be full.
proof fn lemma_doublings(f: nat, k: nat) -> (n: nat)
    requires
        0 < f,
        k <= 23,
        f * power(2, k) < 0x100_0000,
        f * power(2, k) >= power(2, k),
    ensures
        n <= 23,
        0x80_0000 <= f * power(2, n) < 0x100_0000,
    decreases 23 - k,
{
    let m = f * power(2, k);
    if m < 0x80_0000 {
        lemma_small_shift(k, m);
        assert(power(2, k + 1) == 2 * power(2, k));
        assert(f * (2 * power(2, k)) == 2 * m) by (nonlinear_arith)
            requires
                m == f * power(2, k),
        ;
        lemma_doublings(f, k + 1)
    } else {
        k
    }
}

/// A number whose significand fills 24 bits after `k` doublings is a double.
proof fn lemma_full(m: nat, e: int, k: nat)
    requires
        k <= 23,
        0x80_0000 <= m * power(2, k) < 0x100_0000,
        -149 <= e <= 104,
        -172 <= e - k,
    ensures
        ({
            let w = nearest_bits(binary_num(m, e), binary_den(e));
            &&& w < SIGN
            &&& significand(w) * power(2, (exponent(w) + 1074) as nat) == m * power(
                2,
                (e + 1074) as nat,
            )
        }),
{
    let p = power(2, k);
    let full = m * p;
    let low = e - k - 29;
    lemma_power_29();
    lemma_power_add(2, k, 29);
    assert(m * (p * 0x2000_0000) == full * 0x2000_0000) by (nonlinear_arith)
        requires
            full == m * p,
    ;
    lemma_widen_value(m, e, k);
    lemma_exact_nearest(binary_num(m, e), binary_den(e), full * 0x2000_0000, low);
    let w = nearest_bits(binary_num(m, e), binary_den(e));
    lemma_parts(low, full * 0x2000_0000, w);
    lemma_power_add(2, k + 29, (low + 1074) as nat);
    let u = power(2, k + 29);
    let v = power(2, (low + 1074) as nat);
    assert((m * u) * v == m * (u * v)) by (nonlinear_arith);
    assert(k + 29 + (low + 1074) as nat == (e + 1074) as nat);
}

proof fn lemma_power_29()
    ensures
        power(2, 29) == 0x2000_0000,
{
    reveal_with_fuel(power, 30);
}

/// Widening takes the double nearest to the value.
proof fn lemma_widened_nearest(bits: u32)
    requires
        bits % 0x8000_0000 < 0x7f80_0000,
    ensures
        ({
            let mag = (bits % 0x8000_0000) as u32;
            let m = single_significand(mag);
            let e = single_exponent(mag);
            widened(bits) == with_sign(
                bits >= 0x8000_0000,
                nearest_bits(binary_num(m, e), binary_den(e)),
            )
        }),
{
}

/// Widening to double precision keeps the value, and the sign, of every
/// finite single-precision number exactly. Values are compared on the scale of
/// the smallest double.
pub proof fn law_widening_is_exact(bits: u32)
    requires
        bits % 0x8000_0000 < 0x7f80_0000,
    ensures
        ({
            let mag = (bits % 0x8000_0000) as u32;
            let w = magnitude(widened(bits));
            &&& is_negative(widened(bits)) == (bits >= 0x8000_0000)
            &&& significand(w) * power(2, (exponent(w) + 1074) as nat) == single_significand(mag)
                * power(2, (single_exponent(mag) + 1074) as nat)
        }),
{
    let mag = (bits % 0x8000_0000) as u32;
    let m = single_significand(mag);
    let e = single_exponent(mag);
    lemma_widened_nearest(bits);
    assert(power(2, 0) == 1);
    assert(m * 1 == m);
    if m == 0 {
        lemma_zero_binary();
        assert(0 * power(2, 0) == 0) by (nonlinear_arith);
        assert(0 * power(2, 925) == 0) by (nonlinear_arith);
    } else if mag < 0x80_0000 {
        let k = lemma_doublings(m, 0);
        lemma_full(m, e, k);
    } else {
        lemma_full(m, e, 0);
    }
}

} // verus!
