//! Numbers and their decimal digits.

use vstd::prelude::*;
use crate::bignat::{lemma_power_positive, power};
use crate::float::{digit_bytes_value, exponent, exponent_from, half_even, is_negative, magnitude, nearest_bits, significand, step_den, step_num, widened, INFINITY, P52, P53};
use crate::json::{same_doc, same_float, Doc};
use crate::laws::decimals::lemma_shortest_exists;
use crate::laws::figures::lemma_rounding_error;
use crate::shortest::{gap_below, reads_back, shortest, unit_den, unit_num};
use crate::text::{dec, dec_int, digits_value, is_space, read_unsigned};

verus! {

// ---------------------------------------------------------------------------
// Doubles
// ---------------------------------------------------------------------------

proof fn lemma_exponent_least(a: nat, b: nat, from: int)
    requires
        -1074 <= from <= 972,
    ensures
        ({
            let e = exponent_from(a, b, from);
            &&& from <= e <= 972
            &&& e < 972 ==> step_num(a) < step_den(b, e) * P53
            &&& e > from ==> step_num(a) >= step_den(b, e - 1) * P53
        }),
    decreases 972 - from,
{
    if !(from >= 972 || step_num(a) < step_den(b, from) * P53) {
        lemma_exponent_least(a, b, from + 1);
    }
}

proof fn lemma_quotient_below(n: nat, d: nat, k: nat)
    requires
        d > 0,
        n < d * k,
    ensures
        half_even(n, d) <= k,
{
    vstd::arithmetic::div_mod::lemma_fundamental_div_mod(n as int, d as int);
    let q = n / d;
    assert(q < k) by (nonlinear_arith)
        requires
            d > 0,
            d * q <= n,
            n < d * k,
    ;
}

proof fn lemma_quotient_above(n: nat, d: nat, k: nat)
    requires
        d > 0,
        n >= d * k,
    ensures
        half_even(n, d) >= k,
{
    vstd::arithmetic::div_mod::lemma_fundamental_div_mod(n as int, d as int);
    vstd::arithmetic::div_mod::lemma_mod_bound(n as int, d as int);
    let q = n / d;
    let r = n % d;
    assert(q >= k) by (nonlinear_arith)
        requires
            d > 0,
            n == d * q + r,
            r < d,
            n >= d * k,
    ;
}

/// The double nearest to a quotient is off by half of its last place at most.
/// All is on the scale of the smallest double.
pub proof fn law_nearest_is_close(a: nat, b: nat)
    requires
        b > 0,
        nearest_bits(a, b) < INFINITY,
    ensures
        ({
            let w = nearest_bits(a, b);
            let place = b * power(2, (exponent(w) + 1074) as nat);
            let whole = 2 * (a * power(2, 1074));
            whole - place <= 2 * (significand(w) * place) <= whole + place
        }),
{
    let e = exponent_from(a, b, -1074);
    lemma_exponent_least(a, b, -1074);
    let k = (e + 1074) as nat;
    let p = power(2, k);
    lemma_power_positive(2, k);
    let d = step_den(b, e);
    assert(d > 0) by (nonlinear_arith)
        requires
            d == b * p,
            b > 0,
            p > 0,
    ;
    let n = step_num(a);
    let m = half_even(n, d);
    lemma_rounding_error(n, d);
    let x = (e + 1074) * P52 + m;
    if e > -1074 {
        let r = power(2, (e - 1 + 1074) as nat);
        assert(p == 2 * r);
        assert((b * r) * P53 == (b * (2 * r)) * P52) by (nonlinear_arith)
            requires
                P53 == 2 * P52,
        ;
        lemma_quotient_above(n, d, P52 as nat);
    }
    assert(e < 972) by {
        if e == 972 {
            assert(x >= INFINITY);
        }
    }
    lemma_quotient_below(n, d, P53 as nat);
    let w = nearest_bits(a, b);
    assert(w == x);
    if m < P53 {
        if m < P52 {
            assert(e == -1074);
        } else {
            assert(w as int / P52 as int == e + 1075 && w % P52 == m - P52) by {
                vstd::arithmetic::div_mod::lemma_fundamental_div_mod_converse(
                    w as int,
                    P52 as int,
                    e + 1075,
                    m - P52,
                );
            }
        }
        assert(significand(w) == m && exponent(w) == e);
    } else {
        assert(m == P53);
        assert(w as int / P52 as int == e + 1076 && w % P52 == 0) by {
            vstd::arithmetic::div_mod::lemma_fundamental_div_mod_converse(
                w as int,
                P52 as int,
                e + 1076,
                0,
            );
        }
        assert(significand(w) == P52 && exponent(w) == e + 1);
        assert((e + 1 + 1074) as nat == k + 1);
        assert(power(2, k + 1) == 2 * p);
        assert(P52 * (b * (2 * p)) == m * (b * p)) by (nonlinear_arith)
            requires
                m == P53,
                P53 == 2 * P52,
        ;
        assert(b * (2 * p) == 2 * (b * p)) by (nonlinear_arith);
    }
}

/// The sign of a double, and the two kinds of values that are not numbers, pass
/// through widening.
pub proof fn law_widening_of_specials(bits: u32)
    ensures
        bits == 0x7f80_0000 ==> widened(bits) == 0x7ff0_0000_0000_0000,
        bits == 0xff80_0000 ==> widened(bits) == 0xfff0_0000_0000_0000,
        bits % 0x8000_0000 > 0x7f80_0000 ==> magnitude(widened(bits)) > INFINITY && is_negative(
            widened(bits),
        ) == (bits >= 0x8000_0000),
{
    let mag = bits % 0x8000_0000;
    if mag >= 0x7f80_0000 {
        assert(mag / 0x80_0000 == 255);
        let f = mag % 0x80_0000;
        assert(mag == 0x7f80_0000 + f);
    }
}

// ---------------------------------------------------------------------------
// Shortest decimals
// ---------------------------------------------------------------------------

proof fn lemma_one_digit_less(m: nat, e: int, k: nat, q: int)
    requires
        reads_back(m, e, 10 * k, q),
    ensures
        reads_back(m, e, k, q + 1),
{
    let f = e - 2;
    let g = gap_below(m, e);
    if q >= 0 {
        assert(power(10, (q + 1) as nat) == 10 * power(10, q as nat));
        let p = power(10, q as nat);
        let t: nat = if f < 0 {
            power(2, (-f) as nat)
        } else {
            1
        };
        assert(k * ((10 * p) * t) == (10 * k) * (p * t)) by (nonlinear_arith);
        assert(k * unit_num(q + 1, f) == (10 * k) * unit_num(q, f));
        assert(unit_den(q + 1, f) == unit_den(q, f));
    } else {
        let n = (-q) as nat;
        assert(power(10, n) == 10 * power(10, (n - 1) as nat));
        assert((-(q + 1)) as nat == (n - 1) as nat);
        assert(power(10, 0) == 1);
        let p = power(10, (n - 1) as nat);
        let t: nat = if f >= 0 {
            power(2, f as nat)
        } else {
            1
        };
        let u = p * t;
        assert((10 * p) * t == 10 * u) by (nonlinear_arith)
            requires
                u == p * t,
        ;
        assert(unit_den(q, f) == 10 * u);
        assert(unit_den(q + 1, f) == u);
        assert(unit_num(q + 1, f) == unit_num(q, f));
        let x = unit_num(q, f);
        assert((10 * k) * x == 10 * (k * x)) by (nonlinear_arith);
        assert((4 * m - g) * (10 * u) == 10 * ((4 * m - g) * u)) by (nonlinear_arith);
        assert((4 * m + 2) * (10 * u) == 10 * ((4 * m + 2) * u)) by (nonlinear_arith);
    }
}

/// The shortest decimal of a double has no needless zero at its end.
pub proof fn law_no_needless_zero(mag: u64)
    requires
        0 < mag < INFINITY,
    ensures
        shortest(significand(mag), exponent(mag)).0 % 10 != 0,
{
    let m = significand(mag);
    let e = exponent(mag);
    lemma_shortest_exists(m, e);
    let d = shortest(m, e);
    if d.0 % 10 == 0 {
        let k = d.0 / 10;
        assert(d.0 == 10 * k);
        lemma_one_digit_less(m, e, k, d.1);
    }
}

// ---------------------------------------------------------------------------
// Text
// ---------------------------------------------------------------------------

/// Digits are worth ten times as much with each one that follows.
pub proof fn law_digits_count_tens(s: Seq<u8>, t: Seq<char>, d: nat)
    requires
        d < 10,
    ensures
        digit_bytes_value(Seq::empty()) == 0,
        digit_bytes_value(s.push((0x30 + d) as u8)) == 10 * digit_bytes_value(s) + d,
        digits_value(Seq::empty()) == 0,
        digits_value(t.push((0x30 + d) as char)) == 10 * digits_value(t) + d,
{
    assert(s.push((0x30 + d) as u8).drop_last() =~= s);
    assert(t.push((0x30 + d) as char).drop_last() =~= t);
    assert(((0x30 + d) as char) as nat == 0x30 + d);
}

/// A number on the command line: digits, perhaps with a plus sign; not more
/// than is asked for, and nothing else.
pub proof fn law_unsigned_numbers(n: nat, max: nat, s: Seq<char>, i: int)
    ensures
        n <= max ==> read_unsigned(dec(n), max) == Some(n),
        n <= max ==> read_unsigned(seq!['+'] + dec(n), max) == Some(n),
        n > max ==> read_unsigned(dec(n), max) is None,
        read_unsigned(Seq::empty(), max) is None,
        0 <= i < s.len() && s[i] == '-' ==> read_unsigned(s, max) is None,
{
    crate::laws::dtypes::lemma_dec_digits(n);
    let s0 = dec(n);
    assert(crate::text::is_digit(s0[0]));
    assert((seq!['+'] + s0).skip(1) =~= s0);
    if 0 <= i < s.len() && s[i] == '-' {
        let t = if s[0] == '+' {
            s.skip(1)
        } else {
            s
        };
        let j = if s[0] == '+' {
            i - 1
        } else {
            i
        };
        assert(t[j] == '-');
        assert(!crate::text::is_digit(t[j]));
    }
}

/// A negative number has a minus sign.
pub proof fn law_signed_text(n: nat)
    ensures
        dec_int(n as int) == dec(n),
        n > 0 ==> dec_int(-(n as int)) == "-"@ + dec(n),
{
    reveal_strlit("-");
    if n > 0 {
        assert(dec_int(-(n as int)) =~= "-"@ + dec(n));
    }
}

/// The characters that count as white space.
pub proof fn law_white_space(c: char)
    ensures
        is_space(c) <==> (9 <= c as int <= 13 || c as int == 0x20 || c as int == 0x85 || c as int
            == 0xa0 || c as int == 0x1680 || 0x2000 <= c as int <= 0x200a || c as int == 0x2028
            || c as int == 0x2029 || c as int == 0x202f || c as int == 0x205f || c as int
            == 0x3000),
{
}

// ---------------------------------------------------------------------------
// Equality
// ---------------------------------------------------------------------------

/// Doubles compare as numbers: zero equals its negative, a value that is no
/// number equals nothing, and the rest only themselves.
pub proof fn law_equal_doubles(a: u64, b: u64)
    ensures
        same_float(0, 0x8000_0000_0000_0000),
        magnitude(a) > 0x7ff0_0000_0000_0000 ==> !same_float(a, b) && !same_float(b, a),
        magnitude(a) <= 0x7ff0_0000_0000_0000 ==> same_float(a, a),
        same_float(a, b) ==> same_float(b, a),
        same_float(a, b) && a != b ==> magnitude(a) == 0 && magnitude(b) == 0,
{
}

/// Values of different kinds are never equal, equality goes both ways, and
/// arrays and objects compare part by part, in order.
pub proof fn law_equal_documents(a: Doc, b: Doc)
    ensures
        same_doc(a, b) ==> same_doc(b, a),
        a is Int && b is Float ==> !same_doc(a, b),
    decreases a,
{
    if same_doc(a, b) {
        match (a, b) {
            (Doc::Arr(x), Doc::Arr(y)) => {
                assert forall|i: int| 0 <= i < y.len() implies same_doc(#[trigger] y[i], x[i]) by {
                    assert(same_doc(x[i], y[i]));
                    law_equal_documents(x[i], y[i]);
                }
            },
            (Doc::Obj(x), Doc::Obj(y)) => {
                assert forall|i: int| 0 <= i < y.len() implies (#[trigger] y[i]).0 == x[i].0
                    && same_doc(y[i].1, x[i].1) by {
                    assert(x[i].0 == y[i].0 && same_doc(x[i].1, y[i].1));
                    law_equal_documents(x[i].1, y[i].1);
                }
            },
            _ => {},
        }
    }
}

} // verus!
