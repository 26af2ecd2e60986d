//! Human-readable rendering for `tensorpeek ls`: an aligned tensor table
//! with a one-line summary, plus the byte/count humanizers it uses.

use vstd::prelude::*;
use vstd::string::*;
use crate::bignat::{lemma_power_add, lemma_power_monotone, lemma_power_positive, power};
use crate::float::{binary_den, binary_num, exponent_from, half_even, lemma_exponent_found, step_den, step_num, P52, P53};
use crate::report::{filter_match, min_nat, passes, tensors_of, texts, total_numel, Report, ReportModel, Tensor, TensorModel};
use crate::text::{chars_of, dec, digit, put_dec};

verus! {

// ---------------------------------------------------------------------------
// Humanizers
// ---------------------------------------------------------------------------

/// How many low-order bits a double has to drop from `n`.
pub open spec fn excess_bits(n: nat) -> nat
    decreases n,
{
    if n < P53 {
        0
    } else {
        1 + excess_bits(n / 2)
    }
}

/// The double nearest to an integer: 53 significant bits, ties to even.
pub open spec fn as_double(n: nat) -> nat {
    half_even(n, power(2, excess_bits(n))) * power(2, excess_bits(n))
}

/// A number of tenths, with one decimal.
pub open spec fn tenths_text(n: nat) -> Seq<char> {
    dec(n / 10) + seq!['.', digit((n % 10) as int)]
}

/// The unit for a byte count: the largest of KiB, MiB, GiB, TiB, PiB that
/// does not exceed it.
pub open spec fn byte_unit(v: nat, u: nat) -> nat
    decreases 5 - u,
{
    if u >= 5 || v < power(1024, u + 1) {
        u
    } else {
        byte_unit(v, u + 1)
    }
}

pub open spec fn byte_unit_name(u: nat) -> Seq<char> {
    if u == 1 {
        " KiB"@
    } else if u == 2 {
        " MiB"@
    } else if u == 3 {
        " GiB"@
    } else if u == 4 {
        " TiB"@
    } else {
        " PiB"@
    }
}

/// IEC-style byte counts: exact below 1 KiB, one decimal above.
pub open spec fn bytes_text(n: nat) -> Seq<char> {
    if n < 1024 {
        dec(n) + " B"@
    } else {
        let v = as_double(n);
        let u = byte_unit(v, 1);
        tenths_text(half_even(10 * v, power(1024, u))) + byte_unit_name(u)
    }
}

/// The steps of parameter counts.
pub open spec fn count_step(n: nat) -> (nat, Seq<char>) {
    if n >= 1_000_000_000_000 {
        (1_000_000_000_000, " T"@)
    } else if n >= 1_000_000_000 {
        (1_000_000_000, " B"@)
    } else if n >= 1_000_000 {
        (1_000_000, " M"@)
    } else {
        (1_000, " K"@)
    }
}

/// Tenths of the double nearest to `as_double(n) / step`.
pub open spec fn count_tenths(n: nat, step: nat) -> nat {
    let a = as_double(n);
    let e = exponent_from(a, step, -1074);
    let m = half_even(step_num(a), step_den(step, e));
    half_even(10 * binary_num(m, e), binary_den(e))
}

/// Parameter counts in ML vernacular: 124.4 M, 7.2 B.
pub open spec fn count_text(n: nat) -> Seq<char> {
    if n < 1000 {
        dec(n)
    } else {
        let (step, suffix) = count_step(n);
        tenths_text(count_tenths(n, step)) + suffix
    }
}

proof fn lemma_excess(n: nat, k: nat)
    requires
        n < power(2, k) * P53,
        k > 0 ==> n >= power(2, k) * P52,
    ensures
        excess_bits(n) == k,
    decreases k,
{
    if k > 0 {
        let p = power(2, (k - 1) as nat);
        lemma_power_positive(2, (k - 1) as nat);
        assert(power(2, k) == 2 * p);
        assert((2 * p) * P52 >= P53) by (nonlinear_arith)
            requires
                p >= 1,
                P53 == 2 * P52,
        ;
        assert(n / 2 < p * P53) by (nonlinear_arith)
            requires
                n < (2 * p) * P53,
        ;
        if k > 1 {
            assert(n / 2 >= p * P52) by (nonlinear_arith)
                requires
                    n >= (2 * p) * P52,
            ;
        }
        lemma_excess(n / 2, (k - 1) as nat);
    } else {
        assert(power(2, 0) * P53 == P53) by (nonlinear_arith)
            requires
                power(2, 0) == 1,
        ;
    }
}

/// The nearest double of an integer, as a significand and a shift.
fn to_double(n: u128) -> (r: (u64, u32))
    ensures
        as_double(n as nat) == r.0 as nat * power(2, r.1 as nat),
        r.0 <= P53,
        r.1 <= 75,
        r.1 > 0 ==> r.0 >= P52 && n >= P53,
        r.1 == 0 ==> r.0 == n,
        n > 0 ==> r.0 > 0,
{
    let mut k: u32 = 0;
    let mut p: u128 = 1;
    let mut q: u128 = n;
    proof {
        assert(power(2, 0) == 1);
        assert(n as nat / 1nat == n);
    }
    while q >= P53 as u128
        invariant
            p == power(2, k as nat),
            k <= 75,
            q == n as nat / p as nat,
            p >= 1,
            k > 0 ==> q >= P52 as u128,
            q as nat * p as nat <= n,
        decreases q,
    {
        proof {
            lemma_shift_room(q as nat, p as nat, k as nat, n as nat);
            assert(power(2, (k + 1) as nat) == 2 * power(2, k as nat));
            vstd::arithmetic::div_mod::lemma_div_denominator(n as int, p as int, 2);
            vstd::arithmetic::div_mod::lemma_fundamental_div_mod(n as int, (p * 2) as int);
            assert((q / 2) as nat * (2 * p) as nat <= n) by {
                assert((n as int) / (p * 2) == (q / 2) as int);
                assert((p * 2) * (n as int / (p * 2)) == (q / 2) as nat * (2 * p) as nat)
                    by (nonlinear_arith)
                    requires
                        n as int / (p * 2) == (q / 2) as int,
                ;
            }
        }
        q = q / 2;
        p = p * 2;
        k = k + 1;
    }
    let r: u128 = n % p;
    proof {
        vstd::arithmetic::div_mod::lemma_fundamental_div_mod(n as int, p as int);
        assert(n < p as nat * P53) by (nonlinear_arith)
            requires
                n == p * q + r,
                r < p,
                q < P53,
        ;
        if k > 0 {
            assert(n >= p as nat * P52) by (nonlinear_arith)
                requires
                    n == p * q + r,
                    q >= P52,
            ;
            assert(n >= P53) by (nonlinear_arith)
                requires
                    n >= p as nat * P52,
                    p >= 2,
                    P53 == 2 * P52,
            ;
        }
        lemma_excess(n as nat, k as nat);
    }
    let up: bool = 2 * r > p || (2 * r == p && q % 2 == 1);
    let m: u64 = if up {
        (q + 1) as u64
    } else {
        q as u64
    };
    (m, k)
}

proof fn lemma_shift_room(q: nat, p: nat, k: nat, n: nat)
    requires
        q >= P53,
        p == power(2, k),
        q * p <= n,
        n <= u128::MAX,
        k <= 75,
    ensures
        k < 75,
        2 * p <= u128::MAX,
        p >= 1,
{
    lemma_power_positive(2, k);
    assert(P53 * p <= n) by (nonlinear_arith)
        requires
            q >= P53,
            q * p <= n,
    ;
    if k == 75 {
        assert(power(2, 15) == 32768) by {
            reveal_with_fuel(power, 16);
        }
        lemma_power_add(2, 15, 15);
        lemma_power_add(2, 30, 30);
        lemma_power_add(2, 60, 15);
        assert(power(2, 30) == 0x4000_0000);
        assert(power(2, 60) == 0x1000_0000_0000_0000) by (nonlinear_arith)
            requires
                power(2, 60) == power(2, 30) * power(2, 30),
                power(2, 30) == 0x4000_0000,
        ;
        assert(power(2, 75) == 0x800_0000_0000_0000_0000) by (nonlinear_arith)
            requires
                power(2, 75) == power(2, 60) * power(2, 15),
                power(2, 60) == 0x1000_0000_0000_0000,
                power(2, 15) == 32768,
        ;
        assert(P53 * 0x800_0000_0000_0000_0000 > u128::MAX);
    }
}

fn put_tenths(out: &mut String, n: u128)
    ensures
        final(out)@ == old(out)@ + tenths_text(n as nat),
{
    put_dec(out, n / 10);
    out.push('.');
    let d: u8 = (n % 10) as u8;
    out.push((48u8 + d) as char);
    assert(out@ =~= old(out)@ + tenths_text(n as nat));
}

fn round_half_even(n: u128, d: u128) -> (r: u128)
    requires
        0 < d <= u128::MAX / 2,
        n < u128::MAX,
    ensures
        r == half_even(n as nat, d as nat),
{
    let q: u128 = n / d;
    let m: u128 = n % d;
    if 2 * m > d || (2 * m == d && q % 2 == 1) {
        proof {
            assert(q <= n) by (nonlinear_arith)
                requires
                    q == n / d,
                    d > 0,
            ;
        }
        q + 1
    } else {
        q
    }
}

/// Rounding to a double at most doubles a number.
proof fn lemma_as_double_bound(n: nat)
    ensures
        as_double(n) <= 2 * n,
{
    let k = excess_bits(n);
    let p = power(2, k);
    lemma_power_positive(2, k);
    lemma_excess_low(n);
    vstd::arithmetic::div_mod::lemma_fundamental_div_mod(n as int, p as int);
    let q = n / p;
    let h = half_even(n, p);
    if k == 0 {
        assert(p == 1);
        assert(n / p == n && n % p == 0) by (nonlinear_arith)
            requires
                p == 1,
        ;
        assert(h * p == n) by (nonlinear_arith)
            requires
                h == n,
                p == 1,
        ;
    } else {
        assert(h * p <= n + p) by (nonlinear_arith)
            requires
                h <= q + 1,
                n >= p * q,
        ;
    }
}

proof fn lemma_excess_low(n: nat)
    ensures
        excess_bits(n) > 0 ==> power(2, excess_bits(n)) <= n,
    decreases n,
{
    if n >= P53 {
        lemma_excess_low(n / 2);
        let k = excess_bits(n / 2);
        assert(power(2, k + 1) == 2 * power(2, k));
        if k == 0 {
            assert(power(2, 0) == 1);
        }
    }
}

/// `m * 2^k`.
fn shifted(m: u64, k: u32, Ghost(limit): Ghost<nat>) -> (r: u128)
    requires
        m as nat * power(2, k as nat) <= limit <= u128::MAX,
        m > 0,
    ensures
        r == m as nat * power(2, k as nat),
{
    let mut r: u128 = m as u128;
    let mut i: u32 = 0;
    assert(m as nat * power(2, 0) == m as nat) by (nonlinear_arith)
        requires
            power(2, 0) == 1,
    ;
    while i < k
        invariant
            i <= k,
            m as nat * power(2, k as nat) <= limit <= u128::MAX,
            r == m as nat * power(2, i as nat),
        decreases k - i,
    {
        proof {
            lemma_power_monotone(2, (i + 1) as nat, k as nat);
            let p = power(2, i as nat);
            let t = power(2, k as nat);
            assert(power(2, (i + 1) as nat) == 2 * p);
            assert((m as nat * p) * 2 == m as nat * (2 * p)) by (nonlinear_arith);
            assert(m as nat * (2 * p) <= m as nat * t) by (nonlinear_arith)
                requires
                    2 * p <= t,
            ;
        }
        r = r * 2;
        i = i + 1;
    }
    r
}

/// IEC-style byte counts: exact below 1 KiB, one decimal above.
pub fn human_bytes(n: u64) -> (r: String)
    ensures
        r@ == bytes_text(n as nat),
{
    let mut s: String = String::new();
    if n < 1024 {
        put_dec(&mut s, n as u128);
        s.append(" B");
        assert(s@ =~= dec(n as nat) + " B"@);
        return s;
    }
    proof {
        lemma_as_double_bound(n as nat);
        assert(power(1024, 1) == 1024) by {
            reveal_with_fuel(power, 2);
        }
        assert(power(1024, 2) == 1024 * power(1024, 1));
        assert(power(1024, 3) == 1024 * power(1024, 2));
        assert(power(1024, 4) == 1024 * power(1024, 3));
        assert(power(1024, 5) == 1024 * power(1024, 4));
        assert(power(1024, 6) == 1024 * power(1024, 5));
    }
    let (m, k) = to_double(n as u128);
    let v: u128 = shifted(m, k, Ghost(2 * n as nat));
    let mut u: u32 = 1;
    let mut unit: u128 = 1024;
    while u < 5 && v >= unit * 1024
        invariant
            1 <= u <= 5,
            unit == power(1024, u as nat),
            unit <= 1125899906842624,
            power(1024, 1) == 1024,
            power(1024, 2) == 1048576,
            power(1024, 3) == 1073741824,
            power(1024, 4) == 1099511627776,
            power(1024, 5) == 1125899906842624,
            power(1024, 6) == 1152921504606846976,
            byte_unit(v as nat, u as nat) == byte_unit(v as nat, 1),
        decreases 5 - u,
    {
        unit = unit * 1024;
        u = u + 1;
    }
    let tenths: u128 = round_half_even(10 * v, unit);
    put_tenths(&mut s, tenths);
    let ghost number = s@;
    if u == 1 {
        s.append(" KiB");
    } else if u == 2 {
        s.append(" MiB");
    } else if u == 3 {
        s.append(" GiB");
    } else if u == 4 {
        s.append(" TiB");
    } else {
        s.append(" PiB");
    }
    assert(number =~= tenths_text(tenths as nat));
    assert(s@ =~= bytes_text(n as nat));
    s
}

/// Scaling numerator and denominator keeps the rounded quotient.
pub proof fn lemma_half_even_scaled(n: nat, d: nat, k: nat)
    requires
        d > 0,
        k > 0,
    ensures
        half_even(n * k, d * k) == half_even(n, d),
{
    let q = n / d;
    let r = n % d;
    vstd::arithmetic::div_mod::lemma_fundamental_div_mod(n as int, d as int);
    assert(n * k == q * (d * k) + r * k) by (nonlinear_arith)
        requires
            n == d * q + r,
    ;
    assert(r * k < d * k) by (nonlinear_arith)
        requires
            r < d,
            k > 0,
    ;
    vstd::arithmetic::div_mod::lemma_fundamental_div_mod_converse(
        (n * k) as int,
        (d * k) as int,
        q as int,
        (r * k) as int,
    );
    assert((2 * (r * k) > d * k) == (2 * r > d)) by (nonlinear_arith)
        requires
            k > 0,
    ;
    assert((2 * (r * k) == d * k) == (2 * r == d)) by (nonlinear_arith)
        requires
            k > 0,
    ;
}

/// The double nearest to `m * 2^k / step`, once `m * 2^t` has been brought
/// between `step * 2^52` and `step * 2^53`.
proof fn lemma_quotient(m: nat, k: nat, t: nat, step: nat)
    requires
        step > 0,
        k <= 75,
        t <= 100,
        m * power(2, t) < step * P53,
        m * power(2, t) >= step * P52,
    ensures
        ({
            let a = m * power(2, k);
            let e = k - t;
            &&& exponent_from(a, step, -1074) == e
            &&& half_even(step_num(a), step_den(step, e)) == half_even(m * power(2, t), step)
        }),
{
    let a = m * power(2, k);
    let e = k - t;
    let num = m * power(2, t);
    let p = power(2, (e + 1074) as nat);
    lemma_power_positive(2, (e + 1074) as nat);
    lemma_power_add(2, k, 1074);
    lemma_power_add(2, t, (e + 1074) as nat);
    assert(k + 1074 == t + (e + 1074) as nat);
    let x = power(2, k);
    let y = power(2, 1074);
    let z = power(2, t);
    assert((m * x) * y == (m * z) * p) by (nonlinear_arith)
        requires
            x * y == z * p,
    ;
    assert(step_num(a) == num * p);
    assert(step_den(step, e) == step * p);
    assert(num * p < (step * p) * P53) by (nonlinear_arith)
        requires
            num < step * P53,
            p > 0,
    ;
    assert(num * p >= (step * p) * P52) by (nonlinear_arith)
        requires
            num >= step * P52,
            p > 0,
    ;
    lemma_exponent_found(a, step, e, -1074);
    lemma_half_even_scaled(num, step, p);
}

/// Bring `m * 2^t` between `step * 2^52` and `step * 2^53`.
fn normalize(m: u64, step: u64) -> (r: (u128, u32))
    requires
        0 < m <= P53,
        1000 <= step <= 1_000_000_000_000,
        1000 <= m || m >= P52,
    ensures
        r.0 == m as nat * power(2, r.1 as nat),
        step * P52 <= r.0 < step * P53,
        r.1 <= 93,
        power(2, r.1 as nat) * P53 >= step * P52,
{
    assert(step * P52 <= 1_000_000_000_000 * P52) by (nonlinear_arith)
        requires
            step <= 1_000_000_000_000,
    ;
    let low: u128 = step as u128 * P52 as u128;
    let mut num: u128 = m as u128;
    let mut t: u32 = 0;
    let ghost mut p: nat = 1;
    proof {
        assert(power(2, 0) == 1);
        assert(m as nat * 1 == m as nat);
        assert(step * P52 >= 1000 * P52) by (nonlinear_arith)
            requires
                step >= 1000,
        ;
        assert(step * P53 == 2 * (step * P52)) by (nonlinear_arith)
            requires
                P53 == 2 * P52,
        ;
    }
    while num < low
        invariant
            low == step * P52,
            step * P53 == 2 * low,
            low <= 1_000_000_000_000 * P52,
            p == power(2, t as nat),
            num == m * p,
            num < 2 * low,
            m > 0,
            num >= p,
            t <= 93,
            t > 0 ==> num >= 2,
        decreases 2 * low - num,
    {
        proof {
            assert(power(2, (t + 1) as nat) == 2 * p);
            assert(2 * (m * p) == m * (2 * p)) by (nonlinear_arith);
            lemma_not_ninety_three(t as nat, num as nat);
        }
        num = num * 2;
        t = t + 1;
        proof {
            p = 2 * p;
        }
    }
    proof {
        assert(p * P53 >= m * p) by (nonlinear_arith)
            requires
                m <= P53,
        ;
    }
    (num, t)
}

proof fn lemma_not_ninety_three(t: nat, num: nat)
    requires
        t <= 93,
        num >= power(2, t),
        num < 1_000_000_000_000 * P52,
    ensures
        t < 93,
{
    if t == 93 {
        lemma_ninety_three();
    }
}

proof fn lemma_shift_at_least(t: nat)
    requires
        power(2, t) * P53 >= 1_000_000_000_000 * P52,
    ensures
        t >= 39,
{
    if t < 39 {
        lemma_power_monotone(2, t, 38);
        assert(power(2, 19) == 524288) by {
            reveal_with_fuel(power, 20);
        }
        lemma_power_add(2, 19, 19);
        assert(power(2, 38) == 274877906944) by (nonlinear_arith)
            requires
                power(2, 38) == power(2, 19) * power(2, 19),
                power(2, 19) == 524288,
        ;
        let p = power(2, t);
        assert(p * P53 <= 274877906944 * P53) by (nonlinear_arith)
            requires
                p <= 274877906944,
        ;
    }
}

proof fn lemma_thirty_six()
    ensures
        power(2, 36) == 68719476736,
{
    assert(power(2, 18) == 262144) by {
        reveal_with_fuel(power, 19);
    }
    lemma_power_add(2, 18, 18);
    assert(power(2, 36) == 68719476736) by (nonlinear_arith)
        requires
            power(2, 36) == power(2, 18) * power(2, 18),
            power(2, 18) == 262144,
    ;
}

/// Tenths of `q * 2^(k - t)`.
fn tenths_from(q: u64, k: u32, t: u32) -> (r: u128)
    requires
        0 < q <= P53,
        k <= 75,
        t <= 93,
        k >= t ==> t >= 39,
    ensures
        r == half_even(10 * binary_num(q as nat, k - t), binary_den(k - t)),
{
    if k >= t {
        proof {
            lemma_power_monotone(2, (k - t) as nat, 36);
            lemma_thirty_six();
            let p = power(2, (k - t) as nat);
            assert(q as nat * p <= P53 * 68719476736) by (nonlinear_arith)
                requires
                    q <= P53,
                    p <= 68719476736,
            ;
        }
        let x: u128 = shifted(q, k - t, Ghost((P53 * 68719476736) as nat));
        proof {
            let y = 10 * x as nat;
            assert(y / 1 == y && y % 1 == 0) by (nonlinear_arith);
        }
        10 * x
    } else {
        proof {
            lemma_power_monotone(2, (t - k) as nat, 93);
            lemma_ninety_three();
            lemma_power_positive(2, (t - k) as nat);
            assert(1 * power(2, (t - k) as nat) == power(2, (t - k) as nat)) by (nonlinear_arith);
        }
        let d: u128 = shifted(1, t - k, Ghost(0x2000_0000_0000_0000_0000_0000));
        round_half_even(10 * q as u128, d)
    }
}

fn tenths_of(n: u128, step: u64) -> (r: u128)
    requires
        n >= 1000,
        1000 <= step <= 1_000_000_000_000,
        n >= 1_000_000_000_000 ==> step == 1_000_000_000_000,
    ensures
        r == count_tenths(n as nat, step as nat),
{
    let (m, k) = to_double(n);
    let (num, t) = normalize(m, step);
    proof {
        assert(step * P53 <= 1_000_000_000_000 * P53) by (nonlinear_arith)
            requires
                step <= 1_000_000_000_000,
        ;
        lemma_quotient(m as nat, k as nat, t as nat, step as nat);
        vstd::arithmetic::div_mod::lemma_fundamental_div_mod(num as int, step as int);
        let f = num as int / step as int;
        let g = num as int % step as int;
        assert(P52 <= f < P53) by (nonlinear_arith)
            requires
                num == step * f + g,
                0 <= g < step,
                step * P52 <= num < step * P53,
                step > 0,
        ;
        if k > 0 {
            lemma_shift_at_least(t as nat);
        } else {
            assert(t > 0) by {
                if t == 0 {
                    assert(power(2, 0) == 1);
                }
            }
        }
    }
    let q: u128 = round_half_even(num, step as u128);
    tenths_from(q as u64, k, t)
}

proof fn lemma_ninety_three()
    ensures
        power(2, 93) == 0x2000_0000_0000_0000_0000_0000,
{
    assert(power(2, 31) == 0x8000_0000) by {
        reveal_with_fuel(power, 32);
    }
    lemma_power_add(2, 31, 31);
    lemma_power_add(2, 62, 31);
    assert(power(2, 62) == 0x4000_0000_0000_0000) by (nonlinear_arith)
        requires
            power(2, 62) == power(2, 31) * power(2, 31),
            power(2, 31) == 0x8000_0000,
    ;
    assert(power(2, 93) == 0x2000_0000_0000_0000_0000_0000) by (nonlinear_arith)
        requires
            power(2, 93) == power(2, 62) * power(2, 31),
            power(2, 62) == 0x4000_0000_0000_0000,
            power(2, 31) == 0x8000_0000,
    ;
}

/// Parameter counts in ML vernacular: 124.4 M, 7.2 B.
pub fn human_count(n: u128) -> (r: String)
    ensures
        r@ == count_text(n as nat),
{
    let mut s: String = String::new();
    if n < 1000 {
        put_dec(&mut s, n);
        assert(s@ =~= dec(n as nat));
        return s;
    }
    let (step, suffix): (u64, &str) = if n >= 1_000_000_000_000 {
        (1_000_000_000_000, " T")
    } else if n >= 1_000_000_000 {
        (1_000_000_000, " B")
    } else if n >= 1_000_000 {
        (1_000_000, " M")
    } else {
        (1_000, " K")
    };
    let tenths: u128 = tenths_of(n, step);
    put_tenths(&mut s, tenths);
    assert(s@ =~= tenths_text(tenths as nat));
    s.append(suffix);
    s
}

// ---------------------------------------------------------------------------
// The table
// ---------------------------------------------------------------------------

/// The dimensions joined by `×`.
pub open spec fn times_text(shape: Seq<u64>) -> Seq<char>
    decreases shape.len(),
{
    if shape.len() == 0 {
        seq![]
    } else if shape.len() == 1 {
        dec(shape[0] as nat)
    } else {
        times_text(shape.drop_last()) + "×"@ + dec(shape.last() as nat)
    }
}

/// `2×3×4`, or `scalar` for a zero-dimensional tensor.
pub open spec fn shape_column(shape: Seq<u64>) -> Seq<char> {
    if shape.len() == 0 {
        "scalar"@
    } else {
        times_text(shape)
    }
}

/// One row of the table.
#[verifier::ext_equal]
pub struct RowModel {
    pub name: Seq<char>,
    pub dtype: Seq<char>,
    pub shape: Seq<char>,
    pub bytes: Seq<char>,
}

pub open spec fn row_of(t: TensorModel) -> RowModel {
    RowModel {
        name: if t.name.len() == 0 {
            "-"@
        } else {
            t.name
        },
        dtype: t.dtype,
        shape: shape_column(t.shape),
        bytes: bytes_text(t.bytes),
    }
}

/// The rows of the tensors that pass a filter, in order.
pub open spec fn rows_of(ts: Seq<TensorModel>, filter: Option<Seq<char>>) -> Seq<RowModel>
    decreases ts.len(),
{
    if ts.len() == 0 {
        seq![]
    } else if passes(filter, ts.last()) {
        rows_of(ts.drop_last(), filter).push(row_of(ts.last()))
    } else {
        rows_of(ts.drop_last(), filter)
    }
}

/// Column widths: name, dtype, shape.
pub struct Widths {
    pub name: nat,
    pub dtype: nat,
    pub shape: nat,
}

pub open spec fn wider(a: nat, b: nat) -> nat {
    if a >= b {
        a
    } else {
        b
    }
}

/// Wide enough for the header and for every row.
pub open spec fn widths_of(rows: Seq<RowModel>) -> Widths
    decreases rows.len(),
{
    if rows.len() == 0 {
        Widths { name: 4, dtype: 5, shape: 5 }
    } else {
        let w = widths_of(rows.drop_last());
        let r = rows.last();
        Widths {
            name: wider(w.name, r.name.len()),
            dtype: wider(w.dtype, r.dtype.len()),
            shape: wider(w.shape, r.shape.len()),
        }
    }
}

/// A cell padded on the right to `w` characters.
pub open spec fn padded(cell: Seq<char>, w: nat) -> Seq<char> {
    cell + Seq::new(
        if w > cell.len() {
            (w - cell.len()) as nat
        } else {
            0
        },
        |i: int| ' ',
    )
}

pub open spec fn row_text(r: RowModel, w: Widths) -> Seq<char> {
    padded(r.name, w.name) + "  "@ + padded(r.dtype, w.dtype) + "  "@ + padded(r.shape, w.shape)
        + "  "@ + r.bytes + "\n"@
}

pub open spec fn rows_text(rows: Seq<RowModel>, n: nat, w: Widths) -> Seq<char>
    decreases n,
{
    if n == 0 || n > rows.len() {
        seq![]
    } else {
        rows_text(rows, (n - 1) as nat, w) + row_text(rows[n - 1], w)
    }
}

pub open spec fn header_row() -> RowModel {
    RowModel { name: "NAME"@, dtype: "DTYPE"@, shape: "SHAPE"@, bytes: "BYTES"@ }
}

pub open spec fn plural(n: nat) -> Seq<char> {
    if n == 1 {
        ""@
    } else {
        "s"@
    }
}

/// The summary line.
pub open spec fn summary(r: ReportModel) -> Seq<char> {
    let params = min_nat(total_numel(r.tensors), u128::MAX as nat);
    r.file + " · "@ + r.format + " · "@ + dec(r.tensors.len()) + " tensor"@ + plural(
        r.tensors.len(),
    ) + " · "@ + count_text(params) + " param"@ + plural(params) + " · "@ + bytes_text(
        r.data_bytes,
    ) + " data\n"@
}

pub open spec fn problem_lines(problems: Seq<Seq<char>>) -> Seq<char>
    decreases problems.len(),
{
    if problems.len() == 0 {
        seq![]
    } else {
        problem_lines(problems.drop_last()) + "problem: "@ + problems.last() + "\n"@
    }
}

/// The table with its header; nothing when there are no rows.
pub open spec fn table_text(rows: Seq<RowModel>) -> Seq<char> {
    if rows.len() == 0 {
        seq![]
    } else {
        let w = widths_of(rows);
        row_text(header_row(), w) + rows_text(rows, rows.len(), w)
    }
}

/// Everything `ls` prints for a report.
pub open spec fn listing(r: ReportModel, filter: Option<Seq<char>>) -> Seq<char> {
    summary(r) + table_text(rows_of(r.tensors, filter)) + problem_lines(r.problems)
}

struct Row {
    name: String,
    dtype: String,
    shape: String,
    bytes: String,
}

impl Row {
    spec fn model(&self) -> RowModel {
        RowModel {
            name: self.name@,
            dtype: self.dtype@,
            shape: self.shape@,
            bytes: self.bytes@,
        }
    }
}

spec fn row_models(rows: Seq<Row>) -> Seq<RowModel> {
    Seq::new(rows.len(), |i: int| rows[i].model())
}

/// `2×3×4`, or `scalar` for a zero-dimensional tensor.
pub fn shape_text(shape: &[u64]) -> (r: String)
    ensures
        r@ == shape_column(shape@),
{
    if shape.len() == 0 {
        return "scalar".to_owned();
    }
    let mut s: String = String::new();
    let mut i: usize = 0;
    assert(shape@.take(0) =~= seq![]);
    while i < shape.len()
        invariant
            i <= shape@.len(),
            s@ == times_text(shape@.take(i as int)),
        decreases shape@.len() - i,
    {
        assert(shape@.take(i + 1).drop_last() =~= shape@.take(i as int));
        if i > 0 {
            s.append("×");
        }
        put_dec(&mut s, shape[i] as u128);
        i = i + 1;
        assert(s@ =~= times_text(shape@.take(i as int)));
    }
    assert(shape@.take(i as int) =~= shape@);
    s
}

fn char_count(s: &str) -> (r: usize)
    ensures
        r == s@.len(),
{
    chars_of(s).len()
}

fn put_padded(out: &mut String, cell: &str, w: usize)
    ensures
        final(out)@ == old(out)@ + padded(cell@, w as nat),
{
    out.append(cell);
    let ghost before = out@;
    let n: usize = char_count(cell);
    let k: usize = if w > n {
        w - n
    } else {
        0
    };
    let mut i: usize = 0;
    assert(out@ =~= before + Seq::new(0nat, |i: int| ' '));
    while i < k
        invariant
            i <= k,
            out@ == before + Seq::new(i as nat, |i: int| ' '),
        decreases k - i,
    {
        out.push(' ');
        i = i + 1;
        assert(out@ =~= before + Seq::new(i as nat, |i: int| ' '));
    }
    assert(out@ =~= old(out)@ + padded(cell@, w as nat));
}

fn push_row(out: &mut String, r: &Row, w: (usize, usize, usize))
    ensures
        final(out)@ == old(out)@ + row_text(
            r.model(),
            Widths { name: w.0 as nat, dtype: w.1 as nat, shape: w.2 as nat },
        ),
{
    put_padded(out, r.name.as_str(), w.0);
    out.append("  ");
    put_padded(out, r.dtype.as_str(), w.1);
    out.append("  ");
    put_padded(out, r.shape.as_str(), w.2);
    out.append("  ");
    out.append(r.bytes.as_str());
    out.append("\n");
    assert(out@ =~= old(out)@ + row_text(
        r.model(),
        Widths { name: w.0 as nat, dtype: w.1 as nat, shape: w.2 as nat },
    ));
}

fn make_row(t: &Tensor) -> (r: Row)
    ensures
        r.model() == row_of(t@),
{
    let name: String = if char_count(t.name.as_str()) == 0 {
        "-".to_owned()
    } else {
        t.name.clone()
    };
    let r = Row {
        name,
        dtype: t.dtype.clone(),
        shape: shape_text(t.shape.as_slice()),
        bytes: human_bytes(t.bytes),
    };
    assert(r.model() =~= row_of(t@));
    r
}

fn make_rows(report: &Report, filter: Option<&str>) -> (r: Vec<Row>)
    ensures
        row_models(r@) == rows_of(
            report@.tensors,
            match filter {
                Some(f) => Some(f@),
                None => None,
            },
        ),
{
    let ghost fm = match filter {
        Some(f) => Some(f@),
        None => None,
    };
    let ghost ts = report@.tensors;
    let mut rows: Vec<Row> = Vec::new();
    let mut i: usize = 0;
    assert(ts.take(0) =~= seq![]);
    assert(row_models(rows@) =~= seq![]);
    while i < report.tensors.len()
        invariant
            i <= report.tensors@.len(),
            ts == tensors_of(report.tensors@),
            fm == (match filter {
                Some(f) => Some(f@),
                None => None,
            }),
            row_models(rows@) == rows_of(ts.take(i as int), fm),
        decreases report.tensors@.len() - i,
    {
        assert(ts.take(i + 1).drop_last() =~= ts.take(i as int));
        let t: &Tensor = &report.tensors[i];
        let keep: bool = match filter {
            None => true,
            Some(f) => filter_match(f, t.name.as_str()),
        };
        let ghost before = rows@;
        if keep {
            rows.push(make_row(t));
            assert(row_models(rows@) =~= row_models(before).push(row_of(t@)));
        }
        i = i + 1;
    }
    assert(ts.take(i as int) =~= ts);
    rows
}

fn wide(a: usize, s: &str) -> (r: usize)
    ensures
        r == wider(a as nat, s@.len()),
{
    let n: usize = char_count(s);
    if a >= n {
        a
    } else {
        n
    }
}

fn measure(rows: &Vec<Row>) -> (r: (usize, usize, usize))
    ensures
        widths_of(row_models(rows@)) == (Widths {
            name: r.0 as nat,
            dtype: r.1 as nat,
            shape: r.2 as nat,
        }),
{
    let ghost rs = row_models(rows@);
    let mut w: (usize, usize, usize) = (4, 5, 5);
    let mut i: usize = 0;
    assert(rs.take(0) =~= seq![]);
    while i < rows.len()
        invariant
            i <= rows@.len(),
            rs == row_models(rows@),
            widths_of(rs.take(i as int)) == (Widths {
                name: w.0 as nat,
                dtype: w.1 as nat,
                shape: w.2 as nat,
            }),
        decreases rows@.len() - i,
    {
        assert(rs.take(i + 1).drop_last() =~= rs.take(i as int));
        w = (
            wide(w.0, rows[i].name.as_str()),
            wide(w.1, rows[i].dtype.as_str()),
            wide(w.2, rows[i].shape.as_str()),
        );
        i = i + 1;
    }
    assert(rs.take(i as int) =~= rs);
    w
}

fn put_table(out: &mut String, rows: &Vec<Row>)
    ensures
        final(out)@ == old(out)@ + table_text(row_models(rows@)),
{
    let ghost rs = row_models(rows@);
    if rows.len() == 0 {
        assert(out@ =~= old(out)@ + table_text(rs));
        return;
    }
    let w: (usize, usize, usize) = measure(rows);
    let ghost wm = Widths { name: w.0 as nat, dtype: w.1 as nat, shape: w.2 as nat };
    let header = Row {
        name: "NAME".to_owned(),
        dtype: "DTYPE".to_owned(),
        shape: "SHAPE".to_owned(),
        bytes: "BYTES".to_owned(),
    };
    assert(header.model() =~= header_row());
    push_row(out, &header, w);
    let ghost open = out@;
    let mut i: usize = 0;
    assert(out@ =~= open + rows_text(rs, 0, wm));
    while i < rows.len()
        invariant
            i <= rows@.len(),
            rs == row_models(rows@),
            wm == (Widths { name: w.0 as nat, dtype: w.1 as nat, shape: w.2 as nat }),
            out@ == open + rows_text(rs, i as nat, wm),
        decreases rows@.len() - i,
    {
        push_row(out, &rows[i], w);
        i = i + 1;
        assert(out@ =~= open + rows_text(rs, i as nat, wm));
    }
    assert(out@ =~= old(out)@ + table_text(rs));
}

fn put_plural(out: &mut String, n: u128)
    ensures
        final(out)@ == old(out)@ + plural(n as nat),
{
    if n == 1 {
        out.append("");
    } else {
        out.append("s");
    }
}

fn put_summary(out: &mut String, report: &Report)
    ensures
        final(out)@ == old(out)@ + summary(report@),
{
    let params: u128 = report.parameters();
    let count: usize = report.tensors.len();
    let ghost start = out@;
    out.append(report.file.as_str());
    out.append(" · ");
    out.append(report.format);
    out.append(" · ");
    put_dec(out, count as u128);
    out.append(" tensor");
    put_plural(out, count as u128);
    out.append(" · ");
    out.append(human_count(params).as_str());
    out.append(" param");
    put_plural(out, params);
    out.append(" · ");
    out.append(human_bytes(report.data_bytes).as_str());
    out.append(" data\n");
    assert(out@ =~= start + summary(report@));
}

/// Render the tensor table for one report.
pub fn tensor_table(report: &Report, filter: Option<&str>) -> (r: String)
    ensures
        r@ == listing(
            report@,
            match filter {
                Some(f) => Some(f@),
                None => None,
            },
        ),
{
    let mut out: String = String::new();
    put_summary(&mut out, report);
    let rows: Vec<Row> = make_rows(report, filter);
    put_table(&mut out, &rows);
    let ghost top = out@;
    let ghost ps = texts(report.problems@);
    let mut i: usize = 0;
    assert(ps.take(0) =~= seq![]);
    assert(out@ =~= top + problem_lines(ps.take(0)));
    while i < report.problems.len()
        invariant
            i <= report.problems@.len(),
            ps == texts(report.problems@),
            out@ == top + problem_lines(ps.take(i as int)),
        decreases report.problems@.len() - i,
    {
        assert(ps.take(i + 1).drop_last() =~= ps.take(i as int));
        out.append("problem: ");
        out.append(report.problems[i].as_str());
        out.append("\n");
        i = i + 1;
        assert(out@ =~= top + problem_lines(ps.take(i as int)));
    }
    assert(ps.take(i as int) =~= ps);
    assert(top =~= summary(report@) + table_text(row_models(rows@)));
    out
}

} // verus!
