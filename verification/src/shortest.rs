//! The shortest decimal text of a double: the fewest digits that read back as
//! the same number and, among those, the ones closest to it.

use vstd::prelude::*;
use vstd::string::*;
use crate::bignat::{lemma_power_add, lemma_power_monotone, lemma_power_positive, power, Big};
use crate::float::{exponent, is_finite, is_negative, magnitude, significand, P52, P53, SIGN};
use crate::text::{chars_of, dec, dec_text};

verus! {

/// Numerator of `10^q / 2^e`.
pub open spec fn unit_num(q: int, e: int) -> nat {
    (if q >= 0 {
        power(10, q as nat)
    } else {
        1
    }) * (if e < 0 {
        power(2, (-e) as nat)
    } else {
        1
    })
}

/// Denominator of `10^q / 2^e`.
pub open spec fn unit_den(q: int, e: int) -> nat {
    (if q < 0 {
        power(10, (-q) as nat)
    } else {
        1
    }) * (if e >= 0 {
        power(2, e as nat)
    } else {
        1
    })
}

/// How far below `m * 2^e` a number may lie to be read back as it, in quarter
/// units of the last place: the gap below a power of two is half as wide.
pub open spec fn gap_below(m: nat, e: int) -> nat {
    if m == P52 && e > -1074 {
        1
    } else {
        2
    }
}

/// Whether the decimal `s * 10^q` is read back as `m * 2^e`. The ends of the
/// interval belong to it when the significand is even.
pub open spec fn reads_back(m: nat, e: int, s: nat, q: int) -> bool {
    let x = s * unit_num(q, e - 2);
    let u = unit_den(q, e - 2);
    if m % 2 == 0 {
        (4 * m - gap_below(m, e)) * u <= x <= (4 * m + 2) * u
    } else {
        (4 * m - gap_below(m, e)) * u < x < (4 * m + 2) * u
    }
}

/// The distance between `s * 10^q` and `m * 2^e`, in a unit that depends on
/// the exponents only.
pub open spec fn distance(m: nat, e: int, s: nat, q: int) -> int {
    let d = s * unit_num(q, e - 2) - 4 * m * unit_den(q, e - 2);
    if d < 0 {
        -d
    } else {
        d
    }
}

/// `s * 10^q` has the fewest digits of all decimals that are read back as
/// `m * 2^e`, and is the closest of those; of two equally close, the larger.
pub open spec fn is_shortest(m: nat, e: int, s: nat, q: int) -> bool {
    &&& reads_back(m, e, s, q)
    &&& forall|t: nat, r: int| r > q ==> !#[trigger] reads_back(m, e, t, r)
    &&& forall|t: nat| #[trigger]
        reads_back(m, e, t, q) ==> distance(m, e, s, q) < distance(m, e, t, q) || (distance(
            m,
            e,
            s,
            q,
        ) == distance(m, e, t, q) && t <= s)
}

/// The shortest decimal of `m * 2^e`, as digits and a power of ten.
pub open spec fn shortest(m: nat, e: int) -> (nat, int) {
    choose|d: (nat, int)| #[trigger] is_shortest(m, e, d.0, d.1)
}

pub proof fn lemma_shortest_unique(m: nat, e: int, s: nat, q: int)
    requires
        is_shortest(m, e, s, q),
    ensures
        shortest(m, e) == (s, q),
{
    let d = shortest(m, e);
    let w = (s, q);
    assert(is_shortest(m, e, w.0, w.1));
    assert(is_shortest(m, e, d.0, d.1));
    assert(reads_back(m, e, d.0, d.1));
    assert(reads_back(m, e, s, q));
}

/// `n` zeros.
pub open spec fn zero_chars(n: nat) -> Seq<char> {
    Seq::new(n, |i: int| '0')
}

/// `s * 10^q` in positional notation.
pub open spec fn positional(s: nat, q: int) -> Seq<char> {
    let digits = dec(s);
    let n = digits.len() as int;
    if q >= 0 {
        digits + zero_chars(q as nat)
    } else if n + q > 0 {
        digits.take(n + q) + seq!['.'] + digits.skip(n + q)
    } else {
        seq!['0', '.'] + zero_chars((-q - n) as nat) + digits
    }
}

/// The text of a double's magnitude.
pub open spec fn magnitude_text(mag: u64) -> Seq<char> {
    if mag == 0 {
        seq!['0']
    } else {
        let d = shortest(significand(mag), exponent(mag));
        positional(d.0, d.1)
    }
}

/// A finite double as text.
pub open spec fn double_text(bits: u64) -> Seq<char> {
    (if is_negative(bits) {
        seq!['-']
    } else {
        seq![]
    }) + magnitude_text(magnitude(bits))
}

// ---------------------------------------------------------------------------
// Digit generation
// ---------------------------------------------------------------------------

/// Where the generation of digits stands at power `q`: the number is
/// `(t + r / s) * 10^q`, and its neighbours lie `minus / s` and `plus / s`
/// such units away.
#[verifier::opaque]
pub open spec fn state(m: nat, e: int, q: int, s: nat, r: nat, minus: nat, plus: nat, t: nat) -> bool {
    &&& s > 0
    &&& plus > 0
    &&& t * s + r == 2 * m * plus
    &&& 2 * minus == gap_below(m, e) * plus
    &&& plus * unit_num(q, e - 2) == 2 * s * unit_den(q, e - 2)
    &&& unit_num(q, e - 2) > 0
    &&& unit_den(q, e - 2) > 0
}

/// In a state, whether a decimal is read back shows in the scaled numbers.
pub proof fn lemma_state_reads(
    m: nat,
    e: int,
    q: int,
    s: nat,
    r: nat,
    minus: nat,
    plus: nat,
    t: nat,
    c: nat,
)
    requires
        state(m, e, q, s, r, minus, plus, t),
    ensures
        reads_back(m, e, c, q) == (if m % 2 == 0 {
            t * s + r - minus <= c * s <= t * s + r + plus
        } else {
            t * s + r - minus < c * s < t * s + r + plus
        }),
        distance(m, e, c, q) * s == (if c * s >= t * s + r {
            c * s - (t * s + r)
        } else {
            (t * s + r) - c * s
        }) * unit_num(q, e - 2),
{
    reveal(state);
    let a = unit_num(q, e - 2);
    let b = unit_den(q, e - 2);
    let g = gap_below(m, e);
    let v = t * s + r;
    let x = c * a;
    assert(x * s == (c * s) * a) by (nonlinear_arith)
        requires
            x == c * a,
    ;
    assert((4 * m * b) * s == v * a) by (nonlinear_arith)
        requires
            v == 2 * m * plus,
            plus * a == 2 * s * b,
    ;
    assert(((4 * m - g) * b) * s == (v - minus) * a) by (nonlinear_arith)
        requires
            (4 * m * b) * s == v * a,
            2 * minus == g * plus,
            plus * a == 2 * s * b,
    ;
    assert(((4 * m + 2) * b) * s == (v + plus) * a) by (nonlinear_arith)
        requires
            (4 * m * b) * s == v * a,
            plus * a == 2 * s * b,
    ;
    lemma_order((4 * m - g) * b, x as int, s as int, v - minus, (c * s) as int, a as int);
    lemma_order(x as int, ((4 * m + 2) * b) as int, s as int, (c * s) as int, (v + plus) as int, a as int);
    let d = x - 4 * m * b;
    assert(d * s == (c * s - v) * a) by (nonlinear_arith)
        requires
            d == x - 4 * m * b,
            x * s == (c * s) * a,
            (4 * m * b) * s == v * a,
    ;
    if c * s >= v {
        assert(d >= 0) by (nonlinear_arith)
            requires
                d * s == (c * s - v) * a,
                c * s >= v,
                a > 0,
                s > 0,
        ;
    } else {
        assert(d < 0) by (nonlinear_arith)
            requires
                d * s == (c * s - v) * a,
                c * s < v,
                a > 0,
                s > 0,
        ;
        assert((-d) * s == (v - c * s) * a) by (nonlinear_arith)
            requires
                d * s == (c * s - v) * a,
        ;
    }
}

/// Scaling both sides by positive factors keeps their order.
proof fn lemma_order(x: int, y: int, s: int, u: int, w: int, a: int)
    requires
        s > 0,
        a > 0,
        x * s == u * a,
        y * s == w * a,
    ensures
        (x <= y) == (u <= w),
        (x < y) == (u < w),
{
    assert((x <= y) == (x * s <= y * s)) by (nonlinear_arith)
        requires
            s > 0,
    ;
    assert((u <= w) == (u * a <= w * a)) by (nonlinear_arith)
        requires
            a > 0,
    ;
    assert((y <= x) == (y * s <= x * s)) by (nonlinear_arith)
        requires
            s > 0,
    ;
    assert((w <= u) == (w * a <= u * a)) by (nonlinear_arith)
        requires
            a > 0,
    ;
}

/// One power of ten up.
proof fn lemma_unit_up(q: int, e: int)
    ensures
        unit_num(q, e) > 0,
        unit_den(q, e) > 0,
        unit_num(q + 1, e) * unit_den(q, e) == 10 * (unit_num(q, e) * unit_den(q + 1, e)),
{
    lemma_unit_positive(q, e);
    let x = if e < 0 {
        power(2, (-e) as nat)
    } else {
        1
    };
    let y = if e >= 0 {
        power(2, e as nat)
    } else {
        1
    };
    if q >= 0 {
        let p = power(10, q as nat);
        assert((q + 1 - 1) as nat == q as nat);
        assert(power(10, (q + 1) as nat) == 10 * p);
        assert(((10 * p) * x) * (1 * y) == 10 * ((p * x) * (1 * y))) by (nonlinear_arith);
    } else {
        let n = (-q) as nat;
        assert(power(10, n) == 10 * power(10, (n - 1) as nat));
        if q == -1 {
            assert((1 * x) * ((10 * 1) * y) == 10 * ((1 * x) * (1 * y))) by (nonlinear_arith);
        } else {
            let p = power(10, (n - 1) as nat);
            assert((-(q + 1)) as nat == (n - 1) as nat);
            assert((1 * x) * ((10 * p) * y) == 10 * ((1 * x) * (p * y))) by (nonlinear_arith);
        }
    }
}

pub proof fn lemma_unit_positive(q: int, e: int)
    ensures
        unit_num(q, e) > 0,
        unit_den(q, e) > 0,
{
    if q >= 0 {
        lemma_power_positive(10, q as nat);
    } else {
        lemma_power_positive(10, (-q) as nat);
    }
    if e >= 0 {
        lemma_power_positive(2, e as nat);
    } else {
        lemma_power_positive(2, (-e) as nat);
    }
    let a = if q >= 0 {
        power(10, q as nat)
    } else {
        1
    };
    let b = if e < 0 {
        power(2, (-e) as nat)
    } else {
        1
    };
    let c = if q < 0 {
        power(10, (-q) as nat)
    } else {
        1
    };
    let d = if e >= 0 {
        power(2, e as nat)
    } else {
        1
    };
    assert(a * b > 0) by (nonlinear_arith)
        requires
            a > 0,
            b > 0,
    ;
    assert(c * d > 0) by (nonlinear_arith)
        requires
            c > 0,
            d > 0,
    ;
}

/// The state before any digit, one power of ten up.
pub proof fn lemma_state_up(m: nat, e: int, q: int, s: nat, r: nat, minus: nat, plus: nat)
    requires
        state(m, e, q, s, r, minus, plus, 0),
    ensures
        state(m, e, q + 1, 10 * s, r, minus, plus, 0),
{
    reveal(state);
    lemma_unit_up(q, e - 2);
    lemma_unit_positive(q + 1, e - 2);
    let a = unit_num(q, e - 2);
    let b = unit_den(q, e - 2);
    let a1 = unit_num(q + 1, e - 2);
    let b1 = unit_den(q + 1, e - 2);
    assert(plus * a1 == 2 * (10 * s) * b1) by (nonlinear_arith)
        requires
            plus * a == 2 * s * b,
            a1 * b == 10 * (a * b1),
            b > 0,
    ;
    assert(0 * (10 * s) == 0) by (nonlinear_arith);
    assert(0 * s == 0) by (nonlinear_arith);
}

/// One digit further.
pub proof fn lemma_state_down(
    m: nat,
    e: int,
    q: int,
    s: nat,
    r: nat,
    minus: nat,
    plus: nat,
    t: nat,
    d: nat,
    rest: nat,
)
    requires
        state(m, e, q, s, r, minus, plus, t),
        10 * r == d * s + rest,
    ensures
        state(m, e, q - 1, s, rest, 10 * minus, 10 * plus, 10 * t + d),
{
    reveal(state);
    lemma_unit_up(q - 1, e - 2);
    let a = unit_num(q, e - 2);
    let b = unit_den(q, e - 2);
    let a1 = unit_num(q - 1, e - 2);
    let b1 = unit_den(q - 1, e - 2);
    assert((10 * plus) * a1 == 2 * s * b1) by (nonlinear_arith)
        requires
            plus * a == 2 * s * b,
            a * b1 == 10 * (a1 * b),
            b > 0,
    ;
    assert((10 * t + d) * s + rest == 2 * m * (10 * plus)) by (nonlinear_arith)
        requires
            t * s + r == 2 * m * plus,
            10 * r == d * s + rest,
    ;
    let g = gap_below(m, e);
    assert(2 * (10 * minus) == g * (10 * plus)) by (nonlinear_arith)
        requires
            2 * minus == g * plus,
    ;
}

/// If neither of the two decimals around the number is read back as it, none
/// at that power is.
pub proof fn lemma_none_here(
    m: nat,
    e: int,
    q: int,
    s: nat,
    r: nat,
    minus: nat,
    plus: nat,
    t: nat,
)
    requires
        state(m, e, q, s, r, minus, plus, t),
        r < s,
        !reads_back(m, e, t, q),
        !reads_back(m, e, t + 1, q),
    ensures
        forall|c: nat| !#[trigger] reads_back(m, e, c, q),
{
    assert forall|c: nat| !#[trigger] reads_back(m, e, c, q) by {
        lemma_state_reads(m, e, q, s, r, minus, plus, t, c);
        lemma_state_reads(m, e, q, s, r, minus, plus, t, t);
        lemma_state_reads(m, e, q, s, r, minus, plus, t, t + 1);
        if c <= t {
            assert(c * s <= t * s) by (nonlinear_arith)
                requires
                    c <= t,
            ;
        } else {
            assert(c * s >= (t + 1) * s) by (nonlinear_arith)
                requires
                    c >= t + 1,
            ;
            assert((t + 1) * s == t * s + s) by (nonlinear_arith);
        }
        lemma_state_positive(m, e, q, s, r, minus, plus, t);
    }
}

pub proof fn lemma_state_positive(
    m: nat,
    e: int,
    q: int,
    s: nat,
    r: nat,
    minus: nat,
    plus: nat,
    t: nat,
)
    requires
        state(m, e, q, s, r, minus, plus, t),
    ensures
        s > 0,
        plus > 0,
        minus > 0,
        t * s + r == 2 * m * plus,
        m > 0 ==> 2 * m * plus > minus,
{
    reveal(state);
    let g = gap_below(m, e);
    assert(minus > 0 && (m > 0 ==> 2 * m * plus > minus)) by (nonlinear_arith)
        requires
            2 * minus == g * plus,
            plus > 0,
            1 <= g <= 2,
            m >= 0,
    ;
}

/// A number below `10^q` with its neighbours has no decimal at `q` or above.
pub proof fn lemma_none_above(
    m: nat,
    e: int,
    q: int,
    s: nat,
    r: nat,
    minus: nat,
    plus: nat,
)
    requires
        m > 0,
        state(m, e, q, s, r, minus, plus, 0),
        r + plus < s,
    ensures
        forall|c: nat, p: int| p >= q ==> !#[trigger] reads_back(m, e, c, p),
{
    assert forall|c: nat, p: int| p >= q implies !#[trigger] reads_back(m, e, c, p) by {
        let k = lemma_state_far_up(m, e, q, s, r, minus, plus, (p - q) as nat);
        lemma_state_reads(m, e, p, k, r, minus, plus, 0, c);
        lemma_state_positive(m, e, p, k, r, minus, plus, 0);
        assert(0 * k == 0) by (nonlinear_arith);
        if c == 0 {
            assert(c * k == 0) by (nonlinear_arith)
                requires
                    c == 0,
            ;
        } else {
            assert(c * k >= k) by (nonlinear_arith)
                requires
                    c >= 1,
            ;
        }
    }
}

pub proof fn lemma_state_far_up(
    m: nat,
    e: int,
    q: int,
    s: nat,
    r: nat,
    minus: nat,
    plus: nat,
    n: nat,
) -> (k: nat)
    requires
        state(m, e, q, s, r, minus, plus, 0),
    ensures
        state(m, e, q + n, k, r, minus, plus, 0),
        k >= s,
    decreases n,
{
    if n == 0 {
        s
    } else {
        lemma_state_up(m, e, q, s, r, minus, plus);
        lemma_state_far_up(m, e, q + 1, 10 * s, r, minus, plus, (n - 1) as nat)
    }
}

/// The rounded digits are the shortest decimal.
pub proof fn lemma_found(
    m: nat,
    e: int,
    q: int,
    s: nat,
    r: nat,
    minus: nat,
    plus: nat,
    t: nat,
    down: bool,
    up: bool,
    c: nat,
)
    requires
        m > 0,
        state(m, e, q, s, r, minus, plus, t),
        r < s,
        down == reads_back(m, e, t, q),
        up == reads_back(m, e, t + 1, q),
        down || up,
        c == if up && (!down || 2 * r >= s) {
            t + 1
        } else {
            t
        },
        forall|x: nat, p: int| p > q ==> !#[trigger] reads_back(m, e, x, p),
    ensures
        is_shortest(m, e, c, q),
{
    let v = t * s + r;
    assert((t + 1) * s == t * s + s) by (nonlinear_arith);
    assert forall|x: nat| #[trigger] reads_back(m, e, x, q) implies distance(m, e, c, q)
        < distance(m, e, x, q) || (distance(m, e, c, q) == distance(m, e, x, q) && x <= c) by {
        lemma_state_reads(m, e, q, s, r, minus, plus, t, c);
        lemma_state_reads(m, e, q, s, r, minus, plus, t, x);
        lemma_state_reads(m, e, q, s, r, minus, plus, t, t);
        lemma_state_reads(m, e, q, s, r, minus, plus, t, t + 1);
        lemma_state_positive(m, e, q, s, r, minus, plus, t);
        assert(unit_num(q, e - 2) > 0) by {
            lemma_unit_positive(q, e - 2);
        }
        let a = unit_num(q, e - 2) as int;
        let u = if c * s >= v {
            c * s - v
        } else {
            v - c * s
        };
        let w = if x * s >= v {
            x * s - v
        } else {
            v - x * s
        };
        lemma_order(distance(m, e, c, q), distance(m, e, x, q), s as int, u, w, a);
        lemma_order(distance(m, e, x, q), distance(m, e, c, q), s as int, w, u, a);
        if x < t {
            assert(x * s + s <= t * s) by (nonlinear_arith)
                requires
                    x + 1 <= t,
            ;
        } else if x > t + 1 {
            assert(x * s >= t * s + s + s) by (nonlinear_arith)
                requires
                    x >= t + 2,
            ;
        }
        if x < t {
            if c == t + 1 {
                // `t` is between `x` and the number, so it is read back too,
                // and the larger neighbour is at least as close as `t`.
                assert(down);
            }
        } else if x > t + 1 {
            if c == t {
                assert(up);
            }
        }
    }
}

proof fn lemma_power_order(a: nat, b: nat)
    requires
        power(2, a) < power(2, b),
    ensures
        a < b,
{
    if a >= b {
        lemma_power_monotone(2, b, a);
    }
}

/// The state before any digit, at power 0.
pub proof fn lemma_first_state(m: nat, e: int, s: nat, r: nat, minus: nat, plus: nat)
    requires
        e < 2 ==> s == power(2, (2 - e) as nat) && r == 4 * m && minus == gap_below(m, e) && plus
            == 2,
        e >= 2 ==> s == 1 && r == 4 * m * power(2, (e - 2) as nat) && minus == gap_below(m, e)
            * power(2, (e - 2) as nat) && plus == 2 * power(2, (e - 2) as nat),
    ensures
        state(m, e, 0, s, r, minus, plus, 0),
{
    reveal(state);
    lemma_unit_positive(0, e - 2);
    assert(0 * s == 0) by (nonlinear_arith);
    assert(power(10, 0) == 1);
    let g = gap_below(m, e);
    if e < 2 {
        lemma_power_positive(2, (2 - e) as nat);
        let p = power(2, (2 - e) as nat);
        assert((-(e - 2)) as nat == (2 - e) as nat);
        assert(unit_num(0, e - 2) == 1 * p);
        assert(unit_den(0, e - 2) == 1 * 1);
        assert(1 * p == p) by (nonlinear_arith);
        assert(2 * p == 2 * s * 1) by (nonlinear_arith)
            requires
                s == p,
        ;
    } else {
        let p = power(2, (e - 2) as nat);
        lemma_power_positive(2, (e - 2) as nat);
        assert(unit_num(0, e - 2) == 1 * 1);
        assert(unit_den(0, e - 2) == 1 * p);
        assert(1 * p == p) by (nonlinear_arith);
        assert(plus * 1 == 2 * 1 * p) by (nonlinear_arith)
            requires
                plus == 2 * p,
        ;
        assert(r == 2 * m * plus) by (nonlinear_arith)
            requires
                r == 4 * m * p,
                plus == 2 * p,
        ;
        assert(2 * minus == g * plus) by (nonlinear_arith)
            requires
                minus == g * p,
                plus == 2 * p,
        ;
    }
}

/// Bounds on the first state: the numbers stay below `2^1080`.
proof fn lemma_first_bounds(m: nat, e: int, s: nat, r: nat, plus: nat)
    requires
        0 < m < P53,
        -1074 <= e <= 971,
        e < 2 ==> s == power(2, (2 - e) as nat) && r == 4 * m && plus == 2,
        e >= 2 ==> s == 1 && r == 4 * m * power(2, (e - 2) as nat) && plus == 2 * power(
            2,
            (e - 2) as nat,
        ),
    ensures
        s < power(2, 1080),
        s >= 1,
        plus >= 1,
        r + plus < power(2, 1030),
{
    let p = power(2, (if e < 2 {
        0
    } else {
        e - 2
    }) as nat);
    lemma_power_positive(2, 1030);
    lemma_power_add(2, 60, 970);
    lemma_power_monotone(2, (if e < 2 {
        0
    } else {
        e - 2
    }) as nat, 970);
    lemma_power_positive(2, (if e < 2 {
        0
    } else {
        e - 2
    }) as nat);
    lemma_power_sixty();
    let big = power(2, 970);
    let c = power(2, 60);
    assert(power(2, 0) == 1);
    assert(r + plus == (4 * m + 2) * p) by (nonlinear_arith)
        requires
            (r == 4 * m && plus == 2 && p == 1) || (r == 4 * m * p && plus == 2 * p),
    ;
    assert((4 * m + 2) * p < c * big) by (nonlinear_arith)
        requires
            4 * m + 2 < c,
            0 < p <= big,
    ;
    if e < 2 {
        lemma_power_positive(2, (2 - e) as nat);
        lemma_power_monotone(2, (2 - e) as nat, 1079);
        assert(power(2, 1080) == 2 * power(2, 1079));
    } else {
        lemma_power_monotone(2, 1, 1080);
        assert(power(2, 1) == 2 * power(2, 0));
    }
}

proof fn lemma_power_sixty()
    ensures
        power(2, 60) == 0x1000_0000_0000_0000,
{
    assert(power(2, 15) == 32768) by {
        reveal_with_fuel(power, 16);
    }
    lemma_power_add(2, 15, 15);
    lemma_power_add(2, 30, 30);
    assert(power(2, 30) == 0x4000_0000);
    assert(power(2, 30) * power(2, 30) == 0x1000_0000_0000_0000) by (nonlinear_arith)
        requires
            power(2, 30) == 0x4000_0000,
    ;
}

/// In a state, the digits so far stay below `2^54` while the gap is narrower
/// than a unit.
pub proof fn lemma_digits_bound(
    m: nat,
    e: int,
    q: int,
    s: nat,
    r: nat,
    minus: nat,
    plus: nat,
    t: nat,
)
    requires
        state(m, e, q, s, r, minus, plus, t),
        m < P53,
        plus <= s,
    ensures
        t < 2 * P53,
{
    reveal(state);
    assert(t <= 2 * m) by (nonlinear_arith)
        requires
            t * s + r == 2 * m * plus,
            plus <= s,
            s > 0,
            r >= 0,
            m >= 0,
    ;
}

/// Compute the shortest decimal of `m * 2^e`.
fn find_shortest(m: u64, e: i32) -> (res: (u64, i32))
    requires
        0 < m < P53,
        -1074 <= e <= 971,
    ensures
        shortest(m as nat, e as int) == (res.0 as nat, res.1 as int),
        -1100 <= res.1 <= 1100,
{
    let ghost mn = m as nat;
    let ghost en = e as int;
    let even: bool = m % 2 == 0;
    let gap: u64 = if m == P52 && e > -1074 {
        1
    } else {
        2
    };
    let mut s: Big = Big::from_u64(1);
    let mut r: Big = Big::from_u64(4 * m);
    let mut minus: Big = Big::from_u64(gap);
    let mut plus: Big = Big::from_u64(2);
    if e < 2 {
        s.mul_power(2, (2 - e) as u128);
        assert(1 * power(2, (2 - e) as nat) == power(2, (2 - e) as nat)) by (nonlinear_arith);
    } else {
        r.mul_power(2, (e - 2) as u128);
        minus.mul_power(2, (e - 2) as u128);
        plus.mul_power(2, (e - 2) as u128);
    }
    let mut q: i32 = 0;
    proof {
        lemma_first_state(mn, en, s@, r@, minus@, plus@);
        lemma_first_bounds(mn, en, s@, r@, plus@);
        assert(power(2, 0) == 1);
    }
    let mut high: Big = r.copy();
    high.add_big(&plus);
    while !high.less(&s)
        invariant
            high@ == r@ + plus@,
            high@ < power(2, 1030),
            state(mn, en, q as int, s@, r@, minus@, plus@, 0),
            s@ >= power(2, q as nat),
            s@ >= 1,
            s@ < power(2, 1080),
            0 <= q <= 1030,
        decreases 1031 - q,
    {
        proof {
            lemma_state_up(mn, en, q as int, s@, r@, minus@, plus@);
            lemma_power_order(q as nat, 1030);
            assert(power(2, (q + 1) as nat) == 2 * power(2, q as nat));
            lemma_power_add(2, 4, 1030);
            assert(power(2, 4) == 16) by {
                reveal_with_fuel(power, 5);
            }
            lemma_power_monotone(2, 1034, 1080);
        }
        s.mul_add(10, 0);
        q = q + 1;
    }
    let mut t: u64 = 0;
    let mut down: bool = false;
    let mut up: bool = false;
    let ghost mut steps: nat = 0;
    let ghost top = q as int;
    proof {
        lemma_none_above(mn, en, q as int, s@, r@, minus@, plus@);
        lemma_digits_bound(mn, en, q as int, s@, r@, minus@, plus@, 0);
    }
    while !down && !up
        invariant
            0 < mn < P53,
            even == (mn % 2 == 0),
            mn == m,
            0 <= top <= 1030,
            q == top - steps,
            state(mn, en, q as int, s@, r@, minus@, plus@, t as nat),
            r@ < s@,
            s@ < power(2, 1080),
            plus@ >= power(2, steps),
            !down && !up ==> plus@ <= s@ && t < 2 * P53 && steps < 1080,
            steps <= 1080,
            !down && !up ==> forall|c: nat, p: int|
                p >= q ==> !#[trigger] reads_back(mn, en, c, p),
            down || up ==> forall|c: nat, p: int|
                p > q ==> !#[trigger] reads_back(mn, en, c, p),
            down || up ==> down == reads_back(mn, en, t as nat, q as int),
            down || up ==> up == reads_back(mn, en, (t + 1) as nat, q as int),
            t < 20 * P53,
        decreases 1081 - steps,
    {
        let ghost r0 = r@;
        let ghost t0 = t as nat;
        let ghost minus0 = minus@;
        let ghost plus0 = plus@;
        r.mul_add(10, 0);
        minus.mul_add(10, 0);
        plus.mul_add(10, 0);
        let d: u64 = take_digit(&mut r, &s);
        proof {
            lemma_state_down(mn, en, q as int, s@, r0, minus0, plus0, t0, d as nat, r@);
        }
        t = t * 10 + d;
        q = q - 1;
        proof {
            steps = steps + 1;
            assert(power(2, steps) == 2 * power(2, (steps - 1) as nat));
            lemma_state_positive(mn, en, q as int, s@, r@, minus@, plus@, t as nat);
            lemma_state_reads(mn, en, q as int, s@, r@, minus@, plus@, t as nat, t as nat);
            lemma_state_reads(mn, en, q as int, s@, r@, minus@, plus@, t as nat, (t + 1) as nat);
            assert((t + 1) * s@ == t * s@ + s@) by (nonlinear_arith);
        }
        let mut high: Big = r.copy();
        high.add_big(&plus);
        down = if even {
            !minus.less(&r)
        } else {
            r.less(&minus)
        };
        up = if even {
            !high.less(&s)
        } else {
            s.less(&high)
        };
        proof {
            assert(down == reads_back(mn, en, t as nat, q as int));
            assert(up == reads_back(mn, en, (t + 1) as nat, q as int));
            if !down && !up {
                lemma_none_here(mn, en, q as int, s@, r@, minus@, plus@, t as nat);
                lemma_digits_bound(mn, en, q as int, s@, r@, minus@, plus@, t as nat);
                lemma_power_order(steps, 1080);
            }
        }
    }
    let ghost rn = r@;
    r.mul_add(2, 0);
    let c: u64 = if up && (!down || !r.less(&s)) {
        t + 1
    } else {
        t
    };
    proof {
        lemma_found(
            mn,
            en,
            q as int,
            s@,
            rn,
            minus@,
            plus@,
            t as nat,
            down,
            up,
            c as nat,
        );
        lemma_shortest_unique(mn, en, c as nat, q as int);
    }
    (c, q)
}

/// Divide by repeated subtraction: the quotient of `r / s`, which is below
/// ten, with the remainder left in `r`.
fn take_digit(r: &mut Big, s: &Big) -> (d: u64)
    requires
        s@ > 0,
        old(r)@ < 10 * s@,
    ensures
        old(r)@ == d * s@ + final(r)@,
        final(r)@ < s@,
        d < 10,
{
    let mut d: u64 = 0;
    assert(0 * s@ == 0) by (nonlinear_arith);
    while !r.less(s)
        invariant
            s@ > 0,
            old(r)@ < 10 * s@,
            old(r)@ == d * s@ + r@,
            d < 10,
        decreases r@,
    {
        r.sub(s);
        proof {
            let sv = s@;
            assert((d + 1) * sv == d * sv + sv) by (nonlinear_arith);
            assert(d + 1 < 10) by (nonlinear_arith)
                requires
                    (d + 1) * sv < 10 * sv,
                    sv > 0,
            ;
        }
        d = d + 1;
    }
    d
}

// ---------------------------------------------------------------------------
// Text
// ---------------------------------------------------------------------------

fn put_zero_chars(out: &mut String, n: usize)
    ensures
        final(out)@ == old(out)@ + zero_chars(n as nat),
{
    let mut i: usize = 0;
    assert(out@ =~= old(out)@ + zero_chars(0));
    while i < n
        invariant
            i <= n,
            out@ == old(out)@ + zero_chars(i as nat),
        decreases n - i,
    {
        out.push('0');
        i = i + 1;
        assert(out@ =~= old(out)@ + zero_chars(i as nat));
    }
}

fn put_range(out: &mut String, v: &Vec<char>, from: usize, to: usize)
    requires
        from <= to <= v@.len(),
    ensures
        final(out)@ == old(out)@ + v@.subrange(from as int, to as int),
{
    let mut i: usize = from;
    assert(out@ =~= old(out)@ + v@.subrange(from as int, from as int));
    while i < to
        invariant
            from <= i <= to <= v@.len(),
            out@ == old(out)@ + v@.subrange(from as int, i as int),
        decreases to - i,
    {
        out.push(v[i]);
        i = i + 1;
        assert(v@.subrange(from as int, i as int) =~= v@.subrange(from as int, i - 1).push(
            v@[i - 1],
        ));
    }
}

fn put_positional(out: &mut String, s: u64, q: i32)
    requires
        -1100 <= q <= 1100,
    ensures
        final(out)@ == old(out)@ + positional(s as nat, q as int),
{
    let digits: Vec<char> = chars_of(dec_text(s as u128).as_str());
    let n: usize = digits.len();
    assert(digits@ == dec(s as nat));
    if q >= 0 {
        put_range(out, &digits, 0, n);
        put_zero_chars(out, q as usize);
        assert(out@ =~= old(out)@ + positional(s as nat, q as int));
    } else {
        let k: usize = (-q) as usize;
        if n > k {
            put_range(out, &digits, 0, n - k);
            out.push('.');
            put_range(out, &digits, n - k, n);
        } else {
            out.push('0');
            out.push('.');
            put_zero_chars(out, k - n);
            put_range(out, &digits, 0, n);
        }
        assert(out@ =~= old(out)@ + positional(s as nat, q as int));
    }
}

/// Append a finite double as text.
pub fn put_double(out: &mut String, bits: u64)
    requires
        is_finite(bits),
    ensures
        final(out)@ == old(out)@ + double_text(bits),
{
    let mag: u64 = if bits >= SIGN {
        out.push('-');
        bits - SIGN
    } else {
        bits
    };
    if mag == 0 {
        out.push('0');
    } else {
        let m: u64 = if mag < P52 {
            mag
        } else {
            mag % P52 + P52
        };
        let e: i32 = if mag < P52 {
            -1074
        } else {
            (mag / P52) as i32 - 1075
        };
        let (s, q) = find_shortest(m, e);
        put_positional(out, s, q);
    }
    assert(out@ =~= old(out)@ + double_text(bits));
}

} // verus!
