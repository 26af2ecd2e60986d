//! Natural numbers of any size, as the conversions between binary and decimal
//! fractions need them.

use vstd::prelude::*;

verus! {

/// `b` to the power `n`.
pub open spec fn power(b: nat, n: nat) -> nat
    decreases n,
{
    if n == 0 {
        1
    } else {
        b * power(b, (n - 1) as nat)
    }
}

pub proof fn lemma_power_positive(b: nat, n: nat)
    requires
        b > 0,
    ensures
        power(b, n) > 0,
    decreases n,
{
    if n > 0 {
        lemma_power_positive(b, (n - 1) as nat);
        assert(b * power(b, (n - 1) as nat) > 0) by (nonlinear_arith)
            requires
                b > 0,
                power(b, (n - 1) as nat) > 0,
        ;
    }
}

pub proof fn lemma_power_add(b: nat, m: nat, n: nat)
    ensures
        power(b, m + n) == power(b, m) * power(b, n),
    decreases m,
{
    if m == 0 {
        assert(power(b, 0) * power(b, n) == power(b, n)) by (nonlinear_arith)
            requires
                power(b, 0) == 1,
        ;
    } else {
        lemma_power_add(b, (m - 1) as nat, n);
        assert((m + n - 1) as nat == (m - 1) as nat + n);
        assert(b * (power(b, (m - 1) as nat) * power(b, n)) == (b * power(b, (m - 1) as nat))
            * power(b, n)) by (nonlinear_arith);
    }
}

pub proof fn lemma_power_monotone(b: nat, m: nat, n: nat)
    requires
        b > 0,
        m <= n,
    ensures
        power(b, m) <= power(b, n),
{
    lemma_power_add(b, m, (n - m) as nat);
    lemma_power_positive(b, (n - m) as nat);
    let x = power(b, m);
    let y = power(b, (n - m) as nat);
    assert(x <= x * y) by (nonlinear_arith)
        requires
            y > 0,
    ;
}

/// The value of little-endian 32-bit digits.
pub open spec fn limbs_value(s: Seq<u32>) -> nat
    decreases s.len(),
{
    if s.len() == 0 {
        0
    } else {
        s[0] as nat + 0x1_0000_0000 * limbs_value(s.skip(1))
    }
}

/// A natural number of any size.
pub struct Big {
    limbs: Vec<u32>,
}

impl View for Big {
    type V = nat;

    closed spec fn view(&self) -> nat {
        limbs_value(self.limbs@)
    }
}

/// Appending a digit adds it at the top.
proof fn lemma_value_push(s: Seq<u32>, d: u32)
    ensures
        limbs_value(s.push(d)) == limbs_value(s) + power(0x1_0000_0000, s.len()) * d as nat,
    decreases s.len(),
{
    let t = s.push(d);
    let base: nat = 0x1_0000_0000;
    if s.len() == 0 {
        assert(t.skip(1) =~= seq![]);
        assert(t[0] == d);
        assert(limbs_value(t) == d as nat + base * limbs_value(t.skip(1)));
        assert(power(base, 0) * d as nat == d as nat) by (nonlinear_arith)
            requires
                power(base, 0) == 1,
        ;
    } else {
        assert(t.skip(1) =~= s.skip(1).push(d));
        lemma_value_push(s.skip(1), d);
        let p = power(base, (s.len() - 1) as nat);
        assert(base * (limbs_value(s.skip(1)) + p * d as nat) == base * limbs_value(s.skip(1)) + (
        base * p) * d as nat) by (nonlinear_arith);
    }
}

/// The value of a prefix and a rest.
proof fn lemma_value_split(s: Seq<u32>, i: int)
    requires
        0 <= i <= s.len(),
    ensures
        limbs_value(s) == limbs_value(s.take(i)) + power(0x1_0000_0000, i as nat) * limbs_value(
            s.skip(i),
        ),
    decreases i,
{
    let base: nat = 0x1_0000_0000;
    if i == 0 {
        assert(s.skip(0) =~= s);
        assert(s.take(0) =~= seq![]);
        assert(power(base, 0) * limbs_value(s) == limbs_value(s)) by (nonlinear_arith)
            requires
                power(base, 0) == 1,
        ;
    } else {
        lemma_value_split(s.skip(1), i - 1);
        assert(s.skip(1).take(i - 1) =~= s.take(i).skip(1));
        assert(s.skip(1).skip(i - 1) =~= s.skip(i));
        assert(s.take(i)[0] == s[0]);
        let p = power(base, (i - 1) as nat);
        let v = limbs_value(s.skip(i));
        let w = limbs_value(s.take(i).skip(1));
        assert(base * (w + p * v) == base * w + (base * p) * v) by (nonlinear_arith);
    }
}

/// A number of `n` digits is below the `n`-th power of the base.
proof fn lemma_value_bound(s: Seq<u32>)
    ensures
        limbs_value(s) < power(0x1_0000_0000, s.len()),
    decreases s.len(),
{
    if s.len() > 0 {
        lemma_value_bound(s.skip(1));
    }
}

impl Big {
    pub fn from_u64(n: u64) -> (r: Big)
        ensures
            r@ == n,
    {
        let mut limbs: Vec<u32> = Vec::new();
        limbs.push((n % 0x1_0000_0000) as u32);
        limbs.push((n / 0x1_0000_0000) as u32);
        proof {
            reveal_with_fuel(limbs_value, 3);
            assert(limbs@.skip(1).skip(1) =~= seq![]);
        }
        Big { limbs }
    }

    /// Multiply by `m` and add `c`.
    pub fn mul_add(&mut self, m: u32, c: u32)
        ensures
            final(self)@ == old(self)@ * m as nat + c as nat,
    {
        let ghost s = self.limbs@;
        let ghost base: nat = 0x1_0000_0000;
        let mut carry: u64 = c as u64;
        let mut i: usize = 0;
        proof {
            assert(s.take(0) =~= seq![]);
            assert(self.limbs@.take(0) =~= seq![]);
            assert(power(base, 0) * carry as nat == carry as nat) by (nonlinear_arith)
                requires
                    power(base, 0) == 1,
            ;
            assert(limbs_value(s.take(0)) * m as nat == 0) by (nonlinear_arith)
                requires
                    limbs_value(s.take(0)) == 0,
            ;
        }
        while i < self.limbs.len()
            invariant
                i <= self.limbs@.len() == s.len(),
                s == old(self).limbs@,
                base == 0x1_0000_0000,
                carry < 0x1_0000_0000,
                self.limbs@.skip(i as int) == s.skip(i as int),
                limbs_value(self.limbs@.take(i as int)) + power(base, i as nat) * carry as nat
                    == limbs_value(s.take(i as int)) * m as nat + c as nat,
            decreases s.len() - i,
        {
            let x: u32 = self.limbs[i];
            assert(x == self.limbs@.skip(i as int)[0] == s.skip(i as int)[0] == s[i as int]);
            assert(x as u64 * m as u64 <= 0xffff_ffff * 0xffff_ffff) by (nonlinear_arith)
                requires
                    x <= 0xffff_ffff,
                    m <= 0xffff_ffff,
            ;
            let t: u64 = x as u64 * m as u64 + carry;
            let low: u32 = (t % 0x1_0000_0000) as u32;
            let ghost before = self.limbs@;
            self.limbs.set(i, low);
            let next: u64 = t / 0x1_0000_0000;
            proof {
                let p = power(base, i as nat);
                let done = before.take(i as int);
                assert(self.limbs@.take(i + 1) =~= done.push(low));
                lemma_value_push(done, low);
                assert(s.take(i + 1) =~= s.take(i as int).push(x));
                lemma_value_push(s.take(i as int), x);
                assert(self.limbs@.skip(i + 1) =~= s.skip(i + 1)) by {
                    assert(before.skip(i as int).skip(1) =~= before.skip(i + 1));
                    assert(s.skip(i as int).skip(1) =~= s.skip(i + 1));
                    assert(self.limbs@.skip(i + 1) =~= before.skip(i + 1));
                }
                let sv = limbs_value(s.take(i as int));
                let dv = limbs_value(done);
                assert(next < 0x1_0000_0000) by (nonlinear_arith)
                    requires
                        t <= 0xffff_ffff * 0xffff_ffff + 0xffff_ffff,
                        next == t / 0x1_0000_0000,
                ;
                lemma_carry_step(
                    p,
                    base,
                    low as nat,
                    next as nat,
                    x as nat,
                    m as nat,
                    carry as nat,
                    sv,
                    dv,
                    c as nat,
                );
            }
            carry = next;
            i = i + 1;
        }
        proof {
            assert(self.limbs@.take(i as int) =~= self.limbs@);
            assert(s.take(i as int) =~= s);
            lemma_value_push(self.limbs@, carry as u32);
        }
        if carry > 0 {
            self.limbs.push(carry as u32);
        } else {
            assert(power(base, i as nat) * carry as nat == 0) by (nonlinear_arith)
                requires
                    carry == 0,
            ;
        }
    }

    /// Multiply by a power.
    pub fn mul_power(&mut self, b: u32, n: u128)
        ensures
            final(self)@ == old(self)@ * power(b as nat, n as nat),
    {
        let mut i: u128 = 0;
        assert(self@ * power(b as nat, 0) == self@) by (nonlinear_arith)
            requires
                power(b as nat, 0) == 1,
        ;
        while i < n
            invariant
                i <= n,
                self@ == old(self)@ * power(b as nat, i as nat),
            decreases n - i,
        {
            self.mul_add(b, 0);
            i = i + 1;
            proof {
                let p = power(b as nat, (i - 1) as nat);
                let v = old(self)@;
                assert((v * p) * b as nat == v * (b as nat * p)) by (nonlinear_arith);
            }
        }
    }

    fn digit(&self, i: usize) -> (r: u32)
        ensures
            r == if i < self.limbs@.len() { self.limbs@[i as int] } else { 0 },
    {
        if i < self.limbs.len() {
            self.limbs[i]
        } else {
            0
        }
    }

    /// Whether this number is less than another.
    pub fn less(&self, other: &Big) -> (r: bool)
        ensures
            r == (self@ < other@),
    {
        let n: usize = if self.limbs.len() >= other.limbs.len() {
            self.limbs.len()
        } else {
            other.limbs.len()
        };
        let mut i: usize = n;
        proof {
            lemma_padded_all(self.limbs@, n as int);
            lemma_padded_all(other.limbs@, n as int);
        }
        while i > 0
            invariant
                i <= n,
                self@ == limbs_value(padded(self.limbs@, n as nat)),
                other@ == limbs_value(padded(other.limbs@, n as nat)),
                padded(self.limbs@, n as nat).skip(i as int) == padded(
                    other.limbs@,
                    n as nat,
                ).skip(i as int),
            decreases i,
        {
            let a: u32 = self.digit(i - 1);
            let b: u32 = other.digit(i - 1);
            let ghost x = padded(self.limbs@, n as nat);
            let ghost y = padded(other.limbs@, n as nat);
            proof {
                lemma_value_split(x, i as int);
                lemma_value_split(y, i as int);
                assert(x.take(i as int) =~= x.take(i - 1).push(a));
                assert(y.take(i as int) =~= y.take(i - 1).push(b));
                lemma_value_push(x.take(i - 1), a);
                lemma_value_push(y.take(i - 1), b);
                lemma_value_bound(x.take(i - 1));
                lemma_value_bound(y.take(i - 1));
            }
            if a != b {
                proof {
                    let p = power(0x1_0000_0000, (i - 1) as nat);
                    let u = limbs_value(x.take(i - 1));
                    let v = limbs_value(y.take(i - 1));
                    lemma_digit_decides(u, v, p, a as nat, b as nat);
                }
                return a < b;
            }
            i = i - 1;
            assert(x.skip(i as int) =~= seq![a] + x.skip(i + 1));
            assert(y.skip(i as int) =~= seq![b] + y.skip(i + 1));
        }
        proof {
            assert(padded(self.limbs@, n as nat).skip(0) =~= padded(self.limbs@, n as nat));
            assert(padded(other.limbs@, n as nat).skip(0) =~= padded(other.limbs@, n as nat));
        }
        false
    }

    /// Subtract a number that is not greater.
    pub fn sub(&mut self, other: &Big)
        requires
            other@ <= old(self)@,
        ensures
            final(self)@ == old(self)@ - other@,
    {
        let n: usize = if self.limbs.len() >= other.limbs.len() {
            self.limbs.len()
        } else {
            other.limbs.len()
        };
        let ghost s = padded(self.limbs@, n as nat);
        let ghost o = padded(other.limbs@, n as nat);
        let ghost base: nat = 0x1_0000_0000;
        let mut out: Vec<u32> = Vec::new();
        let mut borrow: u64 = 0;
        let mut i: usize = 0;
        proof {
            lemma_padded_all(self.limbs@, n as int);
            lemma_padded_all(other.limbs@, n as int);
            assert(s.take(0) =~= seq![]);
            assert(o.take(0) =~= seq![]);
            assert(power(base, 0) * borrow as nat == 0) by (nonlinear_arith)
                requires
                    borrow == 0,
            ;
        }
        while i < n
            invariant
                i <= n,
                self.limbs@.len() <= n,
                other.limbs@.len() <= n,
                base == 0x1_0000_0000,
                s == padded(self.limbs@, n as nat),
                o == padded(other.limbs@, n as nat),
                out@.len() == i,
                borrow <= 1,
                limbs_value(out@) + limbs_value(o.take(i as int)) == limbs_value(s.take(i as int))
                    + power(base, i as nat) * borrow as nat,
            decreases n - i,
        {
            let a: u64 = self.digit(i) as u64;
            let b: u64 = other.digit(i) as u64 + borrow;
            let ghost p = power(base, i as nat);
            let ghost before = out@;
            let ghost old_borrow = borrow as nat;
            proof {
                assert(s.take(i + 1) =~= s.take(i as int).push(a as u32));
                assert(o.take(i + 1) =~= o.take(i as int).push((b - borrow) as u32));
                lemma_value_push(s.take(i as int), a as u32);
                lemma_value_push(o.take(i as int), (b - borrow) as u32);
            }
            let d: u32 = if a >= b {
                borrow = 0;
                (a - b) as u32
            } else {
                borrow = 1;
                (a + 0x1_0000_0000 - b) as u32
            };
            out.push(d);
            proof {
                lemma_value_push(before, d);
                let sv = limbs_value(s.take(i as int));
                let ov = limbs_value(o.take(i as int));
                let rv = limbs_value(before);
                let od = (b - old_borrow) as nat;
                assert(p * d as nat + p * od + p * old_borrow == p * a as nat + (base * p)
                    * borrow as nat) by (nonlinear_arith)
                    requires
                        d + od + old_borrow == a + base * borrow,
                ;
            }
            i = i + 1;
        }
        proof {
            assert(s.take(n as int) =~= s);
            assert(o.take(n as int) =~= o);
            lemma_value_bound(out@);
            if borrow == 1 {
                assert(power(base, n as nat) * 1 == power(base, n as nat)) by (nonlinear_arith);
            } else {
                assert(power(base, n as nat) * borrow as nat == 0) by (nonlinear_arith)
                    requires
                        borrow == 0,
                ;
            }
        }
        self.limbs = out;
    }

    /// Add another number.
    pub fn add_big(&mut self, other: &Big)
        ensures
            final(self)@ == old(self)@ + other@,
    {
        let n: usize = if self.limbs.len() >= other.limbs.len() {
            self.limbs.len()
        } else {
            other.limbs.len()
        };
        let ghost s = padded(self.limbs@, n as nat);
        let ghost o = padded(other.limbs@, n as nat);
        let ghost base: nat = 0x1_0000_0000;
        let mut out: Vec<u32> = Vec::new();
        let mut carry: u64 = 0;
        let mut i: usize = 0;
        proof {
            lemma_padded_all(self.limbs@, n as int);
            lemma_padded_all(other.limbs@, n as int);
            assert(s.take(0) =~= seq![]);
            assert(o.take(0) =~= seq![]);
            assert(power(base, 0) * carry as nat == 0) by (nonlinear_arith)
                requires
                    carry == 0,
            ;
        }
        while i < n
            invariant
                i <= n,
                self.limbs@.len() <= n,
                other.limbs@.len() <= n,
                base == 0x1_0000_0000,
                s == padded(self.limbs@, n as nat),
                o == padded(other.limbs@, n as nat),
                out@.len() == i,
                carry <= 1,
                limbs_value(out@) + power(base, i as nat) * carry as nat == limbs_value(
                    s.take(i as int),
                ) + limbs_value(o.take(i as int)),
            decreases n - i,
        {
            let a: u64 = self.digit(i) as u64;
            let b: u64 = other.digit(i) as u64;
            let ghost p = power(base, i as nat);
            let ghost before = out@;
            let ghost old_carry = carry as nat;
            proof {
                assert(s.take(i + 1) =~= s.take(i as int).push(a as u32));
                assert(o.take(i + 1) =~= o.take(i as int).push(b as u32));
                lemma_value_push(s.take(i as int), a as u32);
                lemma_value_push(o.take(i as int), b as u32);
            }
            let t: u64 = a + b + carry;
            let d: u32 = (t % 0x1_0000_0000) as u32;
            carry = t / 0x1_0000_0000;
            out.push(d);
            proof {
                lemma_value_push(before, d);
                assert(p * d as nat + (base * p) * carry as nat == p * a as nat + p * b as nat + p
                    * old_carry) by (nonlinear_arith)
                    requires
                        d + base * carry == a + b + old_carry,
                ;
            }
            i = i + 1;
        }
        proof {
            assert(s.take(n as int) =~= s);
            assert(o.take(n as int) =~= o);
            lemma_value_push(out@, carry as u32);
            if carry == 0 {
                assert(power(base, n as nat) * carry as nat == 0) by (nonlinear_arith)
                    requires
                        carry == 0,
                ;
            }
        }
        if carry > 0 {
            out.push(carry as u32);
        }
        self.limbs = out;
    }

    /// A copy of this number.
    pub fn copy(&self) -> (r: Big)
        ensures
            r@ == self@,
    {
        let mut limbs: Vec<u32> = Vec::new();
        let mut i: usize = 0;
        while i < self.limbs.len()
            invariant
                i <= self.limbs@.len(),
                limbs@ == self.limbs@.take(i as int),
            decreases self.limbs@.len() - i,
        {
            limbs.push(self.limbs[i]);
            i = i + 1;
            assert(self.limbs@.take(i as int) =~= self.limbs@.take(i - 1).push(
                self.limbs@[i - 1],
            ));
        }
        assert(self.limbs@.take(i as int) =~= self.limbs@);
        Big { limbs }
    }
}

proof fn lemma_carry_step(
    p: nat,
    base: nat,
    low: nat,
    next: nat,
    x: nat,
    m: nat,
    carry: nat,
    sv: nat,
    dv: nat,
    c: nat,
)
    requires
        low + base * next == x * m + carry,
        dv + p * carry == sv * m + c,
    ensures
        (dv + p * low) + (base * p) * next == (sv + p * x) * m + c,
{
    assert(p * low + (base * p) * next == p * (low + base * next)) by (nonlinear_arith);
    assert(p * (x * m + carry) == (p * x) * m + p * carry) by (nonlinear_arith);
    assert((sv + p * x) * m == sv * m + (p * x) * m) by (nonlinear_arith);
}

proof fn lemma_digit_decides(u: nat, v: nat, p: nat, a: nat, b: nat)
    requires
        u < p,
        v < p,
        a != b,
    ensures
        (u + p * a < v + p * b) == (a < b),
{
    if a < b {
        assert(p * a + p <= p * b) by (nonlinear_arith)
            requires
                a + 1 <= b,
        ;
    } else {
        assert(p * b + p <= p * a) by (nonlinear_arith)
            requires
                b + 1 <= a,
        ;
    }
}

/// The digits with zeros up to `n` of them.
spec fn padded(s: Seq<u32>, n: nat) -> Seq<u32> {
    Seq::new(
        n,
        |i: int|
            if i < s.len() {
                s[i]
            } else {
                0
            },
    )
}

proof fn lemma_zero_digits(n: nat)
    ensures
        limbs_value(Seq::new(n, |i: int| 0u32)) == 0,
    decreases n,
{
    if n > 0 {
        let z = Seq::new(n, |i: int| 0u32);
        assert(z.skip(1) =~= Seq::new((n - 1) as nat, |i: int| 0u32));
        lemma_zero_digits((n - 1) as nat);
    }
}

proof fn lemma_padded_all(s: Seq<u32>, n: int)
    requires
        s.len() <= n,
    ensures
        limbs_value(padded(s, n as nat)) == limbs_value(s),
{
    let z = padded(s, n as nat);
    lemma_value_split(z, s.len() as int);
    assert(z.take(s.len() as int) =~= s);
    assert(z.skip(s.len() as int) =~= Seq::new((n - s.len()) as nat, |i: int| 0u32));
    lemma_zero_digits((n - s.len()) as nat);
    assert(power(0x1_0000_0000, s.len()) * 0 == 0) by (nonlinear_arith);
}

} // verus!
