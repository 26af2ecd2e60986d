//! Little-endian integers in byte sequences.

use vstd::prelude::*;

verus! {

/// The little-endian number in `b[off..off + n]`.
pub open spec fn le(b: Seq<u8>, off: int, n: nat) -> nat
    decreases n,
{
    if n == 0 {
        0
    } else {
        b[off] as nat + 256 * le(b, off + 1, (n - 1) as nat)
    }
}

/// The `n` low-order bytes of `x`, least significant first.
pub open spec fn le_bytes(x: nat, n: nat) -> Seq<u8>
    decreases n,
{
    if n == 0 {
        seq![]
    } else {
        seq![(x % 256) as u8] + le_bytes(x / 256, (n - 1) as nat)
    }
}

/// `256` to the power `n`: one more than the largest `n`-byte number.
pub open spec fn pow256(n: nat) -> nat
    decreases n,
{
    if n == 0 {
        1
    } else {
        256 * pow256((n - 1) as nat)
    }
}

pub proof fn lemma_le_bytes_len(x: nat, n: nat)
    ensures
        le_bytes(x, n).len() == n,
    decreases n,
{
    if n > 0 {
        lemma_le_bytes_len(x / 256, (n - 1) as nat);
    }
}

pub proof fn lemma_le_bound(b: Seq<u8>, off: int, n: nat)
    ensures
        le(b, off, n) < pow256(n),
    decreases n,
{
    if n > 0 {
        lemma_le_bound(b, off + 1, (n - 1) as nat);
    }
}

/// Only the bytes in the window matter.
pub proof fn lemma_le_window(a: Seq<u8>, i: int, b: Seq<u8>, j: int, n: nat)
    requires
        0 <= i,
        i + n <= a.len(),
        0 <= j,
        j + n <= b.len(),
        a.subrange(i, i + n) == b.subrange(j, j + n),
    ensures
        le(a, i, n) == le(b, j, n),
    decreases n,
{
    if n > 0 {
        assert(a.subrange(i, i + n)[0] == a[i]);
        assert(b.subrange(j, j + n)[0] == b[j]);
        assert(a.subrange(i + 1, i + n) =~= a.subrange(i, i + n).skip(1));
        assert(b.subrange(j + 1, j + n) =~= b.subrange(j, j + n).skip(1));
        lemma_le_window(a, i + 1, b, j + 1, (n - 1) as nat);
    }
}

/// What is written little-endian is read back unchanged, up to truncation to
/// the width.
pub proof fn lemma_le_round_trip(b: Seq<u8>, off: int, x: nat, n: nat)
    requires
        0 <= off,
        off + n <= b.len(),
        b.subrange(off, off + n) == le_bytes(x, n),
    ensures
        le(b, off, n) == x % pow256(n),
        x < pow256(n) ==> le(b, off, n) == x,
    decreases n,
{
    if n > 0 {
        let m = (n - 1) as nat;
        lemma_le_bytes_len(x / 256, m);
        let s = le_bytes(x, n);
        assert(b[off] == s[0]) by {
            assert(b.subrange(off, off + n)[0] == b[off]);
        }
        assert(b.subrange(off + 1, off + 1 + m) =~= b.subrange(off, off + n).skip(1));
        assert(s.skip(1) =~= le_bytes(x / 256, m));
        lemma_le_round_trip(b, off + 1, x / 256, m);
        let p = pow256(m);
        lemma_pow256_positive(m);
        assert(x % (256 * p) == x % 256 + 256 * ((x / 256) % p)) by {
            vstd::arithmetic::div_mod::lemma_mod_breakdown(x as int, 256, p as int);
        }
        if x < pow256(n) {
            vstd::arithmetic::div_mod::lemma_small_mod(x, pow256(n));
        }
    }
}

pub proof fn lemma_pow256_positive(n: nat)
    ensures
        pow256(n) > 0,
    decreases n,
{
    if n > 0 {
        lemma_pow256_positive((n - 1) as nat);
    }
}

pub fn u16le(b: &[u8], off: usize) -> (r: u16)
    requires
        off + 2 <= b@.len(),
    ensures
        r == le(b@, off as int, 2),
{
    reveal_with_fuel(le, 3);
    b[off] as u16 + 256 * (b[off + 1] as u16)
}

pub fn u32le(b: &[u8], off: usize) -> (r: u32)
    requires
        off + 4 <= b@.len(),
    ensures
        r == le(b@, off as int, 4),
{
    reveal_with_fuel(le, 5);
    b[off] as u32 + 256 * (b[off + 1] as u32 + 256 * (b[off + 2] as u32 + 256 * (b[off + 3] as u32)))
}

pub fn u64le(b: &[u8], off: usize) -> (r: u64)
    requires
        off + 8 <= b@.len(),
    ensures
        r == le(b@, off as int, 8),
{
    reveal_with_fuel(le, 9);
    b[off] as u64 + 256 * (b[off + 1] as u64 + 256 * (b[off + 2] as u64 + 256 * (b[off + 3] as u64
        + 256 * (b[off + 4] as u64 + 256 * (b[off + 5] as u64 + 256 * (b[off + 6] as u64 + 256 * (
    b[off + 7] as u64)))))))
}

/// Append the `n` low-order bytes of `x`, least significant first.
pub fn put_le(out: &mut Vec<u8>, x: u64, n: usize)
    ensures
        final(out)@ == old(out)@ + le_bytes(x as nat, n as nat),
{
    let mut rest: u64 = x;
    let mut k: usize = 0;
    assert(out@ + le_bytes(x as nat, n as nat) =~= old(out)@ + le_bytes(x as nat, n as nat));
    while k < n
        invariant
            k <= n,
            out@ + le_bytes(rest as nat, (n - k) as nat) == old(out)@ + le_bytes(x as nat, n as nat),
        decreases n - k,
    {
        let ghost before = out@;
        let low: u8 = (rest % 256) as u8;
        out.push(low);
        assert(out@ + le_bytes((rest / 256) as nat, (n - k - 1) as nat) =~= before + le_bytes(
            rest as nat,
            (n - k) as nat,
        ));
        rest = rest / 256;
        k = k + 1;
    }
    assert(out@ + le_bytes(rest as nat, 0) =~= out@);
}

/// Append a slice of bytes.
pub fn put_bytes(out: &mut Vec<u8>, b: &[u8])
    ensures
        final(out)@ == old(out)@ + b@,
{
    let mut i: usize = 0;
    assert(out@ =~= old(out)@ + b@.take(0));
    while i < b.len()
        invariant
            i <= b@.len(),
            out@ == old(out)@ + b@.take(i as int),
        decreases b@.len() - i,
    {
        out.push(b[i]);
        i = i + 1;
        assert(out@ =~= old(out)@ + b@.take(i as int));
    }
    assert(b@.take(b@.len() as int) =~= b@);
}

/// A run of `n` zero bytes.
pub open spec fn zeros(n: nat) -> Seq<u8> {
    Seq::new(n, |i: int| 0u8)
}

/// Append `n` zero bytes.
pub fn put_zeros(out: &mut Vec<u8>, n: usize)
    ensures
        final(out)@ == old(out)@ + zeros(n as nat),
{
    let mut i: usize = 0;
    assert(out@ =~= old(out)@ + zeros(0));
    while i < n
        invariant
            i <= n,
            out@ == old(out)@ + zeros(i as nat),
        decreases n - i,
    {
        out.push(0u8);
        i = i + 1;
        assert(out@ =~= old(out)@ + zeros(i as nat));
    }
}

/// The bytes `b[from..to]` as a vector of their own.
pub fn copy_range(b: &[u8], from: usize, to: usize) -> (r: Vec<u8>)
    requires
        from <= to <= b@.len(),
    ensures
        r@ == b@.subrange(from as int, to as int),
{
    let mut r: Vec<u8> = Vec::new();
    let mut i: usize = from;
    while i < to
        invariant
            from <= i <= to <= b@.len(),
            r@ == b@.subrange(from as int, i as int),
        decreases to - i,
    {
        r.push(b[i]);
        i = i + 1;
        assert(r@ =~= b@.subrange(from as int, i as int));
    }
    r
}

} // verus!
