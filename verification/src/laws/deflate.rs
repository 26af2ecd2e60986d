//! What the bounded inflater gives back.

use vstd::prelude::*;
use crate::builder::{stored_block, stored_stream, MAX_STORED};
use crate::bytes::{le_bytes, lemma_le_bytes_len, lemma_le_round_trip, pow256};
use crate::inflate::{bit_at, bits_at, bits_value, block_at, blocks_from, byte_after, copied, decode_at, dynamic_at, fixed_distances, fixed_literals, huffman_from, inflated, lemma_block_progress, lemma_decode_progress, lemma_one_bit, lemma_reference_progress, pow2, reference_at, stored_at};
use crate::laws::layout::{lemma_occurs_index, lemma_occurs_split, occurs};

verus! {

// ---------------------------------------------------------------------------
// Stored streams
// ---------------------------------------------------------------------------

/// The three header bits of a stored block.
proof fn lemma_stored_header(b: Seq<u8>, p: int, last: bool)
    requires
        0 <= p < b.len(),
        b[p] == if last {
            1u8
        } else {
            0u8
        },
    ensures
        bits_at(b, 8 * p, 1) == Ok::<nat, Seq<char>>(
            if last {
                1
            } else {
                0
            },
        ),
        bits_at(b, 8 * p + 1, 2) == Ok::<nat, Seq<char>>(0),
{
    reveal_with_fuel(pow2, 4);
    reveal_with_fuel(bits_value, 3);
    lemma_one_bit(b, 8 * p);
    assert((8 * p) / 8 == p && (8 * p) % 8 == 0);
    assert(pow2(0) == 1);
    assert(bit_at(b, 8 * p) == (b[p] as nat / 1) % 2);
    assert((8 * p + 1) / 8 == p && (8 * p + 1) % 8 == 1);
    assert((8 * p + 2) / 8 == p && (8 * p + 2) % 8 == 2);
    assert(pow2(1) == 2 && pow2(2) == 4);
    assert(bit_at(b, 8 * p + 1) == (b[p] as nat / 2) % 2);
    assert(bit_at(b, 8 * p + 2) == (b[p] as nat / 4) % 2);
    assert(bits_value(b, 8 * p + 1, 1) == 0) by {
        lemma_one_bit(b, 8 * p + 1);
    }
    assert(bits_value(b, 8 * p + 1, 2) == bits_value(b, 8 * p + 1, 1) + pow2(1) * bit_at(
        b,
        8 * p + 1 + 2 - 1,
    ));
    assert(8 * p + 1 + 2 - 1 == 8 * p + 2);
}

/// The body of a stored block.
proof fn lemma_stored_body(b: Seq<u8>, p: int, last: bool, d: Seq<u8>, out: Seq<u8>, max: nat)
    requires
        d.len() <= MAX_STORED,
        occurs(b, p, stored_block(last, d)),
    ensures
        b[p] == (if last {
            1u8
        } else {
            0u8
        }),
        p < b.len(),
        stored_block(last, d).len() == 5 + d.len(),
        ({
            let room: nat = if out.len() < max {
                (max - out.len()) as nat
            } else {
                0
            };
            let want = if room < d.len() {
                room
            } else {
                d.len()
            };
            stored_at(b, 8 * p + 3, out, max) == Ok::<(Seq<u8>, int), Seq<char>>(
                (out + d.take(want as int), 8 * (p + 5 + d.len())),
            )
        }),
{
    let head = seq![
        if last {
            1u8
        } else {
            0u8
        },
    ];
    let n = d.len();
    let lb = le_bytes(n, 2);
    let cb = le_bytes((0xffff - n) as nat, 2);
    lemma_le_bytes_len(n, 2);
    lemma_le_bytes_len((0xffff - n) as nat, 2);
    assert(stored_block(last, d) =~= head + (lb + (cb + d)));
    lemma_occurs_split(b, p, head, lb + (cb + d));
    lemma_occurs_index(b, p, head, 0);
    lemma_occurs_split(b, p + 1, lb, cb + d);
    lemma_occurs_split(b, p + 3, cb, d);
    reveal_with_fuel(pow256, 3);
    lemma_le_round_trip(b, p + 1, n, 2);
    lemma_le_round_trip(b, p + 3, (0xffff - n) as nat, 2);
    assert(byte_after(8 * p + 3) == p + 1);
    let room: nat = if out.len() < max {
        (max - out.len()) as nat
    } else {
        0
    };
    let want = if room < d.len() {
        room
    } else {
        d.len()
    };
    assert(b.subrange(p + 5, p + 5 + want) =~= b.subrange(p + 5, p + 5 + d.len()).take(
        want as int,
    ));
}

/// What comes after a block whose header and body were read.
proof fn lemma_after_block(
    b: Seq<u8>,
    p: int,
    last: bool,
    next: Seq<u8>,
    q: int,
    out: Seq<u8>,
    max: nat,
)
    requires
        bits_at(b, p, 1) == Ok::<nat, Seq<char>>(
            if last {
                1
            } else {
                0
            },
        ),
        bits_at(b, p + 1, 2) == Ok::<nat, Seq<char>>(0),
        stored_at(b, p + 3, out, max) == Ok::<(Seq<u8>, int), Seq<char>>((next, q)),
    ensures
        next.len() >= max ==> blocks_from(b, p, out, max) == Ok::<(Seq<u8>, bool), Seq<char>>(
            (next.take(max as int), false),
        ),
        next.len() < max && last ==> blocks_from(b, p, out, max) == Ok::<
            (Seq<u8>, bool),
            Seq<char>,
        >((next, true)),
        next.len() < max && !last ==> blocks_from(b, p, out, max) == blocks_from(b, q, next, max),
{
    lemma_block_progress(b, p + 3, 0, out, max);
}

/// A stored stream continues the output with its content.
#[verifier::rlimit(50)]
proof fn lemma_stored_stream(b: Seq<u8>, p: int, d: Seq<u8>, out: Seq<u8>, max: nat)
    requires
        occurs(b, p, stored_stream(d)),
        out.len() < max || out.len() == 0,
    ensures
        blocks_from(b, 8 * p, out, max) == Ok::<(Seq<u8>, bool), Seq<char>>(
            if (out + d).len() >= max {
                ((out + d).take(max as int), false)
            } else {
                (out + d, true)
            },
        ),
    decreases d.len(),
{
    let last = d.len() <= MAX_STORED;
    let chunk = if last {
        d
    } else {
        d.take(MAX_STORED as int)
    };
    let rest = d.skip(MAX_STORED as int);
    if !last {
        lemma_occurs_split(b, p, stored_block(false, chunk), stored_stream(rest));
    }
    lemma_stored_body(b, p, last, chunk, out, max);
    lemma_stored_header(b, p, last);
    let room: nat = if out.len() < max {
        (max - out.len()) as nat
    } else {
        0
    };
    let want = if room < chunk.len() {
        room
    } else {
        chunk.len()
    };
    let next = out + chunk.take(want as int);
    let q = 8 * (p + 5 + chunk.len());
    lemma_after_block(b, 8 * p, last, next, q, out, max);
    if next.len() >= max {
        assert(next.take(max as int) =~= (out + d).take(max as int));
    } else {
        assert(chunk.take(want as int) =~= chunk);
        if last {
            assert(next =~= out + d);
        } else {
            lemma_stored_stream(b, p + 5 + chunk.len(), rest, next, max);
            assert(next + rest =~= out + d);
        }
    }
}

/// What was wrapped in stored blocks comes out unchanged: all of it when the
/// budget is larger, and otherwise exactly the budgeted prefix.
pub proof fn law_inflate_undoes_deflate(d: Seq<u8>, max: nat)
    ensures
        inflated(stored_stream(d), max) == Ok::<(Seq<u8>, bool), Seq<char>>(
            if d.len() >= max {
                (d.take(max as int), false)
            } else {
                (d, true)
            },
        ),
{
    let b = stored_stream(d);
    assert(b.subrange(0, b.len() as int) =~= b);
    lemma_stored_stream(b, 0, d, seq![], max);
    assert(seq![] + d =~= d);
}

/// One stored block that is not the last.
proof fn lemma_stored_step(b: Seq<u8>, p: int, d: Seq<u8>, out: Seq<u8>, max: nat)
    requires
        d.len() == MAX_STORED,
        occurs(b, p, stored_block(false, d)),
        out.len() < max || out.len() == 0,
    ensures
        blocks_from(b, 8 * p, out, max) == if out.len() + d.len() >= max {
            Ok::<(Seq<u8>, bool), Seq<char>>(((out + d).take(max as int), false))
        } else {
            blocks_from(b, 8 * (p + 5 + MAX_STORED), out + d, max)
        },
{
    lemma_stored_body(b, p, false, d, out, max);
    lemma_stored_header(b, p, false);
    let room: nat = if out.len() < max {
        (max - out.len()) as nat
    } else {
        0
    };
    let want = if room < d.len() {
        room
    } else {
        d.len()
    };
    let next = out + d.take(want as int);
    assert(block_at(b, 8 * p + 3, 0, out, max) == Ok::<(Seq<u8>, int), Seq<char>>(
        (next, 8 * (p + 5 + d.len())),
    ));
    if next.len() >= max {
        assert(next.take(max as int) =~= (out + d).take(max as int));
    } else {
        assert(d.take(want as int) =~= d);
    }
}

/// A stream of stored blocks is as long as its content and five bytes a block.
pub proof fn lemma_short_stream(d: Seq<u8>)
    ensures
        d.len() <= 2 * MAX_STORED ==> stored_stream(d).len() <= d.len() + 10,
        d.len() > 2 * MAX_STORED ==> stored_stream(d).len() >= 2 * (MAX_STORED + 5),
{
    lemma_stream_len(d);
    if d.len() > MAX_STORED {
        lemma_stream_len(d.skip(MAX_STORED as int));
    }
}

/// A stream is at least as long as its content.
pub proof fn lemma_stream_covers(d: Seq<u8>)
    ensures
        d.len() <= stored_stream(d).len(),
    decreases d.len(),
{
    lemma_stream_len(d);
    if d.len() > MAX_STORED {
        lemma_stream_covers(d.skip(MAX_STORED as int));
    }
}

proof fn lemma_stream_len(d: Seq<u8>)
    ensures
        stored_stream(d).len() == if d.len() <= MAX_STORED {
            d.len() + 5
        } else {
            MAX_STORED as nat + 5 + stored_stream(d.skip(MAX_STORED as int)).len()
        },
        stored_stream(d).len() >= 5,
{
    let k = if d.len() <= MAX_STORED {
        d.len()
    } else {
        MAX_STORED as nat
    };
    lemma_le_bytes_len(k, 2);
    lemma_le_bytes_len((0xffff - k) as nat, 2);
}

/// A bounded output needs only the beginning of the stream: two blocks of it
/// give any budget of up to two blocks.
pub proof fn lemma_cut_stream(b: Seq<u8>, d: Seq<u8>, max: nat)
    requires
        d.len() > 2 * MAX_STORED,
        max <= 2 * MAX_STORED,
        2 * (MAX_STORED + 5) <= b.len() <= stored_stream(d).len(),
        b == stored_stream(d).take(b.len() as int),
    ensures
        inflated(b, max) == Ok::<(Seq<u8>, bool), Seq<char>>((d.take(max as int), false)),
{
    let n = MAX_STORED as int;
    let d1 = d.take(n);
    let d2 = d.skip(n).take(n);
    lemma_two_blocks(b, d);
    lemma_two_steps(b, d1, d2, max);
    assert((d1 + d2).take(max as int) =~= d.take(max as int));
}

/// What two full blocks give.
proof fn lemma_two_steps(b: Seq<u8>, d1: Seq<u8>, d2: Seq<u8>, max: nat)
    requires
        d1.len() == MAX_STORED,
        d2.len() == MAX_STORED,
        max <= 2 * MAX_STORED,
        occurs(b, 0, stored_block(false, d1)),
        occurs(b, MAX_STORED + 5, stored_block(false, d2)),
    ensures
        blocks_from(b, 0, seq![], max) == Ok::<(Seq<u8>, bool), Seq<char>>(
            ((d1 + d2).take(max as int), false),
        ),
{
    lemma_stored_step(b, 0, d1, seq![], max);
    assert(seq![] + d1 =~= d1);
    if max <= MAX_STORED {
        assert(d1.take(max as int) =~= (d1 + d2).take(max as int));
    } else {
        lemma_stored_step(b, MAX_STORED + 5, d2, d1, max);
    }
}

/// The first two blocks of a long stream.
proof fn lemma_two_blocks(b: Seq<u8>, d: Seq<u8>)
    requires
        d.len() > 2 * MAX_STORED,
        2 * (MAX_STORED + 5) <= b.len() <= stored_stream(d).len(),
        b == stored_stream(d).take(b.len() as int),
    ensures
        ({
            let n = MAX_STORED as int;
            &&& occurs(b, 0, stored_block(false, d.take(n)))
            &&& occurs(b, n + 5, stored_block(false, d.skip(n).take(n)))
        }),
{
    let n = MAX_STORED as int;
    let rest = d.skip(n);
    let b1 = stored_block(false, d.take(n));
    let b2 = stored_block(false, rest.take(n));
    let z = stored_stream(rest.skip(n));
    lemma_le_bytes_len(MAX_STORED as nat, 2);
    lemma_le_bytes_len((0xffff - MAX_STORED) as nat, 2);
    assert(b1.len() == n + 5 && b2.len() == n + 5);
    assert(stored_stream(rest) == b2 + z);
    let all = stored_stream(d);
    assert(all == b1 + (b2 + z));
    assert(all.take(n + 5) =~= b1);
    assert(all.subrange(n + 5, 2 * (n + 5)) =~= b2);
    assert(b.subrange(0, n + 5) =~= all.take(n + 5));
    assert(b.subrange(n + 5, 2 * (n + 5)) =~= all.subrange(n + 5, 2 * (n + 5)));
}

// ---------------------------------------------------------------------------
// Budgets
// ---------------------------------------------------------------------------

/// Two outputs agree up to `max`: they are the same, or both reach it and
/// start alike.
spec fn agree(small: Seq<u8>, big: Seq<u8>, max: nat) -> bool {
    if big.len() < max {
        small == big
    } else {
        small.len() >= max && small.take(max as int) == big.take(max as int)
    }
}

spec fn extends(big: Seq<u8>, small: Seq<u8>) -> bool {
    small.len() <= big.len() && big.take(small.len() as int) == small
}

proof fn lemma_copied_extends(out: Seq<u8>, d: nat, n: nat, max: nat)
    ensures
        extends(copied(out, d, n, max), out),
    decreases n,
{
    if n > 0 {
        let next = out.push(out[out.len() - d]);
        lemma_copied_extends(next, d, (n - 1) as nat, max);
        let all = copied(next, d, (n - 1) as nat, max);
        assert(next.take(out.len() as int) =~= out);
        assert(all.take(out.len() as int) =~= all.take(next.len() as int).take(out.len() as int));
    } else {
        assert(out.take(out.len() as int) =~= out);
    }
}

/// A copy under a smaller budget is the start of the copy under a larger one.
proof fn lemma_copied_budget(out: Seq<u8>, d: nat, n: nat, m1: nat, m2: nat)
    requires
        m1 <= m2,
    ensures
        agree(copied(out, d, n, m1), copied(out, d, n, m2), m1),
    decreases n,
{
    if n > 0 {
        let next = out.push(out[out.len() - d]);
        if next.len() >= m1 {
            let big = copied(out, d, n, m2);
            if next.len() < m2 {
                lemma_copied_extends(next, d, (n - 1) as nat, m2);
            } else {
                assert(next.take(next.len() as int) =~= next);
            }
            assert(big.take(m1 as int) =~= big.take(next.len() as int).take(m1 as int));
        } else {
            lemma_copied_budget(next, d, (n - 1) as nat, m1, m2);
        }
    }
}

proof fn lemma_huffman_extends(
    lit: Seq<u8>,
    dist: Seq<u8>,
    b: Seq<u8>,
    p: int,
    out: Seq<u8>,
    max: nat,
)
    ensures
        huffman_from(lit, dist, b, p, out, max) matches Ok((next, _)) ==> extends(next, out),
    decreases 8 * b.len() - p,
{
    assert(out.take(out.len() as int) =~= out);
    lemma_decode_progress(lit, b, p, 1, 0);
    if let Ok((sym, q)) = decode_at(lit, b, p) {
        if sym <= 255 {
            let next = out.push(sym as u8);
            assert(next.take(out.len() as int) =~= out);
            lemma_huffman_extends(lit, dist, b, q, next, max);
            if let Ok((all, _)) = huffman_from(lit, dist, b, q, next, max) {
                assert(all.take(out.len() as int) =~= all.take(next.len() as int).take(
                    out.len() as int,
                ));
            }
        } else if 257 <= sym <= 285 {
            lemma_reference_progress(dist, b, q, sym);
            if let Ok((len, d, r)) = reference_at(dist, b, q, sym) {
                let next = copied(out, d, len, max);
                lemma_copied_extends(out, d, len, max);
                lemma_huffman_extends(lit, dist, b, r, next, max);
                if let Ok((all, _)) = huffman_from(lit, dist, b, r, next, max) {
                    assert(all.take(out.len() as int) =~= all.take(next.len() as int).take(
                        out.len() as int,
                    ));
                }
            }
        }
    }
}

/// A block under a smaller budget gives the start of what it gives under a
/// larger one; and the same, ending at the same place, when that fits.
proof fn lemma_huffman_budget(
    lit: Seq<u8>,
    dist: Seq<u8>,
    b: Seq<u8>,
    p: int,
    out: Seq<u8>,
    m1: nat,
    m2: nat,
)
    requires
        m1 <= m2,
    ensures
        huffman_from(lit, dist, b, p, out, m2) matches Ok((n2, q2)) ==> (huffman_from(
            lit,
            dist,
            b,
            p,
            out,
            m1,
        ) matches Ok((n1, q1)) && agree(n1, n2, m1) && (n2.len() < m1 ==> q1 == q2)),
    decreases 8 * b.len() - p,
{
    if huffman_from(lit, dist, b, p, out, m2) is Ok {
        let (n2, q2) = huffman_from(lit, dist, b, p, out, m2)->Ok_0;
        lemma_decode_progress(lit, b, p, 1, 0);
        let (sym, q) = decode_at(lit, b, p)->Ok_0;
        if sym <= 255 {
            let next = out.push(sym as u8);
            if next.len() >= m1 {
                lemma_huffman_extends(lit, dist, b, q, next, m2);
                assert(next.take(next.len() as int) =~= next);
                assert(n2.take(m1 as int) =~= n2.take(next.len() as int).take(m1 as int));
            } else {
                lemma_huffman_budget(lit, dist, b, q, next, m1, m2);
            }
        } else if sym == 256 {
        } else {
            lemma_reference_progress(dist, b, q, sym);
            let (len, d, r) = reference_at(dist, b, q, sym)->Ok_0;
            let next1 = copied(out, d, len, m1);
            let next2 = copied(out, d, len, m2);
            lemma_copied_budget(out, d, len, m1, m2);
            if next2.len() >= m1 {
                lemma_huffman_extends(lit, dist, b, r, next2, m2);
                assert(next2.take(next2.len() as int) =~= next2);
                assert(n2.take(m1 as int) =~= n2.take(next2.len() as int).take(m1 as int));
            } else {
                lemma_huffman_budget(lit, dist, b, r, next2, m1, m2);
            }
        }
    }
}

proof fn lemma_stored_budget(b: Seq<u8>, p: int, out: Seq<u8>, m1: nat, m2: nat)
    requires
        0 <= p,
        m1 <= m2,
        out.len() < m1 || out.len() == 0,
    ensures
        stored_at(b, p, out, m2) matches Ok((n2, q2)) ==> (stored_at(b, p, out, m1) matches Ok(
            (n1, q1),
        ) && agree(n1, n2, m1) && (n2.len() < m1 ==> q1 == q2)),
        stored_at(b, p, out, m2) matches Ok((n2, q2)) ==> extends(n2, out),
{
    if stored_at(b, p, out, m2) is Ok {
        let s = byte_after(p);
        assert(s >= 0);
        let (n1, q1) = stored_at(b, p, out, m1)->Ok_0;
        let (n2, q2) = stored_at(b, p, out, m2)->Ok_0;
        let w1 = n1.len() - out.len();
        let w2 = n2.len() - out.len();
        assert(n1 == out + b.subrange(s + 4, s + 4 + w1));
        assert(n2 == out + b.subrange(s + 4, s + 4 + w2));
        assert(n2.take(out.len() as int) =~= out);
        if n2.len() >= m1 {
            assert(n1.take(m1 as int) =~= n2.take(m1 as int));
        } else {
            assert(n1 =~= n2);
        }
    }
}

proof fn lemma_block_budget(
    b: Seq<u8>,
    p: int,
    kind: nat,
    out: Seq<u8>,
    m1: nat,
    m2: nat,
)
    requires
        0 <= p,
        m1 <= m2,
        out.len() < m1 || out.len() == 0,
    ensures
        block_at(b, p, kind, out, m2) matches Ok((n2, q2)) ==> (block_at(
            b,
            p,
            kind,
            out,
            m1,
        ) matches Ok((n1, q1)) && agree(n1, n2, m1) && (n2.len() < m1 ==> q1 == q2)),
        block_at(b, p, kind, out, m2) matches Ok((n2, q2)) ==> extends(n2, out),
{
    if kind == 0 {
        lemma_stored_budget(b, p, out, m1, m2);
    } else if kind == 1 {
        lemma_huffman_budget(fixed_literals(), fixed_distances(), b, p, out, m1, m2);
        lemma_huffman_extends(fixed_literals(), fixed_distances(), b, p, out, m2);
    } else if kind == 2 {
        if let Ok((lit, dist, q)) = dynamic_at(b, p) {
            lemma_huffman_budget(lit, dist, b, q, out, m1, m2);
            lemma_huffman_extends(lit, dist, b, q, out, m2);
        }
    }
}

proof fn lemma_blocks_extend(b: Seq<u8>, p: int, out: Seq<u8>, max: nat)
    requires
        0 <= p,
        out.len() < max,
    ensures
        blocks_from(b, p, out, max) matches Ok((d, _)) ==> extends(d, out),
    decreases 8 * b.len() - p,
{
    if blocks_from(b, p, out, max) is Ok {
        let kind = bits_at(b, p + 1, 2)->Ok_0;
        lemma_block_budget(b, p + 3, kind, out, max, max);
        lemma_block_progress(b, p + 3, kind, out, max);
        let (next, q) = block_at(b, p + 3, kind, out, max)->Ok_0;
        let (d, _) = blocks_from(b, p, out, max)->Ok_0;
        if next.len() >= max {
            assert(d.take(out.len() as int) =~= next.take(out.len() as int));
        } else if bits_at(b, p, 1)->Ok_0 != 1 {
            lemma_blocks_extend(b, q, next, max);
            assert(d.take(out.len() as int) =~= d.take(next.len() as int).take(out.len() as int));
        }
    }
}

proof fn lemma_blocks_budget(b: Seq<u8>, p: int, out: Seq<u8>, m1: nat, m2: nat)
    requires
        0 <= p,
        m1 <= m2,
        out.len() < m1 || out.len() == 0,
    ensures
        blocks_from(b, p, out, m2) matches Ok((d, _)) ==> blocks_from(b, p, out, m1) == Ok::<
            (Seq<u8>, bool),
            Seq<char>,
        >(
            if d.len() >= m1 {
                (d.take(m1 as int), false)
            } else {
                (d, true)
            },
        ),
    decreases 8 * b.len() - p,
{
    if blocks_from(b, p, out, m2) is Ok {
        let (d, _) = blocks_from(b, p, out, m2)->Ok_0;
        let kind = bits_at(b, p + 1, 2)->Ok_0;
        lemma_block_budget(b, p + 3, kind, out, m1, m2);
        lemma_block_progress(b, p + 3, kind, out, m2);
        let (n2, q2) = block_at(b, p + 3, kind, out, m2)->Ok_0;
        let (n1, q1) = block_at(b, p + 3, kind, out, m1)->Ok_0;
        if n2.len() >= m2 {
            assert(d =~= n2.take(m2 as int));
            assert(d.take(m1 as int) =~= n2.take(m1 as int));
        } else if bits_at(b, p, 1)->Ok_0 == 1 {
        } else {
            lemma_blocks_extend(b, q2, n2, m2);
            if n2.len() >= m1 {
                assert(d.take(m1 as int) =~= d.take(n2.len() as int).take(m1 as int));
            } else {
                lemma_blocks_budget(b, q2, n2, m1, m2);
            }
        }
    }
}

/// The decoder is a prefix decoder: under a smaller budget it gives exactly
/// the first bytes of what it gives under a larger one, and says whether that
/// is everything.
pub proof fn law_smaller_budget_gives_prefix(b: Seq<u8>, small: nat, large: nat)
    requires
        small <= large,
    ensures
        inflated(b, large) matches Ok((d, _)) ==> inflated(b, small) == Ok::<
            (Seq<u8>, bool),
            Seq<char>,
        >(
            if d.len() >= small {
                (d.take(small as int), false)
            } else {
                (d, true)
            },
        ),
{
    lemma_blocks_budget(b, 0, seq![], small, large);
}

/// No more than the budget comes out, and an incomplete output fills it.
pub proof fn law_budget_is_kept(b: Seq<u8>, max: nat)
    ensures
        inflated(b, max) matches Ok((d, complete)) ==> d.len() <= max && (!complete ==> d.len()
            == max),
{
    lemma_blocks_budget(b, 0, seq![], max, max);
}

} // verus!
