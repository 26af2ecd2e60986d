//! The sections of a GGUF file: its head, its metadata, its tensor table and
//! where its data start.

use vstd::prelude::*;
use vstd::utf8::*;
use crate::bytes::{le_bytes, lemma_le_bytes_len, lemma_le_round_trip, pow256};
use crate::gguf::{aligned, alignment_of, alignment_problems, entry_at, head_of, is_power_of_two, metadata_from, parse_model, tensors_from, value_at};
use crate::inflate::pow2;
use crate::json::{member, written, Doc};
use crate::laws::ggml::{counted_text, law_strings_are_counted};
use crate::laws::layout::{lemma_occurs_split, occurs};
use crate::report::TensorModel;
use crate::text::dec;

verus! {

// ---------------------------------------------------------------------------
// The head
// ---------------------------------------------------------------------------

/// The first 24 bytes: `GGUF`, the version, how many tensors and how many
/// metadata entries there are.
pub open spec fn head_bytes(version: u32, tensors: u64, keys: u64) -> Seq<u8> {
    seq![0x47u8, 0x47, 0x55, 0x46] + (le_bytes(version as nat, 4) + (le_bytes(tensors as nat, 8)
        + le_bytes(keys as nat, 8)))
}

/// The head is read, of the two versions that are supported, if the file is
/// large enough for what it declares: 24 bytes a tensor and 13 an entry.
pub proof fn law_head_is_read(b: Seq<u8>, flen: nat, version: u32, tensors: u64, keys: u64)
    requires
        occurs(b, 0, head_bytes(version, tensors, keys)),
        flen >= 24,
    ensures
        head_bytes(version, tensors, keys).len() == 24,
        (version == 2 || version == 3) && 24 + 24 * tensors + 13 * keys <= flen ==> head_of(b, flen)
            == Ok::<(nat, nat, nat), Seq<char>>((version as nat, tensors as nat, keys as nat)),
        (version == 2 || version == 3) && 24 + 24 * tensors + 13 * keys > flen ==> head_of(b, flen)
            == Err::<(nat, nat, nat), Seq<char>>(
            "header declares "@ + dec(keys as nat) + " metadata keys and "@ + dec(tensors as nat)
                + " tensors, which cannot fit in a "@ + dec(flen) + "-byte file"@,
        ),
        version == 1 ==> head_of(b, flen) == Err::<(nat, nat, nat), Seq<char>>(
            "GGUF v1 is obsolete and unsupported"@,
        ),
        version == 0 || 4 <= version <= 0xff_ffff ==> head_of(b, flen) == Err::<
            (nat, nat, nat),
            Seq<char>,
        >("unsupported GGUF version "@ + dec(version as nat)),
        version == 0x100_0000 || version == 0x200_0000 || version == 0x300_0000 ==> head_of(b, flen)
            == Err::<(nat, nat, nat), Seq<char>>(
            "this looks like a big-endian GGUF file, which tensorpeek does not support"@,
        ),
{
    let m = seq![0x47u8, 0x47, 0x55, 0x46];
    let x1 = le_bytes(version as nat, 4);
    let x2 = le_bytes(tensors as nat, 8);
    let x3 = le_bytes(keys as nat, 8);
    lemma_le_bytes_len(version as nat, 4);
    lemma_le_bytes_len(tensors as nat, 8);
    lemma_le_bytes_len(keys as nat, 8);
    lemma_occurs_split(b, 0, m, x1 + (x2 + x3));
    lemma_occurs_split(b, 4, x1, x2 + x3);
    lemma_occurs_split(b, 8, x2, x3);
    assert(b.take(4) =~= b.subrange(0, 4));
    assert(pow256(4) == 0x1_0000_0000 && pow256(8) == 0x1_0000_0000_0000_0000) by {
        reveal_with_fuel(pow256, 9);
    }
    lemma_le_round_trip(b, 4, version as nat, 4);
    lemma_le_round_trip(b, 8, tensors as nat, 8);
    lemma_le_round_trip(b, 16, keys as nat, 8);
}

/// What does not start with `GGUF` is refused.
pub proof fn law_bad_magic(b: Seq<u8>, flen: nat)
    requires
        b.len() >= 4,
        flen >= 4,
        !(b[0] == 0x47 && b[1] == 0x47 && b[2] == 0x55 && b[3] == 0x46),
    ensures
        head_of(b, flen) == Err::<(nat, nat, nat), Seq<char>>("not a GGUF file (bad magic)"@),
{
    let m = seq![0x47u8, 0x47, 0x55, 0x46];
    if b.take(4) == m {
        assert(b.take(4)[0] == m[0] && b.take(4)[1] == m[1] && b.take(4)[2] == m[2] && b.take(4)[3]
            == m[3]);
    }
}

// ---------------------------------------------------------------------------
// Entries one behind the other
// ---------------------------------------------------------------------------

/// A key and its value are added at the end; a key that is there already is
/// noted, and added all the same.
pub proof fn law_entries_follow(
    b: Seq<u8>,
    flen: nat,
    pos: int,
    limit: nat,
    meta: Seq<(Seq<char>, Doc)>,
    key: Seq<char>,
    ty: u32,
    v: Doc,
    end: int,
)
    requires
        occurs(b, pos, counted_text(key) + le_bytes(ty as nat, 4)),
        encode_utf8(key).len() <= u64::MAX,
        pos + 12 + encode_utf8(key).len() <= flen,
        forall|ps: Seq<Seq<char>>|
            #[trigger] value_at(b, flen, pos + 12 + encode_utf8(key).len(), ty, 0, limit, ps)
                == Ok::<(Doc, int, Seq<Seq<char>>), Seq<char>>((v, end, ps)),
    ensures
        (forall|i: int| 0 <= i < meta.len() ==> (#[trigger] meta[i]).0 != key) ==> entry_at(
            b,
            flen,
            pos,
            limit,
            meta,
            seq![],
        ) == Ok::<(int, Seq<(Seq<char>, Doc)>, Seq<Seq<char>>), Seq<char>>(
            (end, meta.push((key, v)), seq![]),
        ),
        (exists|i: int| 0 <= i < meta.len() && (#[trigger] meta[i]).0 == key) ==> entry_at(
            b,
            flen,
            pos,
            limit,
            meta,
            seq![],
        ) == Ok::<(int, Seq<(Seq<char>, Doc)>, Seq<Seq<char>>), Seq<char>>(
            (end, meta.push((key, v)), seq!["duplicate metadata key '"@ + key + "'"@]),
        ),
{
    let x = le_bytes(ty as nat, 4);
    lemma_le_bytes_len(ty as nat, 4);
    lemma_occurs_split(b, pos, counted_text(key), x);
    law_strings_are_counted(b, flen, pos, key);
    assert(pow256(4) == 0x1_0000_0000) by {
        reveal_with_fuel(pow256, 5);
    }
    let p = pos + 8 + encode_utf8(key).len();
    lemma_le_round_trip(b, p, ty as nat, 4);
    assert(p + 4 == pos + 12 + encode_utf8(key).len());
    let none: Seq<Seq<char>> = seq![];
    let one = seq!["duplicate metadata key '"@ + key + "'"@];
    assert(none.push("duplicate metadata key '"@ + key + "'"@) =~= one);
    assert(value_at(b, flen, p + 4, ty, 0, limit, none) == Ok::<
        (Doc, int, Seq<Seq<char>>),
        Seq<char>,
    >((v, end, none)));
    assert(value_at(b, flen, p + 4, ty, 0, limit, one) == Ok::<
        (Doc, int, Seq<Seq<char>>),
        Seq<char>,
    >((v, end, one)));
}

/// Reading entries is reading some of them, and then the others where those
/// ended.
pub proof fn law_metadata_in_two_parts(
    b: Seq<u8>,
    flen: nat,
    pos: int,
    j: nat,
    k: nat,
    limit: nat,
    meta: Seq<(Seq<char>, Doc)>,
    probs: Seq<Seq<char>>,
)
    ensures
        metadata_from(b, flen, pos, j + k, limit, meta, probs) == match metadata_from(
            b,
            flen,
            pos,
            j,
            limit,
            meta,
            probs,
        ) {
            Err(e) => Err(e),
            Ok((end, m, ps)) => metadata_from(b, flen, end, k, limit, m, ps),
        },
        metadata_from(b, flen, pos, 1, limit, meta, probs) == entry_at(
            b,
            flen,
            pos,
            limit,
            meta,
            probs,
        ),
    decreases j,
{
    reveal_with_fuel(metadata_from, 2);
    if j > 0 {
        if let Ok((end, m, ps)) = entry_at(b, flen, pos, limit, meta, probs) {
            law_metadata_in_two_parts(b, flen, end, (j - 1) as nat, k, limit, m, ps);
        }
    }
}

/// The same of the tensor table.
pub proof fn law_table_in_two_parts(
    b: Seq<u8>,
    flen: nat,
    pos: int,
    i: nat,
    j: nat,
    n: nat,
    ts: Seq<TensorModel>,
    probs: Seq<Seq<char>>,
)
    requires
        i <= j <= n,
    ensures
        tensors_from(b, flen, pos, i, n, ts, probs) == match tensors_from(
            b,
            flen,
            pos,
            i,
            j,
            ts,
            probs,
        ) {
            Err(e) => Err(e),
            Ok((end, us, ps)) => tensors_from(b, flen, end, j, n, us, ps),
        },
    decreases j - i,
{
    if i < j {
        if let Ok((end, us, ps)) = crate::gguf::tensor_at(b, flen, pos, i, ts, probs) {
            law_table_in_two_parts(b, flen, end, i + 1, j, n, us, ps);
        }
    }
}

/// A file is its head, its metadata from byte 24 on, and its tensor table right
/// behind them.
pub proof fn law_sections_follow(
    b: Seq<u8>,
    flen: nat,
    path: Seq<char>,
    limit: nat,
    version: nat,
    tensors: nat,
    keys: nat,
    table: int,
    meta: Seq<(Seq<char>, Doc)>,
    probs: Seq<Seq<char>>,
    end: nat,
    ts: Seq<TensorModel>,
    more: Seq<Seq<char>>,
)
    requires
        head_of(b, flen) == Ok::<(nat, nat, nat), Seq<char>>((version, tensors, keys)),
        metadata_from(b, flen, 24, keys, limit, seq![], seq![]) == Ok::<
            (int, Seq<(Seq<char>, Doc)>, Seq<Seq<char>>),
            Seq<char>,
        >((table, meta, probs)),
        tensors_from(b, flen, table, 0, tensors, seq![], alignment_problems(meta, probs)) == Ok::<
            (int, Seq<TensorModel>, Seq<Seq<char>>),
            Seq<char>,
        >((end as int, ts, more)),
    ensures
        parse_model(b, flen, path, limit) matches Ok(r) && {
            &&& r.tensors == ts
            &&& r.metadata == Doc::Obj(meta)
            &&& r.file == path
            &&& r.file_bytes == flen
            &&& aligned(end, alignment_of(meta)) <= flen ==> r.header_bytes == aligned(
                end,
                alignment_of(meta),
            )
        },
{
}

// ---------------------------------------------------------------------------
// Alignment
// ---------------------------------------------------------------------------

/// The data start at the first multiple of the alignment that is not before
/// the end of the header.
pub proof fn law_data_are_aligned(x: nat, a: nat)
    requires
        a > 0,
        x + a <= u64::MAX,
    ensures
        aligned(x, a) % a == 0,
        x <= aligned(x, a) < x + a,
{
    let n = (x + a - 1) as nat;
    let q = n / a;
    vstd::arithmetic::div_mod::lemma_fundamental_div_mod(n as int, a as int);
    vstd::arithmetic::div_mod::lemma_mod_bound(n as int, a as int);
    assert(a * q == q * a) by (nonlinear_arith);
    vstd::arithmetic::div_mod::lemma_mod_multiples_basic(q as int, a as int);
}

proof fn lemma_powers_of_two(k: nat)
    ensures
        is_power_of_two(pow2(k)),
        pow2(k) >= 1,
    decreases k,
{
    if k > 0 {
        lemma_powers_of_two((k - 1) as nat);
        assert(pow2(k) == 2 * pow2((k - 1) as nat));
    }
}

proof fn lemma_is_power(n: nat) -> (k: nat)
    requires
        is_power_of_two(n),
    ensures
        n == pow2(k),
    decreases n,
{
    if n == 1 {
        assert(pow2(0) == 1);
        0
    } else {
        let k = lemma_is_power(n / 2);
        assert(pow2(k + 1) == 2 * pow2(k));
        k + 1
    }
}

/// The alignment is what the metadata say, if that is a power of two in 64
/// bits; where they say nothing it is 32, and where they say anything else it
/// is 32 too, and that is noted.
pub proof fn law_alignment_is_chosen(
    meta: Seq<(Seq<char>, Doc)>,
    probs: Seq<Seq<char>>,
    v: Doc,
    k: nat,
)
    ensures
        ({
            let said = member(Doc::Obj(meta), "general.alignment"@);
            &&& said is None ==> alignment_of(meta) == 32 && alignment_problems(meta, probs)
                == probs
            &&& said == Some(v) && v == Doc::Int(pow2(k) as int) && pow2(k) <= u64::MAX
                ==> alignment_of(meta) == pow2(k) && alignment_problems(meta, probs) == probs
            &&& said == Some(v) && (forall|j: nat| v != Doc::Int(#[trigger] pow2(j) as int))
                ==> alignment_of(meta) == 32 && alignment_problems(meta, probs) == probs.push(
                "general.alignment is "@ + written(v, None)
                    + " — not a positive power of two; using the default 32"@,
            )
        }),
{
    lemma_powers_of_two(k);
    if forall|j: nat| v != Doc::Int(#[trigger] pow2(j) as int) {
        if let Doc::Int(n) = v {
            if 0 < n && is_power_of_two(n as nat) {
                let j = lemma_is_power(n as nat);
                assert(v == Doc::Int(pow2(j) as int));
            }
        }
    }
}

} // verus!
