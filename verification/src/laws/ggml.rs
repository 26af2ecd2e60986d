//! What the tables of the GGUF format say: how many bytes a tensor of each
//! type takes, and how many a metadata value of each type.

use vstd::prelude::*;
use vstd::utf8::*;
use crate::bytes::{le, le_bytes, lemma_le_bytes_len, lemma_le_round_trip, pow256};
use crate::float::widened;
use crate::gguf::{described_tensor, dims_from, elements_from, ggml_type, min_value_size, number_at, string_at, tensor_at, type_problems, value_at, value_name, MAX_ARRAY_DEPTH};
use crate::json::Doc;
use crate::laws::layout::{lemma_occurs_split, occurs};
use crate::report::{product, TensorModel};
use crate::text::dec;

verus! {

// ---------------------------------------------------------------------------
// Sizes of tensors
// ---------------------------------------------------------------------------

/// A shape with no dimensions has one element; dimensions multiply.
pub proof fn law_elements_multiply(a: Seq<u64>, b: Seq<u64>, n: u64)
    ensures
        product(Seq::empty()) == 1,
        product(seq![n]) == n,
        product(a + b) == product(a) * product(b),
    decreases b.len(),
{
    assert(seq![n].drop_last() =~= Seq::empty());
    assert(product(Seq::<u64>::empty()) == 1);
    assert(1 * n == n);
    if b.len() == 0 {
        assert(a + b =~= a);
        assert(product(a) * 1 == product(a));
    } else {
        law_elements_multiply(a, b.drop_last(), n);
        assert((a + b).drop_last() =~= a + b.drop_last());
        let x = product(a);
        let y = product(b.drop_last());
        let z = b.last() as nat;
        assert((x * y) * z == x * (y * z)) by (nonlinear_arith);
    }
}

/// Whether `n` is the number of blocks of `len` that hold the elements.
pub open spec fn held_in(elements: nat, len: nat, n: nat) -> bool {
    elements <= len * n < elements + len
}

/// A tensor is of the type `dtype`, and each `len` of its elements, begun or
/// full, take `bytes` bytes; rows that do not fill their blocks are noted.
pub open spec fn stored_as(
    name: Seq<char>,
    shape: Seq<u64>,
    id: u32,
    offset: nat,
    n: nat,
    dtype: Seq<char>,
    len: nat,
    bytes: nat,
) -> bool {
    let t = described_tensor(name, shape, id, offset);
    &&& t.name == name
    &&& t.shape == shape
    &&& t.offset == offset
    &&& t.dtype == dtype
    &&& held_in(product(shape), len, n) && n * bytes <= u64::MAX ==> t.bytes == n * bytes
        && t.numel == product(shape)
    &&& held_in(product(shape), len, n) && n * bytes > u64::MAX && n * len <= u128::MAX ==> t.bytes
        == u64::MAX
    &&& shape.len() > 0 && shape[0] as nat % len == 0 ==> type_problems(name, shape, id, seq![])
        == Seq::<Seq<char>>::empty()
    &&& shape.len() > 0 && shape[0] as nat % len != 0 ==> type_problems(name, shape, id, seq![])
        == seq![
        "tensor '"@ + name + "': first dimension "@ + dec(shape[0] as nat)
            + " is not divisible by the "@ + dtype + " block length "@ + dec(len),
    ]
}

proof fn lemma_stored_as(
    name: Seq<char>,
    shape: Seq<u64>,
    id: u32,
    offset: nat,
    n: nat,
    dtype: Seq<char>,
    len: nat,
    bytes: nat,
)
    requires
        ggml_type(id) == Some((dtype, len, bytes)),
        1 <= len <= 256,
        1 <= bytes,
    ensures
        stored_as(name, shape, id, offset, n, dtype, len, bytes),
{
    let e = product(shape);
    if held_in(e, len, n) {
        assert((e + len - 1) as nat / len == n) by {
            vstd::arithmetic::div_mod::lemma_fundamental_div_mod_converse(
                (e + len - 1) as int,
                len as int,
                n as int,
                e + len - 1 - len * n,
            );
        }
        assert(len * n == n * len) by (nonlinear_arith);
        if n * bytes <= u64::MAX {
            assert(n <= n * bytes) by (nonlinear_arith)
                requires
                    1 <= bytes,
            ;
            assert(len * n <= 256 * n) by (nonlinear_arith)
                requires
                    len <= 256,
            ;
        }
    }
    if shape.len() > 0 {
        if len == 1 {
            assert(shape[0] as nat % 1 == 0);
        }
        assert(Seq::<Seq<char>>::empty() =~= seq![]);
        if shape[0] as nat % len != 0 {
            let s = "tensor '"@ + name + "': first dimension "@ + dec(shape[0] as nat)
                + " is not divisible by the "@ + dtype + " block length "@ + dec(len);
            assert(Seq::<Seq<char>>::empty().push(s) =~= seq![s]);
        }
    }
}

/// What each ggml type is called and how its elements are packed: a `q4_k`
/// tensor takes 144 bytes for each 256 elements, and so on for every type.
/// Other ids have no known size.
#[verifier::rlimit(60)]
pub proof fn law_tensor_sizes(name: Seq<char>, shape: Seq<u64>, id: u32, offset: nat, n: nat)
    ensures
        id == 0 ==> stored_as(name, shape, 0, offset, n, "f32"@, 1, 4),
        id == 1 ==> stored_as(name, shape, 1, offset, n, "f16"@, 1, 2),
        id == 2 ==> stored_as(name, shape, 2, offset, n, "q4_0"@, 32, 18),
        id == 3 ==> stored_as(name, shape, 3, offset, n, "q4_1"@, 32, 20),
        id == 6 ==> stored_as(name, shape, 6, offset, n, "q5_0"@, 32, 22),
        id == 7 ==> stored_as(name, shape, 7, offset, n, "q5_1"@, 32, 24),
        id == 8 ==> stored_as(name, shape, 8, offset, n, "q8_0"@, 32, 34),
        id == 9 ==> stored_as(name, shape, 9, offset, n, "q8_1"@, 32, 36),
        id == 10 ==> stored_as(name, shape, 10, offset, n, "q2_k"@, 256, 84),
        id == 11 ==> stored_as(name, shape, 11, offset, n, "q3_k"@, 256, 110),
        id == 12 ==> stored_as(name, shape, 12, offset, n, "q4_k"@, 256, 144),
        id == 13 ==> stored_as(name, shape, 13, offset, n, "q5_k"@, 256, 176),
        id == 14 ==> stored_as(name, shape, 14, offset, n, "q6_k"@, 256, 210),
        id == 15 ==> stored_as(name, shape, 15, offset, n, "q8_k"@, 256, 292),
        id == 16 ==> stored_as(name, shape, 16, offset, n, "iq2_xxs"@, 256, 66),
        id == 17 ==> stored_as(name, shape, 17, offset, n, "iq2_xs"@, 256, 74),
        id == 18 ==> stored_as(name, shape, 18, offset, n, "iq3_xxs"@, 256, 98),
        id == 19 ==> stored_as(name, shape, 19, offset, n, "iq1_s"@, 256, 50),
        id == 20 ==> stored_as(name, shape, 20, offset, n, "iq4_nl"@, 32, 18),
        id == 21 ==> stored_as(name, shape, 21, offset, n, "iq3_s"@, 256, 110),
        id == 22 ==> stored_as(name, shape, 22, offset, n, "iq2_s"@, 256, 82),
        id == 23 ==> stored_as(name, shape, 23, offset, n, "iq4_xs"@, 256, 136),
        id == 24 ==> stored_as(name, shape, 24, offset, n, "i8"@, 1, 1),
        id == 25 ==> stored_as(name, shape, 25, offset, n, "i16"@, 1, 2),
        id == 26 ==> stored_as(name, shape, 26, offset, n, "i32"@, 1, 4),
        id == 27 ==> stored_as(name, shape, 27, offset, n, "i64"@, 1, 8),
        id == 28 ==> stored_as(name, shape, 28, offset, n, "f64"@, 1, 8),
        id == 29 ==> stored_as(name, shape, 29, offset, n, "iq1_m"@, 256, 56),
        id == 30 ==> stored_as(name, shape, 30, offset, n, "bf16"@, 1, 2),
        id == 34 ==> stored_as(name, shape, 34, offset, n, "tq1_0"@, 256, 54),
        id == 35 ==> stored_as(name, shape, 35, offset, n, "tq2_0"@, 256, 66),
        id == 39 ==> stored_as(name, shape, 39, offset, n, "mxfp4"@, 32, 17),
        (id == 4 || id == 5 || 31 <= id <= 33 || 36 <= id <= 38 || id >= 40) ==> {
            &&& described_tensor(name, shape, id, offset).dtype == "unknown("@ + dec(id as nat)
                + ")"@
            &&& described_tensor(name, shape, id, offset).bytes == 0
            &&& type_problems(name, shape, id, seq![]) == seq![
                "tensor '"@ + name + "': unknown ggml type id "@ + dec(id as nat),
            ]
        },
{
    if id == 0 {
        lemma_stored_as(name, shape, id, offset, n, "f32"@, 1, 4);
    }
    if id == 1 {
        lemma_stored_as(name, shape, id, offset, n, "f16"@, 1, 2);
    }
    if id == 2 {
        lemma_stored_as(name, shape, id, offset, n, "q4_0"@, 32, 18);
    }
    if id == 3 {
        lemma_stored_as(name, shape, id, offset, n, "q4_1"@, 32, 20);
    }
    if id == 6 {
        lemma_stored_as(name, shape, id, offset, n, "q5_0"@, 32, 22);
    }
    if id == 7 {
        lemma_stored_as(name, shape, id, offset, n, "q5_1"@, 32, 24);
    }
    if id == 8 {
        lemma_stored_as(name, shape, id, offset, n, "q8_0"@, 32, 34);
    }
    if id == 9 {
        lemma_stored_as(name, shape, id, offset, n, "q8_1"@, 32, 36);
    }
    if id == 10 {
        lemma_stored_as(name, shape, id, offset, n, "q2_k"@, 256, 84);
    }
    if id == 11 {
        lemma_stored_as(name, shape, id, offset, n, "q3_k"@, 256, 110);
    }
    if id == 12 {
        lemma_stored_as(name, shape, id, offset, n, "q4_k"@, 256, 144);
    }
    if id == 13 {
        lemma_stored_as(name, shape, id, offset, n, "q5_k"@, 256, 176);
    }
    if id == 14 {
        lemma_stored_as(name, shape, id, offset, n, "q6_k"@, 256, 210);
    }
    if id == 15 {
        lemma_stored_as(name, shape, id, offset, n, "q8_k"@, 256, 292);
    }
    if id == 16 {
        lemma_stored_as(name, shape, id, offset, n, "iq2_xxs"@, 256, 66);
    }
    if id == 17 {
        lemma_stored_as(name, shape, id, offset, n, "iq2_xs"@, 256, 74);
    }
    if id == 18 {
        lemma_stored_as(name, shape, id, offset, n, "iq3_xxs"@, 256, 98);
    }
    if id == 19 {
        lemma_stored_as(name, shape, id, offset, n, "iq1_s"@, 256, 50);
    }
    if id == 20 {
        lemma_stored_as(name, shape, id, offset, n, "iq4_nl"@, 32, 18);
    }
    if id == 21 {
        lemma_stored_as(name, shape, id, offset, n, "iq3_s"@, 256, 110);
    }
    if id == 22 {
        lemma_stored_as(name, shape, id, offset, n, "iq2_s"@, 256, 82);
    }
    if id == 23 {
        lemma_stored_as(name, shape, id, offset, n, "iq4_xs"@, 256, 136);
    }
    if id == 24 {
        lemma_stored_as(name, shape, id, offset, n, "i8"@, 1, 1);
    }
    if id == 25 {
        lemma_stored_as(name, shape, id, offset, n, "i16"@, 1, 2);
    }
    if id == 26 {
        lemma_stored_as(name, shape, id, offset, n, "i32"@, 1, 4);
    }
    if id == 27 {
        lemma_stored_as(name, shape, id, offset, n, "i64"@, 1, 8);
    }
    if id == 28 {
        lemma_stored_as(name, shape, id, offset, n, "f64"@, 1, 8);
    }
    if id == 29 {
        lemma_stored_as(name, shape, id, offset, n, "iq1_m"@, 256, 56);
    }
    if id == 30 {
        lemma_stored_as(name, shape, id, offset, n, "bf16"@, 1, 2);
    }
    if id == 34 {
        lemma_stored_as(name, shape, id, offset, n, "tq1_0"@, 256, 54);
    }
    if id == 35 {
        lemma_stored_as(name, shape, id, offset, n, "tq2_0"@, 256, 66);
    }
    if id == 39 {
        lemma_stored_as(name, shape, id, offset, n, "mxfp4"@, 32, 17);
    }
    if id == 4 || id == 5 || 31 <= id <= 33 || 36 <= id <= 38 || id >= 40 {
        let s = "tensor '"@ + name + "': unknown ggml type id "@ + dec(id as nat);
        assert(Seq::<Seq<char>>::empty().push(s) =~= seq![s]);
    }
}

/// Problems are noted after those that were there.
pub proof fn law_type_problems_follow(
    name: Seq<char>,
    shape: Seq<u64>,
    id: u32,
    probs: Seq<Seq<char>>,
)
    ensures
        type_problems(name, shape, id, probs) == probs + type_problems(name, shape, id, seq![]),
{
    assert(type_problems(name, shape, id, probs) =~= probs + type_problems(
        name,
        shape,
        id,
        seq![],
    ));
}

// ---------------------------------------------------------------------------
// Numbers and strings
// ---------------------------------------------------------------------------

/// Numbers are stored lowest byte first.
pub proof fn law_numbers_are_little_endian(b: Seq<u8>, pos: int)
    ensures
        le(b, pos, 1) == b[pos],
        le(b, pos, 2) == b[pos] + 0x100 * b[pos + 1],
        le(b, pos, 4) == b[pos] + 0x100 * b[pos + 1] + 0x1_0000 * b[pos + 2] + 0x100_0000 * b[pos
            + 3],
        le(b, pos, 8) == le(b, pos, 4) + 0x1_0000_0000 * le(b, pos + 4, 4),
{
    reveal_with_fuel(le, 9);
    assert(pos + 1 + 1 == pos + 2);
    assert(pos + 1 + 1 + 1 == pos + 3);
    assert(pos + 1 + 1 + 1 + 1 == pos + 4);
}

proof fn lemma_number(b: Seq<u8>, flen: nat, pos: int, x: nat, n: nat)
    requires
        occurs(b, pos, le_bytes(x, n)),
        pos + n <= flen,
        n == 4 || n == 8,
        n == 4 ==> x <= u32::MAX,
        n == 8 ==> x <= u64::MAX,
    ensures
        le_bytes(x, n).len() == n,
        number_at(b, flen, pos, n) == Ok::<nat, Seq<char>>(x),
{
    assert(pow256(4) == 0x1_0000_0000 && pow256(8) == 0x1_0000_0000_0000_0000) by {
        reveal_with_fuel(pow256, 9);
    }
    lemma_le_bytes_len(x, n);
    lemma_le_round_trip(b, pos, x, n);
}

/// A string: its length in bytes as a 64-bit number, and the bytes.
pub open spec fn counted_text(s: Seq<char>) -> Seq<u8> {
    le_bytes(encode_utf8(s).len(), 8) + encode_utf8(s)
}

/// A string is read back as its text, and the reader stands behind it.
pub proof fn law_strings_are_counted(b: Seq<u8>, flen: nat, pos: int, s: Seq<char>)
    requires
        occurs(b, pos, counted_text(s)),
        pos + 8 + encode_utf8(s).len() <= flen,
        encode_utf8(s).len() <= u64::MAX,
    ensures
        counted_text(s).len() == 8 + encode_utf8(s).len(),
        string_at(b, flen, pos) == Ok::<(Seq<char>, bool, int), Seq<char>>(
            (s, true, pos + 8 + encode_utf8(s).len()),
        ),
{
    let e = encode_utf8(s);
    lemma_le_bytes_len(e.len(), 8);
    lemma_occurs_split(b, pos, le_bytes(e.len(), 8), e);
    lemma_number(b, flen, pos, e.len(), 8);
    encode_utf8_valid_utf8(s);
    encode_utf8_decode_utf8(s);
}

// ---------------------------------------------------------------------------
// Values
// ---------------------------------------------------------------------------

/// A number of `n` bytes read as a signed one.
pub open spec fn as_signed(x: nat, modulus: nat) -> int {
    if 2 * x >= modulus {
        x - modulus
    } else {
        x as int
    }
}

/// A value of `n` bytes at `pos` reads as `v`.
pub open spec fn reads_as(
    b: Seq<u8>,
    flen: nat,
    pos: int,
    ty: u32,
    depth: int,
    limit: nat,
    n: nat,
    v: Doc,
) -> bool {
    pos + n <= flen && pos + n <= b.len() ==> value_at(b, flen, pos, ty, depth, limit, seq![])
        == Ok::<(Doc, int, Seq<Seq<char>>), Seq<char>>((v, pos + n, seq![]))
}

/// What a metadata value of each simple type is, by the id of its type: how
/// many bytes it takes and what they mean.
#[verifier::rlimit(40)]
pub proof fn law_scalars_by_type(b: Seq<u8>, flen: nat, pos: int, depth: int, limit: nat)
    requires
        0 <= pos,
    ensures
        reads_as(b, flen, pos, 0, depth, limit, 1, Doc::Int(b[pos] as int)),
        reads_as(b, flen, pos, 1, depth, limit, 1, Doc::Int(as_signed(b[pos] as nat, 0x100))),
        reads_as(b, flen, pos, 2, depth, limit, 2, Doc::Int(le(b, pos, 2) as int)),
        reads_as(b, flen, pos, 3, depth, limit, 2, Doc::Int(as_signed(le(b, pos, 2), 0x1_0000))),
        reads_as(b, flen, pos, 4, depth, limit, 4, Doc::Int(le(b, pos, 4) as int)),
        reads_as(
            b,
            flen,
            pos,
            5,
            depth,
            limit,
            4,
            Doc::Int(as_signed(le(b, pos, 4), 0x1_0000_0000)),
        ),
        reads_as(b, flen, pos, 6, depth, limit, 4, Doc::Float(widened(le(b, pos, 4) as u32))),
        b[pos] == 0 ==> reads_as(b, flen, pos, 7, depth, limit, 1, Doc::Bool(false)),
        b[pos] == 1 ==> reads_as(b, flen, pos, 7, depth, limit, 1, Doc::Bool(true)),
        reads_as(b, flen, pos, 10, depth, limit, 8, Doc::Int(le(b, pos, 8) as int)),
        reads_as(
            b,
            flen,
            pos,
            11,
            depth,
            limit,
            8,
            Doc::Int(as_signed(le(b, pos, 8), 0x1_0000_0000_0000_0000)),
        ),
        reads_as(b, flen, pos, 12, depth, limit, 8, Doc::Float(le(b, pos, 8) as u64)),
{
    assert(le(b, pos, 1) == b[pos]) by {
        law_numbers_are_little_endian(b, pos);
    }
}

/// A string value is read back, in 8 bytes more than its text takes.
pub proof fn law_string_value(
    b: Seq<u8>,
    flen: nat,
    pos: int,
    depth: int,
    limit: nat,
    s: Seq<char>,
)
    requires
        occurs(b, pos, counted_text(s)),
        encode_utf8(s).len() <= u64::MAX,
    ensures
        reads_as(b, flen, pos, 8, depth, limit, 8 + encode_utf8(s).len(), Doc::Str(s)),
{
    if pos + 8 + encode_utf8(s).len() <= flen {
        law_strings_are_counted(b, flen, pos, s);
    }
}

/// An array holds the values that follow its element type and length, one
/// behind the other.
pub open spec fn elements_read(
    b: Seq<u8>,
    flen: nat,
    elem: u32,
    depth: int,
    limit: nat,
    at: Seq<int>,
    items: Seq<Doc>,
) -> bool {
    &&& at.len() == items.len() + 1
    &&& forall|i: int|
        0 <= i < items.len() ==> value_at(
            b,
            flen,
            #[trigger] at[i],
            elem,
            depth,
            limit,
            seq![],
        ) == Ok::<(Doc, int, Seq<Seq<char>>), Seq<char>>((items[i], at[i + 1], seq![]))
}

#[verifier::rlimit(50)]
proof fn lemma_elements(
    b: Seq<u8>,
    flen: nat,
    elem: u32,
    depth: int,
    limit: nat,
    at: Seq<int>,
    items: Seq<Doc>,
    i: nat,
)
    requires
        elements_read(b, flen, elem, depth, limit, at, items),
        i <= items.len() <= limit,
    ensures
        elements_from(
            b,
            flen,
            at[i as int],
            elem,
            (items.len() - i) as nat,
            depth,
            limit,
            items.take(i as int),
            seq![],
        ) == Ok::<(Seq<Doc>, int, Seq<Seq<char>>), Seq<char>>((items, at.last(), seq![])),
    decreases items.len() - i,
{
    if i == items.len() {
        assert(items.take(i as int) =~= items);
    } else {
        assert(value_at(b, flen, at[i as int], elem, depth, limit, seq![]) == Ok::<
            (Doc, int, Seq<Seq<char>>),
            Seq<char>,
        >((items[i as int], at[i as int + 1], seq![])));
        assert(items.take(i as int).push(items[i as int]) =~= items.take(i as int + 1));
        lemma_elements(b, flen, elem, depth, limit, at, items, i + 1);
    }
}

proof fn lemma_value_takes(
    b: Seq<u8>,
    flen: nat,
    pos: int,
    ty: u32,
    depth: int,
    limit: nat,
    probs: Seq<Seq<char>>,
)
    ensures
        value_at(b, flen, pos, ty, depth, limit, probs) matches Ok((_, end, _)) ==> pos
            + min_value_size(ty) <= end <= flen,
    decreases MAX_ARRAY_DEPTH - depth, 0nat,
{
    if ty == 9 && depth < MAX_ARRAY_DEPTH {
        if let Ok(elem) = number_at(b, flen, pos, 4) {
            if let Ok(count) = number_at(b, flen, pos + 4, 8) {
                lemma_elements_take(
                    b,
                    flen,
                    pos + 12,
                    elem as u32,
                    count,
                    depth + 1,
                    limit,
                    seq![],
                    probs,
                );
            }
        }
    }
}

proof fn lemma_elements_take(
    b: Seq<u8>,
    flen: nat,
    pos: int,
    elem: u32,
    k: nat,
    depth: int,
    limit: nat,
    items: Seq<Doc>,
    probs: Seq<Seq<char>>,
)
    ensures
        pos <= flen ==> (elements_from(b, flen, pos, elem, k, depth, limit, items, probs) matches Ok(
            (_, end, _),
        ) ==> pos <= end <= flen),
    decreases MAX_ARRAY_DEPTH - depth, 1 + k,
{
    if k > 0 {
        lemma_value_takes(b, flen, pos, elem, depth, limit, probs);
        if let Ok((v, end, ps)) = value_at(b, flen, pos, elem, depth, limit, probs) {
            lemma_elements_take(
                b,
                flen,
                end,
                elem,
                (k - 1) as nat,
                depth,
                limit,
                if items.len() < limit {
                    items.push(v)
                } else {
                    items
                },
                ps,
            );
        }
    }
}

proof fn lemma_elements_fit(
    b: Seq<u8>,
    flen: nat,
    elem: u32,
    depth: int,
    limit: nat,
    at: Seq<int>,
    items: Seq<Doc>,
    i: nat,
)
    requires
        elements_read(b, flen, elem, depth, limit, at, items),
        i <= items.len(),
        at[0] <= flen,
    ensures
        at[0] + i * min_value_size(elem) <= at[i as int] <= flen,
    decreases i,
{
    if i > 0 {
        let m = min_value_size(elem);
        lemma_elements_fit(b, flen, elem, depth, limit, at, items, (i - 1) as nat);
        lemma_value_takes(b, flen, at[i - 1], elem, depth, limit, seq![]);
        assert(i * m == (i - 1) * m + m) by (nonlinear_arith);
    }
}

/// An array is its element type, its length and its elements, one behind the
/// other, nested at most four deep. None is refused whose elements are there.
#[verifier::rlimit(50)]
pub proof fn law_array_value(
    b: Seq<u8>,
    flen: nat,
    pos: int,
    depth: int,
    limit: nat,
    elem: u32,
    at: Seq<int>,
    items: Seq<Doc>,
)
    requires
        0 <= pos,
        pos + 12 <= b.len(),
        pos + 12 <= flen,
        depth < 4,
        le(b, pos, 4) == elem,
        le(b, pos + 4, 8) == items.len(),
        at.len() > 0,
        at[0] == pos + 12,
        elements_read(b, flen, elem, depth + 1, limit, at, items),
        items.len() <= limit,
    ensures
        value_at(b, flen, pos, 9, depth, limit, seq![]) == Ok::<
            (Doc, int, Seq<Seq<char>>),
            Seq<char>,
        >((Doc::Arr(items), at.last(), seq![])),
{
    lemma_elements(b, flen, elem, depth + 1, limit, at, items, 0);
    assert(items.take(0) =~= seq![]);
    lemma_elements_fit(b, flen, elem, depth + 1, limit, at, items, items.len());
}

/// Arrays in arrays are read four deep, and no deeper; types beyond the last
/// are refused.
pub proof fn law_refused_values(
    b: Seq<u8>,
    flen: nat,
    pos: int,
    ty: u32,
    depth: int,
    limit: nat,
    probs: Seq<Seq<char>>,
)
    ensures
        depth >= 4 ==> value_at(b, flen, pos, 9, depth, limit, probs) == Err::<
            (Doc, int, Seq<Seq<char>>),
            Seq<char>,
        >("metadata arrays nested too deeply"@),
        ty > 12 ==> value_at(b, flen, pos, ty, depth, limit, probs) == Err::<
            (Doc, int, Seq<Seq<char>>),
            Seq<char>,
        >("unknown metadata value type "@ + dec(ty as nat)),
{
}

/// The names of the value types, as a summarized array shows its element type.
pub proof fn law_value_type_names(ty: u32)
    ensures
        value_name(0) == "u8"@,
        value_name(1) == "i8"@,
        value_name(2) == "u16"@,
        value_name(3) == "i16"@,
        value_name(4) == "u32"@,
        value_name(5) == "i32"@,
        value_name(6) == "f32"@,
        value_name(7) == "bool"@,
        value_name(8) == "string"@,
        value_name(9) == "array"@,
        value_name(10) == "u64"@,
        value_name(11) == "i64"@,
        value_name(12) == "f64"@,
        ty > 12 ==> value_name(ty) == "unknown"@,
{
}

// ---------------------------------------------------------------------------
// Entries
// ---------------------------------------------------------------------------

pub open spec fn dims_bytes(shape: Seq<u64>) -> Seq<u8>
    decreases shape.len(),
{
    if shape.len() == 0 {
        seq![]
    } else {
        le_bytes(shape[0] as nat, 8) + dims_bytes(shape.skip(1))
    }
}

/// An entry of the tensor table: name, number of dimensions, the dimensions,
/// type and offset.
pub open spec fn entry_bytes(name: Seq<char>, shape: Seq<u64>, id: u32, offset: u64) -> Seq<u8> {
    counted_text(name) + (le_bytes(shape.len(), 4) + (dims_bytes(shape) + (le_bytes(id as nat, 4)
        + le_bytes(offset as nat, 8))))
}

proof fn lemma_dims(b: Seq<u8>, flen: nat, pos: int, shape: Seq<u64>, acc: Seq<u64>)
    requires
        occurs(b, pos, dims_bytes(shape)),
        pos + dims_bytes(shape).len() <= flen,
    ensures
        dims_bytes(shape).len() == 8 * shape.len(),
        dims_from(b, flen, pos, shape.len(), acc) == Ok::<(Seq<u64>, int), Seq<char>>(
            (acc + shape, pos + 8 * shape.len()),
        ),
    decreases shape.len(),
{
    if shape.len() == 0 {
        assert(acc + shape =~= acc);
    } else {
        let x = le_bytes(shape[0] as nat, 8);
        lemma_le_bytes_len(shape[0] as nat, 8);
        lemma_occurs_split(b, pos, x, dims_bytes(shape.skip(1)));
        lemma_number(b, flen, pos, shape[0] as nat, 8);
        lemma_dims(b, flen, pos + 8, shape.skip(1), acc.push(shape[0]));
        assert(acc.push(shape[0]) + shape.skip(1) =~= acc + shape);
    }
}

/// An entry of the tensor table is read back as the tensor it describes, with
/// its dimensions in the order of the file; up to eight of them.
#[verifier::rlimit(50)]
pub proof fn law_entry_is_read(
    b: Seq<u8>,
    flen: nat,
    pos: int,
    i: nat,
    name: Seq<char>,
    shape: Seq<u64>,
    id: u32,
    offset: u64,
    ts: Seq<TensorModel>,
    probs: Seq<Seq<char>>,
)
    requires
        occurs(b, pos, entry_bytes(name, shape, id, offset)),
        pos + entry_bytes(name, shape, id, offset).len() <= flen,
        encode_utf8(name).len() <= u64::MAX,
        shape.len() <= 8,
    ensures
        entry_bytes(name, shape, id, offset).len() == 24 + encode_utf8(name).len() + 8
            * shape.len(),
        tensor_at(b, flen, pos, i, ts, probs) == Ok::<
            (int, Seq<TensorModel>, Seq<Seq<char>>),
            Seq<char>,
        >(
            (
                pos + entry_bytes(name, shape, id, offset).len(),
                ts.push(described_tensor(name, shape, id, offset as nat)),
                type_problems(name, shape, id, probs),
            ),
        ),
{
    let x1 = counted_text(name);
    let x2 = le_bytes(shape.len(), 4);
    let x3 = dims_bytes(shape);
    let x4 = le_bytes(id as nat, 4);
    let x5 = le_bytes(offset as nat, 8);
    lemma_le_bytes_len(encode_utf8(name).len(), 8);
    lemma_le_bytes_len(shape.len(), 4);
    lemma_le_bytes_len(id as nat, 4);
    lemma_le_bytes_len(offset as nat, 8);
    lemma_occurs_split(b, pos, x1, x2 + (x3 + (x4 + x5)));
    let p = pos + x1.len();
    lemma_occurs_split(b, p, x2, x3 + (x4 + x5));
    lemma_occurs_split(b, p + 4, x3, x4 + x5);
    let q = p + 4 + x3.len();
    lemma_occurs_split(b, q, x4, x5);
    law_strings_are_counted(b, flen, pos, name);
    lemma_number(b, flen, p, shape.len(), 4);
    lemma_dims(b, flen, p + 4, shape, seq![]);
    assert(seq![] + shape =~= shape);
    lemma_number(b, flen, q, id as nat, 4);
    lemma_number(b, flen, q + 4, offset as nat, 8);
}

/// A tensor without dimensions has one element, which fills no block of more.
pub proof fn law_scalars_in_blocks(name: Seq<char>, offset: nat)
    ensures
        type_problems(name, Seq::empty(), 0, seq![]).len() == 0,
        type_problems(name, Seq::empty(), 2, seq![]) == seq![
            "tensor '"@ + name + "': first dimension "@ + dec(1)
                + " is not divisible by the q4_0 block length "@ + dec(32),
        ],
        described_tensor(name, Seq::empty(), 0, offset).bytes == 4,
        described_tensor(name, Seq::empty(), 2, offset).bytes == 18,
{
    reveal_strlit("q4_0");
    reveal_strlit(" is not divisible by the ");
    reveal_strlit(" block length ");
    reveal_strlit(" is not divisible by the q4_0 block length ");
    let s = "tensor '"@ + name + "': first dimension "@ + dec(1)
        + " is not divisible by the q4_0 block length "@ + dec(32);
    assert(type_problems(name, Seq::empty(), 2, seq![]) =~= seq![s]) by {
        assert("tensor '"@ + name + "': first dimension "@ + dec(1) + " is not divisible by the "@
            + "q4_0"@ + " block length "@ + dec(32) =~= s);
    }
    law_tensor_sizes(name, Seq::empty(), 0, offset, 1);
    law_tensor_sizes(name, Seq::empty(), 2, offset, 1);
}

} // verus!
