//! What is read of a written GGUF file.

use vstd::prelude::*;
use vstd::utf8::*;
use crate::builder::{gguf_bytes, gguf_dims, gguf_end, gguf_file, gguf_header, gguf_i32s, gguf_info, gguf_infos, gguf_metadata, gguf_start, gguf_string, gguf_strings, gguf_u32s, gguf_value, gguf_writable, lemma_gguf_end_monotone, numel64, padding, twos, GgufTensor, GvModel};
use crate::bytes::{le, le_bytes, lemma_le_bound, lemma_le_bytes_len, lemma_le_round_trip, pow256};
use crate::float::widened;
use crate::gguf::{aligned, alignment_of, alignment_problems, array_summary, ceil_div, data_end, described_tensor, dims_from, elements_from, entry_at, first_dim, ggml_type, good_alignment, has_key, head_of, lemma_ceil_div, metadata_from, min_value_size, number_at, parse_model, report_of, signed, string_at, tensor_at, tensors_from, type_problems, value_at, MAX_ARRAY_DEPTH, MAX_DIMS};
use crate::json::{first_member, Doc};
use crate::laws::arrays::lemma_numel64_product;
use crate::laws::layout::{lemma_occurs_split, occurs};
use crate::report::{ReportModel, TensorModel};
use crate::text::dec;

verus! {

proof fn lemma_powers()
    ensures
        pow256(1) == 0x100,
        pow256(2) == 0x1_0000,
        pow256(4) == 0x1_0000_0000,
        pow256(8) == 0x1_0000_0000_0000_0000,
{
    reveal_with_fuel(pow256, 9);
}

// ---------------------------------------------------------------------------
// Numbers and strings
// ---------------------------------------------------------------------------

proof fn lemma_number_back(b: Seq<u8>, flen: nat, pos: int, x: nat, n: nat)
    requires
        occurs(b, pos, le_bytes(x, n)),
        b.len() <= flen,
    ensures
        le_bytes(x, n).len() == n,
        number_at(b, flen, pos, n) == Ok::<nat, Seq<char>>(x % pow256(n)),
        x < pow256(n) ==> number_at(b, flen, pos, n) == Ok::<nat, Seq<char>>(x),
{
    lemma_le_bytes_len(x, n);
    lemma_le_round_trip(b, pos, x, n);
}

pub open spec fn text_fits(s: Seq<char>) -> bool {
    encode_utf8(s).len() <= u64::MAX
}

proof fn lemma_string_back(b: Seq<u8>, flen: nat, pos: int, s: Seq<char>)
    requires
        occurs(b, pos, gguf_string(s)),
        b.len() <= flen,
        text_fits(s),
    ensures
        gguf_string(s).len() == 8 + encode_utf8(s).len(),
        string_at(b, flen, pos) == Ok::<(Seq<char>, bool, int), Seq<char>>(
            (s, true, pos + gguf_string(s).len()),
        ),
{
    let e = encode_utf8(s);
    lemma_powers();
    lemma_occurs_split(b, pos, le_bytes(e.len(), 8), e);
    lemma_number_back(b, flen, pos, e.len(), 8);
    encode_utf8_valid_utf8(s);
    encode_utf8_decode_utf8(s);
}

// ---------------------------------------------------------------------------
// Values
// ---------------------------------------------------------------------------

/// An array as it is shown: whole, or summarized by its first elements.
pub open spec fn shown_array(elem: u32, items: Seq<Doc>, limit: nat) -> Doc {
    if items.len() > limit {
        array_summary(elem, items.len(), items.take(limit as int))
    } else {
        Doc::Arr(items)
    }
}

pub open spec fn text_docs(v: Seq<Seq<char>>) -> Seq<Doc> {
    Seq::new(v.len(), |i: int| Doc::Str(v[i]))
}

pub open spec fn int_docs(v: Seq<i32>) -> Seq<Doc> {
    Seq::new(v.len(), |i: int| Doc::Int(v[i] as int))
}

pub open spec fn float_docs(v: Seq<u32>) -> Seq<Doc> {
    Seq::new(v.len(), |i: int| Doc::Float(widened(v[i])))
}

/// A metadata value as the reader shows it.
pub open spec fn shown_value(v: GvModel, limit: nat) -> Doc {
    match v {
        GvModel::U8(x) => Doc::Int(x as int),
        GvModel::I8(x) => Doc::Int(x as int),
        GvModel::U16(x) => Doc::Int(x as int),
        GvModel::I16(x) => Doc::Int(x as int),
        GvModel::U32(x) => Doc::Int(x as int),
        GvModel::I32(x) => Doc::Int(x as int),
        GvModel::F32(x) => Doc::Float(widened(x)),
        GvModel::Bool(x) => Doc::Bool(x),
        GvModel::Str(x) => Doc::Str(x),
        GvModel::U64(x) => Doc::Int(x as int),
        GvModel::I64(x) => Doc::Int(x as int),
        GvModel::F64(x) => Doc::Float(x),
        GvModel::AStr(x) => shown_array(8, text_docs(x), limit),
        GvModel::AI32(x) => shown_array(5, int_docs(x), limit),
        GvModel::AF32(x) => shown_array(6, float_docs(x), limit),
    }
}

/// The lengths a value holds fit in their length fields.
pub open spec fn value_fits(v: GvModel) -> bool {
    match v {
        GvModel::Str(x) => text_fits(x),
        GvModel::AStr(x) => x.len() <= u64::MAX && forall|i: int|
            0 <= i < x.len() ==> text_fits(#[trigger] x[i]),
        GvModel::AI32(x) => x.len() <= u64::MAX,
        GvModel::AF32(x) => x.len() <= u64::MAX,
        _ => true,
    }
}

/// The type id of a value.
pub open spec fn type_id(v: GvModel) -> u32 {
    match v {
        GvModel::U8(_) => 0,
        GvModel::I8(_) => 1,
        GvModel::U16(_) => 2,
        GvModel::I16(_) => 3,
        GvModel::U32(_) => 4,
        GvModel::I32(_) => 5,
        GvModel::F32(_) => 6,
        GvModel::Bool(_) => 7,
        GvModel::Str(_) => 8,
        GvModel::U64(_) => 10,
        GvModel::I64(_) => 11,
        GvModel::F64(_) => 12,
        _ => 9,
    }
}

/// What a number read as type `ty` stands for.
spec fn scalar_doc(ty: u32, r: nat) -> Doc {
    if ty == 1 {
        Doc::Int(signed(r, 0x80))
    } else if ty == 3 {
        Doc::Int(signed(r, 0x8000))
    } else if ty == 5 {
        Doc::Int(signed(r, 0x8000_0000))
    } else if ty == 11 {
        Doc::Int(signed(r, 0x8000_0000_0000_0000))
    } else if ty == 6 {
        Doc::Float(widened(r as u32))
    } else if ty == 12 {
        Doc::Float(r as u64)
    } else if ty == 7 {
        Doc::Bool(r != 0)
    } else {
        Doc::Int(r as int)
    }
}

/// A number of type `ty`.
proof fn lemma_scalar_back(
    b: Seq<u8>,
    flen: nat,
    pos: int,
    ty: u32,
    x: nat,
    depth: int,
    limit: nat,
    probs: Seq<Seq<char>>,
)
    requires
        ty <= 7 || 10 <= ty <= 12,
        occurs(b, pos, le_bytes(x, min_value_size(ty))),
        b.len() <= flen,
        ty == 7 ==> x <= 1,
    ensures
        value_at(b, flen, pos, ty, depth, limit, probs) == Ok::<
            (Doc, int, Seq<Seq<char>>),
            Seq<char>,
        >((scalar_doc(ty, x % pow256(min_value_size(ty))), pos + min_value_size(ty), probs)),
{
    lemma_powers();
    lemma_number_back(b, flen, pos, x, min_value_size(ty));
}

/// Byte sequences one after the other.
spec fn flat(pieces: Seq<Seq<u8>>) -> Seq<u8>
    decreases pieces.len(),
{
    if pieces.len() == 0 {
        seq![]
    } else {
        flat(pieces.drop_last()) + pieces.last()
    }
}

proof fn lemma_flat_len(pieces: Seq<Seq<u8>>, m: nat)
    requires
        forall|i: int| 0 <= i < pieces.len() ==> m <= (#[trigger] pieces[i]).len(),
    ensures
        pieces.len() * m <= flat(pieces).len(),
    decreases pieces.len(),
{
    if pieces.len() > 0 {
        let n = pieces.len();
        lemma_flat_len(pieces.drop_last(), m);
        assert(n * m == (n - 1) * m + m) by (nonlinear_arith)
            requires
                n > 0,
        ;
    }
}

/// The first `limit` of the items.
spec fn first_of(items: Seq<Doc>, limit: nat) -> Seq<Doc> {
    if items.len() > limit {
        items.take(limit as int)
    } else {
        items
    }
}

/// Array elements one after the other.
proof fn lemma_pieces_back(
    b: Seq<u8>,
    flen: nat,
    pos: int,
    elem: u32,
    pieces: Seq<Seq<u8>>,
    items: Seq<Doc>,
    more: nat,
    depth: int,
    limit: nat,
    probs: Seq<Seq<char>>,
)
    requires
        pieces.len() == items.len(),
        occurs(b, pos, flat(pieces)),
        forall|i: int, q: int|
            0 <= i < pieces.len() && #[trigger] occurs(b, q, pieces[i]) ==> value_at(
                b,
                flen,
                q,
                elem,
                depth,
                limit,
                probs,
            ) == Ok::<(Doc, int, Seq<Seq<char>>), Seq<char>>(
                (items[i], q + pieces[i].len(), probs),
            ),
    ensures
        elements_from(b, flen, pos, elem, pieces.len() + more, depth, limit, seq![], probs)
            == elements_from(
            b,
            flen,
            pos + flat(pieces).len(),
            elem,
            more,
            depth,
            limit,
            first_of(items, limit),
            probs,
        ),
    decreases pieces.len(),
{
    if pieces.len() == 0 {
        assert(first_of(items, limit) =~= seq![]);
    } else {
        let n = pieces.len() as int;
        let ps = pieces.drop_last();
        let is = items.drop_last();
        lemma_occurs_split(b, pos, flat(ps), pieces.last());
        assert forall|i: int, q: int|
            0 <= i < ps.len() && #[trigger] occurs(b, q, ps[i]) implies value_at(
            b,
            flen,
            q,
            elem,
            depth,
            limit,
            probs,
        ) == Ok::<(Doc, int, Seq<Seq<char>>), Seq<char>>((is[i], q + ps[i].len(), probs)) by {
            assert(occurs(b, q, pieces[i]));
        }
        lemma_pieces_back(b, flen, pos, elem, ps, is, more + 1, depth, limit, probs);
        let q = pos + flat(ps).len();
        assert(occurs(b, q, pieces[n - 1]));
        let first = first_of(is, limit);
        if first.len() < limit {
            assert(first.push(items[n - 1]) =~= first_of(items, limit));
        } else {
            assert(first =~= first_of(items, limit));
        }
        assert(ps.len() + (more + 1) == pieces.len() + more);
    }
}

proof fn lemma_array_back(
    b: Seq<u8>,
    flen: nat,
    pos: int,
    elem: u32,
    pieces: Seq<Seq<u8>>,
    items: Seq<Doc>,
    limit: nat,
    probs: Seq<Seq<char>>,
)
    requires
        pieces.len() == items.len() <= u64::MAX,
        occurs(b, pos, le_bytes(elem as nat, 4) + le_bytes(pieces.len(), 8) + flat(pieces)),
        b.len() <= flen,
        forall|i: int| 0 <= i < pieces.len() ==> min_value_size(elem) <= (#[trigger] pieces[i]).len(),
        forall|i: int, q: int|
            0 <= i < pieces.len() && #[trigger] occurs(b, q, pieces[i]) ==> value_at(
                b,
                flen,
                q,
                elem,
                1,
                limit,
                probs,
            ) == Ok::<(Doc, int, Seq<Seq<char>>), Seq<char>>(
                (items[i], q + pieces[i].len(), probs),
            ),
    ensures
        value_at(b, flen, pos, 9, 0, limit, probs) == Ok::<
            (Doc, int, Seq<Seq<char>>),
            Seq<char>,
        >((shown_array(elem, items, limit), pos + 12 + flat(pieces).len(), probs)),
{
    lemma_powers();
    let head = le_bytes(elem as nat, 4) + le_bytes(pieces.len(), 8);
    lemma_occurs_split(b, pos, head, flat(pieces));
    lemma_occurs_split(b, pos, le_bytes(elem as nat, 4), le_bytes(pieces.len(), 8));
    lemma_number_back(b, flen, pos, elem as nat, 4);
    lemma_number_back(b, flen, pos + 4, pieces.len(), 8);
    lemma_flat_len(pieces, min_value_size(elem));
    lemma_pieces_back(b, flen, pos + 12, elem, pieces, items, 0, 1, limit, probs);
    assert(first_of(items, limit) == if items.len() > limit {
        items.take(limit as int)
    } else {
        items
    });
}

spec fn text_pieces(v: Seq<Seq<char>>) -> Seq<Seq<u8>> {
    Seq::new(v.len(), |i: int| gguf_string(v[i]))
}

proof fn lemma_strings_flat(v: Seq<Seq<char>>)
    ensures
        gguf_strings(v) == flat(text_pieces(v)),
    decreases v.len(),
{
    if v.len() > 0 {
        lemma_strings_flat(v.drop_last());
        assert(text_pieces(v).drop_last() =~= text_pieces(v.drop_last()));
    }
}

spec fn int_pieces(v: Seq<i32>) -> Seq<Seq<u8>> {
    Seq::new(v.len(), |i: int| le_bytes(twos(v[i] as int), 4))
}

proof fn lemma_i32s_flat(v: Seq<i32>)
    ensures
        gguf_i32s(v) == flat(int_pieces(v)),
    decreases v.len(),
{
    if v.len() > 0 {
        lemma_i32s_flat(v.drop_last());
        assert(int_pieces(v).drop_last() =~= int_pieces(v.drop_last()));
    }
}

spec fn float_pieces(v: Seq<u32>) -> Seq<Seq<u8>> {
    Seq::new(v.len(), |i: int| le_bytes(v[i] as nat, 4))
}

proof fn lemma_u32s_flat(v: Seq<u32>)
    ensures
        gguf_u32s(v) == flat(float_pieces(v)),
    decreases v.len(),
{
    if v.len() > 0 {
        lemma_u32s_flat(v.drop_last());
        assert(float_pieces(v).drop_last() =~= float_pieces(v.drop_last()));
    }
}

proof fn lemma_strings_back(
    b: Seq<u8>,
    flen: nat,
    pos: int,
    v: Seq<Seq<char>>,
    limit: nat,
    probs: Seq<Seq<char>>,
)
    requires
        occurs(b, pos, le_bytes(8, 4) + le_bytes(v.len(), 8) + gguf_strings(v)),
        b.len() <= flen,
        value_fits(GvModel::AStr(v)),
    ensures
        value_at(b, flen, pos, 9, 0, limit, probs) == Ok::<
            (Doc, int, Seq<Seq<char>>),
            Seq<char>,
        >((shown_array(8, text_docs(v), limit), pos + 12 + gguf_strings(v).len(), probs)),
{
    let pieces = text_pieces(v);
    lemma_strings_flat(v);
    assert forall|i: int| 0 <= i < pieces.len() implies min_value_size(8) <= (
    #[trigger] pieces[i]).len() by {
        lemma_le_bytes_len(encode_utf8(v[i]).len(), 8);
    }
    assert forall|i: int, q: int|
        0 <= i < pieces.len() && #[trigger] occurs(b, q, pieces[i]) implies value_at(
        b,
        flen,
        q,
        8,
        1,
        limit,
        probs,
    ) == Ok::<(Doc, int, Seq<Seq<char>>), Seq<char>>(
        (text_docs(v)[i], q + pieces[i].len(), probs),
    ) by {
        assert(text_fits(v[i]));
        lemma_string_back(b, flen, q, v[i]);
    }
    lemma_array_back(b, flen, pos, 8, pieces, text_docs(v), limit, probs);
}

proof fn lemma_i32_back(
    b: Seq<u8>,
    flen: nat,
    pos: int,
    x: i32,
    limit: nat,
    probs: Seq<Seq<char>>,
)
    requires
        occurs(b, pos, le_bytes(twos(x as int), 4)),
        b.len() <= flen,
    ensures
        le_bytes(twos(x as int), 4).len() == 4,
        value_at(b, flen, pos, 5, 1, limit, probs) == Ok::<
            (Doc, int, Seq<Seq<char>>),
            Seq<char>,
        >((Doc::Int(x as int), pos + 4, probs)),
{
    lemma_powers();
    lemma_le_bytes_len(twos(x as int), 4);
    lemma_scalar_back(b, flen, pos, 5, twos(x as int), 1, limit, probs);
    assert(signed(twos(x as int) % 0x1_0000_0000, 0x8000_0000) == x);
}

proof fn lemma_f32_back(
    b: Seq<u8>,
    flen: nat,
    pos: int,
    x: u32,
    limit: nat,
    probs: Seq<Seq<char>>,
)
    requires
        occurs(b, pos, le_bytes(x as nat, 4)),
        b.len() <= flen,
    ensures
        le_bytes(x as nat, 4).len() == 4,
        value_at(b, flen, pos, 6, 1, limit, probs) == Ok::<
            (Doc, int, Seq<Seq<char>>),
            Seq<char>,
        >((Doc::Float(widened(x)), pos + 4, probs)),
{
    lemma_powers();
    lemma_le_bytes_len(x as nat, 4);
    lemma_scalar_back(b, flen, pos, 6, x as nat, 1, limit, probs);
    assert(x as nat % 0x1_0000_0000 == x);
}

proof fn lemma_i32s_back(
    b: Seq<u8>,
    flen: nat,
    pos: int,
    v: Seq<i32>,
    limit: nat,
    probs: Seq<Seq<char>>,
)
    requires
        occurs(b, pos, le_bytes(5, 4) + le_bytes(v.len(), 8) + gguf_i32s(v)),
        b.len() <= flen,
        value_fits(GvModel::AI32(v)),
    ensures
        value_at(b, flen, pos, 9, 0, limit, probs) == Ok::<
            (Doc, int, Seq<Seq<char>>),
            Seq<char>,
        >((shown_array(5, int_docs(v), limit), pos + 12 + gguf_i32s(v).len(), probs)),
{
    let pieces = int_pieces(v);
    lemma_i32s_flat(v);
    assert forall|i: int| 0 <= i < pieces.len() implies min_value_size(5) <= (
    #[trigger] pieces[i]).len() by {
        lemma_le_bytes_len(twos(v[i] as int), 4);
    }
    assert forall|i: int, q: int|
        0 <= i < pieces.len() && #[trigger] occurs(b, q, pieces[i]) implies value_at(
        b,
        flen,
        q,
        5,
        1,
        limit,
        probs,
    ) == Ok::<(Doc, int, Seq<Seq<char>>), Seq<char>>(
        (int_docs(v)[i], q + pieces[i].len(), probs),
    ) by {
        lemma_i32_back(b, flen, q, v[i], limit, probs);
    }
    lemma_array_back(b, flen, pos, 5, pieces, int_docs(v), limit, probs);
}

proof fn lemma_f32s_back(
    b: Seq<u8>,
    flen: nat,
    pos: int,
    v: Seq<u32>,
    limit: nat,
    probs: Seq<Seq<char>>,
)
    requires
        occurs(b, pos, le_bytes(6, 4) + le_bytes(v.len(), 8) + gguf_u32s(v)),
        b.len() <= flen,
        value_fits(GvModel::AF32(v)),
    ensures
        value_at(b, flen, pos, 9, 0, limit, probs) == Ok::<
            (Doc, int, Seq<Seq<char>>),
            Seq<char>,
        >((shown_array(6, float_docs(v), limit), pos + 12 + gguf_u32s(v).len(), probs)),
{
    let pieces = float_pieces(v);
    lemma_u32s_flat(v);
    assert forall|i: int| 0 <= i < pieces.len() implies min_value_size(6) <= (
    #[trigger] pieces[i]).len() by {
        lemma_le_bytes_len(v[i] as nat, 4);
    }
    assert forall|i: int, q: int|
        0 <= i < pieces.len() && #[trigger] occurs(b, q, pieces[i]) implies value_at(
        b,
        flen,
        q,
        6,
        1,
        limit,
        probs,
    ) == Ok::<(Doc, int, Seq<Seq<char>>), Seq<char>>(
        (float_docs(v)[i], q + pieces[i].len(), probs),
    ) by {
        lemma_f32_back(b, flen, q, v[i], limit, probs);
    }
    lemma_array_back(b, flen, pos, 6, pieces, float_docs(v), limit, probs);
}

/// The number that stands for a scalar value.
spec fn raw(v: GvModel) -> nat {
    match v {
        GvModel::U8(x) => x as nat,
        GvModel::I8(x) => twos(x as int),
        GvModel::U16(x) => x as nat,
        GvModel::I16(x) => twos(x as int),
        GvModel::U32(x) => x as nat,
        GvModel::I32(x) => twos(x as int),
        GvModel::F32(x) => x as nat,
        GvModel::Bool(x) => if x {
            1
        } else {
            0
        },
        GvModel::U64(x) => x as nat,
        GvModel::I64(x) => twos(x as int),
        GvModel::F64(x) => x as nat,
        _ => 0,
    }
}

spec fn is_scalar(v: GvModel) -> bool {
    type_id(v) != 8 && type_id(v) != 9
}

proof fn lemma_scalar_value_back(
    b: Seq<u8>,
    flen: nat,
    pos: int,
    v: GvModel,
    limit: nat,
    probs: Seq<Seq<char>>,
)
    requires
        occurs(b, pos, le_bytes(raw(v), min_value_size(type_id(v)))),
        b.len() <= flen,
        is_scalar(v),
    ensures
        value_at(b, flen, pos, type_id(v), 0, limit, probs) == Ok::<
            (Doc, int, Seq<Seq<char>>),
            Seq<char>,
        >((shown_value(v, limit), pos + min_value_size(type_id(v)), probs)),
{
    lemma_scalar_back(b, flen, pos, type_id(v), raw(v), 0, limit, probs);
    lemma_scalar_doc(v, limit);
}

/// A scalar value survives being cut to its width.
proof fn lemma_scalar_doc(v: GvModel, limit: nat)
    requires
        is_scalar(v),
    ensures
        scalar_doc(type_id(v), raw(v) % pow256(min_value_size(type_id(v)))) == shown_value(
            v,
            limit,
        ),
{
    lemma_powers();
    match v {
        GvModel::I8(x) => assert(signed(twos(x as int) % 0x100, 0x80) == x),
        GvModel::I16(x) => assert(signed(twos(x as int) % 0x1_0000, 0x8000) == x),
        GvModel::I32(x) => assert(signed(twos(x as int) % 0x1_0000_0000, 0x8000_0000) == x),
        GvModel::I64(x) => assert(signed(
            twos(x as int) % 0x1_0000_0000_0000_0000,
            0x8000_0000_0000_0000,
        ) == x),
        GvModel::U8(x) => assert(raw(v) % 0x100 == x),
        GvModel::U16(x) => assert(raw(v) % 0x1_0000 == x),
        GvModel::U32(x) => assert(raw(v) % 0x1_0000_0000 == x),
        GvModel::U64(x) => assert(raw(v) % 0x1_0000_0000_0000_0000 == x),
        GvModel::F32(x) => assert(raw(v) % 0x1_0000_0000 == x),
        GvModel::F64(x) => assert(raw(v) % 0x1_0000_0000_0000_0000 == x),
        GvModel::Bool(x) => assert(raw(v) % 0x100 == raw(v)),
        _ => {},
    }
}

/// A value as it stands behind its type id.
spec fn value_body(v: GvModel) -> Seq<u8> {
    match v {
        GvModel::Str(x) => gguf_string(x),
        GvModel::AStr(x) => le_bytes(8, 4) + le_bytes(x.len(), 8) + gguf_strings(x),
        GvModel::AI32(x) => le_bytes(5, 4) + le_bytes(x.len(), 8) + gguf_i32s(x),
        GvModel::AF32(x) => le_bytes(6, 4) + le_bytes(x.len(), 8) + gguf_u32s(x),
        _ => le_bytes(raw(v), min_value_size(type_id(v))),
    }
}

proof fn lemma_value_split(v: GvModel)
    ensures
        gguf_value(v) == le_bytes(type_id(v) as nat, 4) + value_body(v),
        le_bytes(type_id(v) as nat, 4).len() == 4,
        gguf_value(v).len() == 4 + value_body(v).len(),
{
    lemma_le_bytes_len(type_id(v) as nat, 4);
    assert(gguf_value(v) =~= le_bytes(type_id(v) as nat, 4) + value_body(v));
}

/// A value is read back from behind its type id.
proof fn lemma_body_back(
    b: Seq<u8>,
    flen: nat,
    pos: int,
    v: GvModel,
    limit: nat,
    probs: Seq<Seq<char>>,
)
    requires
        occurs(b, pos, value_body(v)),
        b.len() <= flen,
        value_fits(v),
    ensures
        value_body(v).len() >= 1,
        value_at(b, flen, pos, type_id(v), 0, limit, probs) == Ok::<
            (Doc, int, Seq<Seq<char>>),
            Seq<char>,
        >((shown_value(v, limit), pos + value_body(v).len(), probs)),
{
    match v {
        GvModel::Str(x) => {
            lemma_string_back(b, flen, pos, x);
        },
        GvModel::AStr(x) => {
            lemma_le_bytes_len(8, 4);
            lemma_le_bytes_len(x.len(), 8);
            lemma_strings_back(b, flen, pos, x, limit, probs);
        },
        GvModel::AI32(x) => {
            lemma_le_bytes_len(5, 4);
            lemma_le_bytes_len(x.len(), 8);
            lemma_i32s_back(b, flen, pos, x, limit, probs);
        },
        GvModel::AF32(x) => {
            lemma_le_bytes_len(6, 4);
            lemma_le_bytes_len(x.len(), 8);
            lemma_f32s_back(b, flen, pos, x, limit, probs);
        },
        _ => {
            lemma_le_bytes_len(raw(v), min_value_size(type_id(v)));
            lemma_scalar_value_back(b, flen, pos, v, limit, probs);
        },
    }
}

/// A value is read back.
proof fn lemma_value_back(
    b: Seq<u8>,
    flen: nat,
    pos: int,
    v: GvModel,
    limit: nat,
    probs: Seq<Seq<char>>,
)
    requires
        occurs(b, pos, gguf_value(v)),
        b.len() <= flen,
        value_fits(v),
    ensures
        gguf_value(v).len() >= 5,
        number_at(b, flen, pos, 4) == Ok::<nat, Seq<char>>(type_id(v) as nat),
        value_at(b, flen, pos + 4, type_id(v), 0, limit, probs) == Ok::<
            (Doc, int, Seq<Seq<char>>),
            Seq<char>,
        >((shown_value(v, limit), pos + gguf_value(v).len(), probs)),
{
    lemma_powers();
    lemma_value_split(v);
    lemma_occurs_split(b, pos, le_bytes(type_id(v) as nat, 4), value_body(v));
    lemma_number_back(b, flen, pos, type_id(v) as nat, 4);
    lemma_body_back(b, flen, pos + 4, v, limit, probs);
}

/// One value survives writing and reading: its first four bytes are its type,
/// and what is behind them is read as that type to the last byte, gives the
/// value back and nothing to note.
pub proof fn law_value_reads_back(v: GvModel, limit: nat, probs: Seq<Seq<char>>)
    requires
        value_fits(v),
    ensures
        gguf_value(v).len() >= 5,
        le(gguf_value(v), 0, 4) == type_id(v),
        value_at(
            gguf_value(v).skip(4),
            (gguf_value(v).len() - 4) as nat,
            0,
            type_id(v),
            0,
            limit,
            probs,
        ) == Ok::<(Doc, int, Seq<Seq<char>>), Seq<char>>(
            (shown_value(v, limit), gguf_value(v).len() - 4, probs),
        ),
{
    let w = gguf_value(v);
    let id = le_bytes(type_id(v) as nat, 4);
    let body = value_body(v);
    lemma_powers();
    lemma_value_split(v);
    assert(w.subrange(0, 4) =~= id);
    lemma_le_round_trip(w, 0, type_id(v) as nat, 4);
    assert(w.skip(4) =~= body);
    assert(body.subrange(0, body.len() as int) =~= body);
    lemma_body_back(body, body.len(), 0, v, limit, probs);
}

// ---------------------------------------------------------------------------
// The array limit
// ---------------------------------------------------------------------------

/// Two readings that differ at most in what is shown.
spec fn same_but_shown<V>(
    x: Result<(V, int, Seq<Seq<char>>), Seq<char>>,
    y: Result<(V, int, Seq<Seq<char>>), Seq<char>>,
) -> bool {
    match (x, y) {
        (Ok((_, p, ps)), Ok((_, q, qs))) => p == q && ps == qs,
        (Err(e), Err(f)) => e == f,
        _ => false,
    }
}

proof fn lemma_value_limit(
    b: Seq<u8>,
    flen: nat,
    pos: int,
    ty: u32,
    depth: int,
    l: nat,
    m: nat,
    probs: Seq<Seq<char>>,
)
    ensures
        same_but_shown(
            value_at(b, flen, pos, ty, depth, l, probs),
            value_at(b, flen, pos, ty, depth, m, probs),
        ),
        ty != 9 ==> value_at(b, flen, pos, ty, depth, l, probs) == value_at(
            b,
            flen,
            pos,
            ty,
            depth,
            m,
            probs,
        ),
    decreases MAX_ARRAY_DEPTH - depth, 0nat,
{
    if ty == 9 && depth < MAX_ARRAY_DEPTH {
        if let Ok(elem) = number_at(b, flen, pos, 4) {
            if let Ok(count) = number_at(b, flen, pos + 4, 8) {
                lemma_elements_limit(
                    b,
                    flen,
                    pos + 12,
                    elem as u32,
                    count,
                    depth + 1,
                    l,
                    m,
                    seq![],
                    seq![],
                    probs,
                );
            }
        }
    }
}

proof fn lemma_elements_limit(
    b: Seq<u8>,
    flen: nat,
    pos: int,
    elem: u32,
    k: nat,
    depth: int,
    l: nat,
    m: nat,
    xs: Seq<Doc>,
    ys: Seq<Doc>,
    probs: Seq<Seq<char>>,
)
    ensures
        same_but_shown(
            elements_from(b, flen, pos, elem, k, depth, l, xs, probs),
            elements_from(b, flen, pos, elem, k, depth, m, ys, probs),
        ),
    decreases MAX_ARRAY_DEPTH - depth, 1 + k,
{
    if k > 0 {
        lemma_value_limit(b, flen, pos, elem, depth, l, m, probs);
        if let Ok((v, end, ps)) = value_at(b, flen, pos, elem, depth, l, probs) {
            let (w, _, _) = value_at(b, flen, pos, elem, depth, m, probs)->Ok_0;
            lemma_elements_limit(
                b,
                flen,
                end,
                elem,
                (k - 1) as nat,
                depth,
                l,
                m,
                if xs.len() < l {
                    xs.push(v)
                } else {
                    xs
                },
                if ys.len() < m {
                    ys.push(w)
                } else {
                    ys
                },
                ps,
            );
        }
    }
}

/// Under a limit, the first elements of what a reading without one gives.
proof fn lemma_elements_first(
    b: Seq<u8>,
    flen: nat,
    pos: int,
    elem: u32,
    k: nat,
    depth: int,
    l: nat,
    m: nat,
    ys: Seq<Doc>,
    probs: Seq<Seq<char>>,
)
    requires
        elem != 9,
        ys.len() + k <= m,
    ensures
        elements_from(b, flen, pos, elem, k, depth, m, ys, probs) matches Ok((items, end, ps)) ==> (
        items.len() == ys.len() + k && elements_from(
            b,
            flen,
            pos,
            elem,
            k,
            depth,
            l,
            first_of(ys, l),
            probs,
        ) == Ok::<(Seq<Doc>, int, Seq<Seq<char>>), Seq<char>>((first_of(items, l), end, ps))),
    decreases k,
{
    if k > 0 {
        lemma_value_limit(b, flen, pos, elem, depth, l, m, probs);
        if let Ok((v, end, ps)) = value_at(b, flen, pos, elem, depth, m, probs) {
            let xs = first_of(ys, l);
            let more = if xs.len() < l {
                xs.push(v)
            } else {
                xs
            };
            assert(more =~= first_of(ys.push(v), l));
            lemma_elements_first(b, flen, end, elem, (k - 1) as nat, depth, l, m, ys.push(v), ps);
        }
    }
}

/// The array limit changes what is shown and nothing else: whatever it is, a
/// value ends at the same place, gives rise to the same problems, and fails
/// with the same error.
pub proof fn law_limit_changes_only_what_is_shown(
    b: Seq<u8>,
    flen: nat,
    pos: int,
    ty: u32,
    depth: int,
    l: nat,
    m: nat,
    probs: Seq<Seq<char>>,
)
    ensures
        match (
            value_at(b, flen, pos, ty, depth, l, probs),
            value_at(b, flen, pos, ty, depth, m, probs),
        ) {
            (Ok((_, p, ps)), Ok((_, q, qs))) => p == q && ps == qs,
            (Err(e), Err(f)) => e == f,
            _ => false,
        },
{
    lemma_value_limit(b, flen, pos, ty, depth, l, m, probs);
}

/// An array of anything but arrays that is shown whole under one limit is
/// shown under any other as that limit has it: whole when it is no longer, and
/// otherwise by its element type, its length and its first elements.
pub proof fn law_limit_shows_first_elements(
    b: Seq<u8>,
    flen: nat,
    pos: int,
    depth: int,
    l: nat,
    m: nat,
    probs: Seq<Seq<char>>,
    items: Seq<Doc>,
    end: int,
    ps: Seq<Seq<char>>,
)
    requires
        le(b, pos, 4) != 9,
        0 <= pos,
        value_at(b, flen, pos, 9, depth, m, probs) == Ok::<
            (Doc, int, Seq<Seq<char>>),
            Seq<char>,
        >((Doc::Arr(items), end, ps)),
    ensures
        value_at(b, flen, pos, 9, depth, l, probs) == Ok::<
            (Doc, int, Seq<Seq<char>>),
            Seq<char>,
        >((shown_array(le(b, pos, 4) as u32, items, l), end, ps)),
{
    let elem = number_at(b, flen, pos, 4)->Ok_0;
    let count = number_at(b, flen, pos + 4, 8)->Ok_0;
    lemma_le_bound(b, pos, 4);
    lemma_powers();
    assert(count <= m);
    lemma_elements_first(
        b,
        flen,
        pos + 12,
        elem as u32,
        count,
        depth + 1,
        l,
        m,
        seq![],
        probs,
    );
    assert(first_of(seq![], l) =~= seq![]);
}

// ---------------------------------------------------------------------------
// Metadata
// ---------------------------------------------------------------------------

/// The first `n` metadata entries as the reader shows them.
pub open spec fn shown_metadata(kvs: Seq<(Seq<char>, GvModel)>, n: nat, limit: nat) -> Seq<
    (Seq<char>, Doc),
> {
    Seq::new(n, |i: int| (kvs[i].0, shown_value(kvs[i].1, limit)))
}

/// Entries whose lengths fit in their fields, under different keys.
pub open spec fn metadata_fits(kvs: Seq<(Seq<char>, GvModel)>) -> bool {
    &&& kvs.len() <= u64::MAX
    &&& forall|i: int|
        0 <= i < kvs.len() ==> text_fits((#[trigger] kvs[i]).0) && value_fits(kvs[i].1)
    &&& forall|i: int, j: int| 0 <= i < j < kvs.len() ==> (#[trigger] kvs[i]).0 != (#[trigger]
    kvs[j]).0
}

/// Metadata entries are read back, in order and with nothing to note.
proof fn lemma_metadata_back(
    b: Seq<u8>,
    flen: nat,
    pos: int,
    kvs: Seq<(Seq<char>, GvModel)>,
    n: nat,
    more: nat,
    limit: nat,
)
    requires
        n <= kvs.len(),
        metadata_fits(kvs),
        occurs(b, pos, gguf_metadata(kvs, n)),
        b.len() <= flen,
    ensures
        13 * n <= gguf_metadata(kvs, n).len(),
        metadata_from(b, flen, pos, n + more, limit, seq![], seq![]) == metadata_from(
            b,
            flen,
            pos + gguf_metadata(kvs, n).len(),
            more,
            limit,
            shown_metadata(kvs, n, limit),
            seq![],
        ),
    decreases n,
{
    if n == 0 {
        assert(shown_metadata(kvs, 0, limit) =~= seq![]);
    } else {
        let m = (n - 1) as nat;
        let (key, v) = kvs[n - 1];
        assert(text_fits(kvs[n - 1].0) && value_fits(kvs[n - 1].1));
        let before = gguf_metadata(kvs, m);
        lemma_occurs_split(b, pos, before + gguf_string(key), gguf_value(v));
        lemma_occurs_split(b, pos, before, gguf_string(key));
        lemma_metadata_back(b, flen, pos, kvs, m, more + 1, limit);
        let q = pos + before.len();
        lemma_string_back(b, flen, q, key);
        lemma_value_back(b, flen, q + gguf_string(key).len(), v, limit, seq![]);
        let meta = shown_metadata(kvs, m, limit);
        assert(!has_key(meta, key)) by {
            assert forall|i: int| 0 <= i < meta.len() implies (#[trigger] meta[i]).0 != key by {
                assert(kvs[i].0 != kvs[n - 1].0);
            }
        }
        assert(meta.push((key, shown_value(v, limit))) =~= shown_metadata(kvs, n, limit));
        assert(m + (more + 1) == n + more);
        let end = q + gguf_string(key).len() + gguf_value(v).len();
        assert(entry_at(b, flen, q, limit, meta, seq![]) == Ok::<
            (int, Seq<(Seq<char>, Doc)>, Seq<Seq<char>>),
            Seq<char>,
        >((end, shown_metadata(kvs, n, limit), seq![])));
    }
}

// ---------------------------------------------------------------------------
// The tensor table
// ---------------------------------------------------------------------------

proof fn lemma_dims_back(b: Seq<u8>, flen: nat, pos: int, shape: Seq<u64>, more: nat)
    requires
        occurs(b, pos, gguf_dims(shape)),
        b.len() <= flen,
    ensures
        dims_from(b, flen, pos, shape.len() + more, seq![]) == dims_from(
            b,
            flen,
            pos + gguf_dims(shape).len(),
            more,
            shape,
        ),
    decreases shape.len(),
{
    if shape.len() == 0 {
        assert(shape =~= seq![]);
    } else {
        let s = shape.drop_last();
        lemma_powers();
        lemma_occurs_split(b, pos, gguf_dims(s), le_bytes(shape.last() as nat, 8));
        lemma_dims_back(b, flen, pos, s, more + 1);
        let q = pos + gguf_dims(s).len();
        lemma_number_back(b, flen, q, shape.last() as nat, 8);
        assert(s.push(shape.last()) =~= shape);
        assert(s.len() + (more + 1) == shape.len() + more);
        assert(dims_from(b, flen, q, more + 1, s) == dims_from(b, flen, q + 8, more, shape));
    }
}

/// The problems that the first `n` entries of the table add.
pub open spec fn table_problems(ts: Seq<GgufTensor>, n: nat) -> Seq<Seq<char>>
    decreases n,
{
    if n == 0 || n > ts.len() {
        seq![]
    } else {
        type_problems(
            ts[n - 1].name,
            ts[n - 1].shape,
            ts[n - 1].id,
            table_problems(ts, (n - 1) as nat),
        )
    }
}

/// The first `n` tensors as the reader describes them.
pub open spec fn described_tensors(ts: Seq<GgufTensor>, n: nat, a: nat) -> Seq<TensorModel> {
    Seq::new(
        n,
        |i: int| described_tensor(ts[i].name, ts[i].shape, ts[i].id, gguf_start(ts, i as nat, a)),
    )
}

/// Names and shapes that fit in the table.
pub open spec fn table_fits(ts: Seq<GgufTensor>) -> bool {
    &&& ts.len() <= u64::MAX
    &&& forall|i: int|
        0 <= i < ts.len() ==> text_fits((#[trigger] ts[i]).name) && ts[i].shape.len() <= MAX_DIMS
}

/// One entry of the table is read back.
proof fn lemma_info_back(
    b: Seq<u8>,
    flen: nat,
    pos: int,
    t: GgufTensor,
    offset: nat,
    i: nat,
    ts: Seq<TensorModel>,
    probs: Seq<Seq<char>>,
)
    requires
        occurs(b, pos, gguf_info(t, offset)),
        b.len() <= flen,
        text_fits(t.name),
        t.shape.len() <= MAX_DIMS,
        offset <= u64::MAX,
    ensures
        24 <= gguf_info(t, offset).len(),
        tensor_at(b, flen, pos, i, ts, probs) == Ok::<
            (int, Seq<TensorModel>, Seq<Seq<char>>),
            Seq<char>,
        >(
            (
                pos + gguf_info(t, offset).len(),
                ts.push(described_tensor(t.name, t.shape, t.id, offset)),
                type_problems(t.name, t.shape, t.id, probs),
            ),
        ),
{
    lemma_powers();
    let name = gguf_string(t.name);
    let n = le_bytes(t.shape.len(), 4);
    let dims = gguf_dims(t.shape);
    let id = le_bytes(t.id as nat, 4);
    let off = le_bytes(offset, 8);
    lemma_occurs_split(b, pos, name + n + dims + id, off);
    lemma_occurs_split(b, pos, name + n + dims, id);
    lemma_occurs_split(b, pos, name + n, dims);
    lemma_occurs_split(b, pos, name, n);
    lemma_string_back(b, flen, pos, t.name);
    let p = pos + name.len();
    lemma_number_back(b, flen, p, t.shape.len(), 4);
    lemma_dims_back(b, flen, p + 4, t.shape, 0);
    let q = p + 4 + dims.len();
    lemma_number_back(b, flen, q, t.id as nat, 4);
    lemma_number_back(b, flen, q + 4, offset, 8);
}

proof fn lemma_infos_back(
    b: Seq<u8>,
    flen: nat,
    pos: int,
    ts: Seq<GgufTensor>,
    n: nat,
    a: nat,
)
    requires
        n <= ts.len(),
        table_fits(ts),
        0 < a,
        gguf_end(ts, ts.len(), a) <= u64::MAX,
        occurs(b, pos, gguf_infos(ts, n, a)),
        b.len() <= flen,
    ensures
        24 * n <= gguf_infos(ts, n, a).len(),
        tensors_from(b, flen, pos, 0, ts.len(), seq![], seq![]) == tensors_from(
            b,
            flen,
            pos + gguf_infos(ts, n, a).len(),
            n,
            ts.len(),
            described_tensors(ts, n, a),
            table_problems(ts, n),
        ),
    decreases n,
{
    if n == 0 {
        assert(described_tensors(ts, 0, a) =~= seq![]);
    } else {
        let m = (n - 1) as nat;
        let t = ts[n - 1];
        let before = gguf_infos(ts, m, a);
        let offset = gguf_start(ts, m, a);
        lemma_gguf_end_monotone(ts, m, ts.len(), a);
        lemma_occurs_split(b, pos, before, gguf_info(t, offset));
        lemma_infos_back(b, flen, pos, ts, m, a);
        let done = described_tensors(ts, m, a);
        assert(text_fits(t.name) && t.shape.len() <= MAX_DIMS);
        lemma_info_back(
            b,
            flen,
            pos + before.len(),
            t,
            offset,
            m,
            done,
            table_problems(ts, m),
        );
        assert(done.push(described_tensor(t.name, t.shape, t.id, offset)) =~= described_tensors(
            ts,
            n,
            a,
        ));
    }
}

/// The reader and the writer agree on where the data ends.
proof fn lemma_data_end(ts: Seq<GgufTensor>, n: nat, a: nat)
    requires
        n <= ts.len(),
        0 < a,
        forall|i: int| 0 <= i < ts.len() ==> numel64((#[trigger] ts[i]).shape) is Some,
        gguf_end(ts, n, a) <= u64::MAX,
    ensures
        data_end(described_tensors(ts, n, a)) == gguf_end(ts, n, a),
        forall|i: int|
            0 <= i < n ==> (#[trigger] described_tensors(ts, n, a)[i]).bytes == gguf_bytes(ts[i]),
    decreases n,
{
    let ds = described_tensors(ts, n, a);
    if n > 0 {
        let m = (n - 1) as nat;
        let t = ts[n - 1];
        lemma_gguf_end_monotone(ts, m, n, a);
        lemma_data_end(ts, m, a);
        lemma_ceil_div(gguf_end(ts, m, a), a);
        assert(ds.drop_last() =~= described_tensors(ts, m, a));
        assert(numel64(t.shape) is Some);
        lemma_numel64_product(t.shape);
        assert(ds.last().bytes == gguf_bytes(t));
        assert(ds.last().offset == gguf_start(ts, m, a));
        assert forall|i: int| 0 <= i < n implies (#[trigger] ds[i]).bytes == gguf_bytes(ts[i]) by {
            if i < m {
                assert(ds[i] == described_tensors(ts, m, a)[i]);
            }
        }
    }
}

// ---------------------------------------------------------------------------
// Whole files
// ---------------------------------------------------------------------------

/// The fixed start of a header.
spec fn gguf_head(tensors: nat, keys: nat) -> Seq<u8> {
    seq![0x47u8, 0x47, 0x55, 0x46] + le_bytes(3, 4) + le_bytes(tensors, 8) + le_bytes(keys, 8)
}

proof fn lemma_head_back(b: Seq<u8>, flen: nat, tensors: nat, keys: nat)
    requires
        occurs(b, 0, gguf_head(tensors, keys)),
        b.len() <= flen,
        tensors <= u64::MAX,
        keys <= u64::MAX,
        24 + 24 * tensors + 13 * keys <= flen,
    ensures
        gguf_head(tensors, keys).len() == 24,
        head_of(b, flen) == Ok::<(nat, nat, nat), Seq<char>>((3, tensors, keys)),
{
    lemma_powers();
    let magic = seq![0x47u8, 0x47, 0x55, 0x46];
    lemma_le_bytes_len(3, 4);
    lemma_le_bytes_len(tensors, 8);
    lemma_le_bytes_len(keys, 8);
    lemma_occurs_split(b, 0, magic + le_bytes(3, 4) + le_bytes(tensors, 8), le_bytes(keys, 8));
    lemma_occurs_split(b, 0, magic + le_bytes(3, 4), le_bytes(tensors, 8));
    lemma_occurs_split(b, 0, magic, le_bytes(3, 4));
    assert(b.take(4) =~= b.subrange(0, 4));
    lemma_number_back(b, flen, 4, 3, 4);
    lemma_number_back(b, flen, 8, tensors, 8);
    lemma_number_back(b, flen, 16, keys, 8);
}

/// Padding leads to the next multiple.
proof fn lemma_padding(n: nat, a: nat)
    requires
        0 < a,
    ensures
        n + padding(n, a) == ceil_div(n, a) * a,
{
    lemma_ceil_div(n, a);
    let q = n / a;
    let r = n % a;
    assert(n == q * a + r) by (nonlinear_arith)
        requires
            q == n / a,
            r == n % a,
            0 < a,
    ;
    if r != 0 {
        assert((q + 1) * a == q * a + a) by (nonlinear_arith);
    }
}

/// The metadata asks for the alignment `a`, by naming it or by naming none.
pub open spec fn asks_for(meta: Seq<(Seq<char>, Doc)>, a: nat) -> bool {
    &&& alignment_of(meta) == a
    &&& first_member(meta, "general.alignment"@, 0) matches Some(v) ==> good_alignment(v)
}

/// What is wrong with the data of a file cut down to `flen` bytes, after what
/// `probs` already says: nothing more when it is whole, and otherwise exactly
/// the bytes that are missing.
pub open spec fn cut_short(
    flen: nat,
    start: nat,
    end: nat,
    probs: Seq<Seq<char>>,
) -> Seq<Seq<char>> {
    if flen == start + end {
        probs
    } else {
        probs.push(
            "tensor data needs "@ + dec(end) + " bytes but only "@ + dec(
                if flen < start {
                    0
                } else {
                    (flen - start) as nat
                },
            ) + " are present ("@ + dec((start + end - flen) as nat)
                + " missing) — truncated file"@,
        )
    }
}

/// Where the parts of the header stand.
proof fn lemma_header_parts(
    kvs: Seq<(Seq<char>, GvModel)>,
    ts: Seq<GgufTensor>,
    a: nat,
    k: nat,
)
    requires
        gguf_header(kvs, ts, a).len() <= k <= gguf_file(kvs, ts, a).len(),
    ensures
        ({
            let b = gguf_file(kvs, ts, a).take(k as int);
            let md = gguf_metadata(kvs, kvs.len());
            let infos = gguf_infos(ts, ts.len(), a);
            &&& occurs(b, 0, gguf_head(ts.len(), kvs.len()))
            &&& occurs(b, 24, md)
            &&& occurs(b, 24 + md.len() as int, infos)
            &&& gguf_header(kvs, ts, a).len() == 24 + md.len() + infos.len()
        }),
{
    let b = gguf_file(kvs, ts, a).take(k as int);
    let header = gguf_header(kvs, ts, a);
    let head = gguf_head(ts.len(), kvs.len());
    let md = gguf_metadata(kvs, kvs.len());
    let infos = gguf_infos(ts, ts.len(), a);
    assert(header == head + md + infos);
    assert(b.subrange(0, header.len() as int) =~= header);
    lemma_occurs_split(b, 0, head + md, infos);
    lemma_occurs_split(b, 0, head, md);
    lemma_le_bytes_len(3, 4);
    lemma_le_bytes_len(ts.len(), 8);
    lemma_le_bytes_len(kvs.len(), 8);
}

/// The header, from any beginning of the file that holds it.
proof fn lemma_header_back(
    kvs: Seq<(Seq<char>, GvModel)>,
    ts: Seq<GgufTensor>,
    a: nat,
    k: nat,
    flen: nat,
    path: Seq<char>,
    limit: nat,
)
    requires
        metadata_fits(kvs),
        table_fits(ts),
        0 < a,
        gguf_end(ts, ts.len(), a) <= u64::MAX,
        asks_for(shown_metadata(kvs, kvs.len(), limit), a),
        gguf_header(kvs, ts, a).len() <= k <= flen <= gguf_file(kvs, ts, a).len(),
    ensures
        parse_model(gguf_file(kvs, ts, a).take(k as int), flen, path, limit) == Ok::<
            ReportModel,
            Seq<char>,
        >(
            report_of(
                path,
                flen,
                3,
                gguf_header(kvs, ts, a).len(),
                shown_metadata(kvs, kvs.len(), limit),
                described_tensors(ts, ts.len(), a),
                table_problems(ts, ts.len()),
            ),
        ),
{
    let b = gguf_file(kvs, ts, a).take(k as int);
    let md = gguf_metadata(kvs, kvs.len());
    let meta = shown_metadata(kvs, kvs.len(), limit);
    lemma_header_parts(kvs, ts, a, k);
    lemma_metadata_back(b, flen, 24, kvs, kvs.len(), 0, limit);
    let p: int = 24 + md.len() as int;
    lemma_infos_back(b, flen, p, ts, ts.len(), a);
    lemma_head_back(b, flen, ts.len(), kvs.len());
    assert(alignment_problems(meta, seq![]) =~= seq![]);
    assert(metadata_from(b, flen, 24, kvs.len(), limit, seq![], seq![]) == Ok::<
        (int, Seq<(Seq<char>, Doc)>, Seq<Seq<char>>),
        Seq<char>,
    >((p, meta, seq![])));
}

/// What is written is read back: every metadata entry under its key and in
/// order, an array beyond `limit` by its first elements; every tensor with its
/// type, shape and offset. Data starts at the first multiple of the alignment
/// after the header, every tensor in it at a multiple too, and the file ends
/// where the last one does. The file may be cut anywhere after its header, to
/// `flen` bytes: whole, nothing is wrong with it but what its tensor table
/// itself gives rise to; cut short, one more problem names exactly the bytes
/// that are missing. Of what is left of it only the header has to be at hand:
/// any `k` of its bytes do, if they hold the header.
/// Left out are metadata with two entries under one key or another alignment
/// than the data has, tensors of more dimensions than the format allows, and
/// files beyond `u64`.
pub proof fn law_gguf_reads_back(
    kvs: Seq<(Seq<char>, GvModel)>,
    ts: Seq<GgufTensor>,
    a: nat,
    k: nat,
    flen: nat,
    path: Seq<char>,
    limit: nat,
)
    requires
        gguf_writable(ts, a),
        metadata_fits(kvs),
        table_fits(ts),
        asks_for(shown_metadata(kvs, kvs.len(), limit), a),
        gguf_file(kvs, ts, a).len() <= u64::MAX,
        gguf_header(kvs, ts, a).len() <= k <= flen <= gguf_file(kvs, ts, a).len(),
    ensures
        ({
            let f = gguf_file(kvs, ts, a);
            let n = gguf_header(kvs, ts, a).len();
            let start = aligned(n, a);
            let end = gguf_end(ts, ts.len(), a);
            let r = report_of(
                path,
                flen,
                3,
                n,
                shown_metadata(kvs, kvs.len(), limit),
                described_tensors(ts, ts.len(), a),
                table_problems(ts, ts.len()),
            );
            &&& parse_model(f.take(k as int), flen, path, limit) == Ok::<
                ReportModel,
                Seq<char>,
            >(r)
            &&& start % a == 0
            &&& n <= start < n + a
            &&& start + end == f.len()
            &&& r.data_bytes == end
            &&& r.problems == cut_short(flen, start, end, table_problems(ts, ts.len()))
        }),
        forall|i: int|
            0 <= i < ts.len() ==> (#[trigger] described_tensors(ts, ts.len(), a)[i]).bytes
                == gguf_bytes(ts[i]) && described_tensors(ts, ts.len(), a)[i].offset % a == 0,
{
    let f = gguf_file(kvs, ts, a);
    let n = gguf_header(kvs, ts, a).len();
    let end = gguf_end(ts, ts.len(), a);
    lemma_header_back(kvs, ts, a, k, flen, path, limit);
    lemma_data_end(ts, ts.len(), a);
    lemma_padding(n, a);
    lemma_ceil_div(n, a);
    assert(f.len() == n + padding(n, a) + end);
    let ds = described_tensors(ts, ts.len(), a);
    assert forall|i: int| 0 <= i < ts.len() implies (#[trigger] ds[i]).bytes == gguf_bytes(ts[i])
        && ds[i].offset % a == 0 by {
        lemma_ceil_div(gguf_end(ts, i as nat, a), a);
    }
}

/// A table of known types whose rows fill whole blocks gives rise to no
/// problem.
pub proof fn law_sound_table_has_no_problem(ts: Seq<GgufTensor>, n: nat)
    requires
        n <= ts.len(),
        forall|i: int|
            0 <= i < ts.len() ==> (ggml_type((#[trigger] ts[i]).id) matches Some((_, len, _))
                && first_dim(ts[i].shape) % len == 0),
    ensures
        table_problems(ts, n) == Seq::<Seq<char>>::empty(),
    decreases n,
{
    if n > 0 {
        law_sound_table_has_no_problem(ts, (n - 1) as nat);
        assert(ggml_type(ts[n - 1].id) is Some);
    }
}

} // verus!
