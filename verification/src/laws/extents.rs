//! How far the data of a checkpoint reach, and what the header's entries add
//! to the report one by one.

use vstd::prelude::*;
use crate::gguf;
use crate::json::{member, Doc};
use crate::report::{product, ReportModel, TensorModel};
use crate::safetensors::{checked_numel, dims_of, dtype_bits, gathered, packed_bytes, parse_model, report_of, shape_text, size_note, tensor_entry};
use crate::text::{dec, lower};

verus! {

// ---------------------------------------------------------------------------
// The furthest end
// ---------------------------------------------------------------------------

/// `end` is the largest end of a tensor, or 0 when there is none.
pub open spec fn furthest(ts: Seq<TensorModel>, end: nat) -> bool {
    &&& forall|i: int| 0 <= i < ts.len() ==> (#[trigger] ts[i]).offset + ts[i].bytes <= end
    &&& ts.len() == 0 ==> end == 0
    &&& ts.len() > 0 ==> exists|i: int|
        0 <= i < ts.len() && (#[trigger] ts[i]).offset + ts[i].bytes == end
}

proof fn lemma_furthest_more(ts: Seq<TensorModel>, end: nat, t: TensorModel, last: nat)
    requires
        furthest(ts, end),
        t.offset + t.bytes == last,
    ensures
        last >= end ==> furthest(ts.push(t), last),
        last <= end && ts.len() > 0 ==> furthest(ts.push(t), end),
{
    let more = ts.push(t);
    assert(more[ts.len() as int] == t);
    if last >= end {
        assert forall|i: int| 0 <= i < more.len() implies (#[trigger] more[i]).offset
            + more[i].bytes <= last by {
            if i < ts.len() {
                assert(more[i] == ts[i]);
            }
        }
    }
    if last <= end && ts.len() > 0 {
        let k = choose|i: int| 0 <= i < ts.len() && (#[trigger] ts[i]).offset + ts[i].bytes == end;
        assert(more[k] == ts[k]);
        assert forall|i: int| 0 <= i < more.len() implies (#[trigger] more[i]).offset
            + more[i].bytes <= end by {
            if i < ts.len() {
                assert(more[i] == ts[i]);
            }
        }
    }
}

/// Two sequences with the same tensors in any order reach equally far.
pub proof fn law_furthest_is_one(ts: Seq<TensorModel>, us: Seq<TensorModel>, x: nat, y: nat)
    requires
        furthest(ts, x),
        furthest(us, y),
        ts.to_multiset() == us.to_multiset(),
    ensures
        x == y,
{
    ts.to_multiset_ensures();
    us.to_multiset_ensures();
    if ts.len() > 0 {
        assert(us.len() > 0);
        let i = choose|i: int| 0 <= i < ts.len() && (#[trigger] ts[i]).offset + ts[i].bytes == x;
        let j = choose|j: int| 0 <= j < us.len() && (#[trigger] us[j]).offset + us[j].bytes == y;
        assert(ts.contains(ts[i]));
        assert(us.contains(us[j]));
        assert(us.to_multiset().count(ts[i]) > 0);
        assert(ts.to_multiset().count(us[j]) > 0);
        let k = choose|k: int| 0 <= k < us.len() && us[k] == ts[i];
        let l = choose|l: int| 0 <= l < ts.len() && ts[l] == us[j];
        assert(us[k].offset + us[k].bytes <= y);
        assert(ts[l].offset + ts[l].bytes <= x);
    } else {
        assert(us.len() == 0);
    }
}

proof fn lemma_gathered_end(ms: Seq<(Seq<char>, Doc)>)
    ensures
        furthest(gathered(ms).tensors, gathered(ms).end),
    decreases ms.len(),
{
    if ms.len() > 0 {
        let g = gathered(ms.drop_last());
        lemma_gathered_end(ms.drop_last());
        if ms.last().0 != "__metadata__"@ {
            if let Ok((t, end, note)) = tensor_entry(ms.last().0, ms.last().1) {
                lemma_furthest_more(g.tensors, g.end, t, end);
            }
        }
    }
}

/// The data of a safetensors file reach to the end of the furthest tensor,
/// wherever in the header that tensor stands.
pub proof fn law_data_reach_to_furthest(b: Seq<u8>, flen: nat, path: Seq<char>)
    ensures
        parse_model(b, flen, path) matches Ok(r) ==> furthest(r.tensors, r.data_bytes),
{
    if let Ok(r) = parse_model(b, flen, path) {
        let n = crate::bytes::le(b, 0, 8);
        if let Ok(Doc::Obj(ms)) = crate::json::parse_doc(b.subrange(8, 8 + n as int)) {
            lemma_gathered_end(ms);
        }
    }
}

/// So do the data of a GGUF file, unless an end is beyond 64 bits.
pub proof fn law_model_data_reach_to_furthest(
    b: Seq<u8>,
    flen: nat,
    path: Seq<char>,
    limit: nat,
)
    ensures
        gguf::parse_model(b, flen, path, limit) matches Ok(r) ==> ((forall|i: int|
            0 <= i < r.tensors.len() ==> (#[trigger] r.tensors[i]).offset + r.tensors[i].bytes
                <= u64::MAX) ==> furthest(r.tensors, r.data_bytes)),
{
    if let Ok(r) = gguf::parse_model(b, flen, path, limit) {
        if forall|i: int|
            0 <= i < r.tensors.len() ==> (#[trigger] r.tensors[i]).offset + r.tensors[i].bytes
                <= u64::MAX {
            lemma_data_end(r.tensors);
        }
    }
}

proof fn lemma_data_end(ts: Seq<TensorModel>)
    requires
        forall|i: int|
            0 <= i < ts.len() ==> (#[trigger] ts[i]).offset + ts[i].bytes <= u64::MAX,
    ensures
        furthest(ts, gguf::data_end(ts)),
    decreases ts.len(),
{
    if ts.len() > 0 {
        let us = ts.drop_last();
        assert forall|i: int| 0 <= i < us.len() implies (#[trigger] us[i]).offset + us[i].bytes
            <= u64::MAX by {
            assert(us[i] == ts[i]);
        }
        lemma_data_end(us);
        let t = ts.last();
        assert(ts[ts.len() - 1] == t);
        lemma_furthest_more(us, gguf::data_end(us), t, t.offset + t.bytes);
        assert(us.push(t) =~= ts);
    }
}

// ---------------------------------------------------------------------------
// Entries one by one
// ---------------------------------------------------------------------------

/// The tensors and the problems of two parts of a header follow each other,
/// and the data reach as far as those of the part that reaches further.
pub proof fn law_entries_add_up(ms: Seq<(Seq<char>, Doc)>, ns: Seq<(Seq<char>, Doc)>)
    ensures
        gathered(ms + ns).tensors == gathered(ms).tensors + gathered(ns).tensors,
        gathered(ms + ns).problems == gathered(ms).problems + gathered(ns).problems,
        gathered(ms + ns).end >= gathered(ms).end,
        gathered(ms + ns).end >= gathered(ns).end,
        gathered(ms + ns).end == gathered(ms).end || gathered(ms + ns).end == gathered(ns).end,
    decreases ns.len(),
{
    let all = ms + ns;
    if ns.len() == 0 {
        assert(all =~= ms);
        assert(gathered(ms).tensors + gathered(ns).tensors =~= gathered(ms).tensors);
        assert(gathered(ms).problems + gathered(ns).problems =~= gathered(ms).problems);
    } else {
        assert(all.drop_last() =~= ms + ns.drop_last());
        law_entries_add_up(ms, ns.drop_last());
        assert(gathered(all).tensors =~= gathered(ms).tensors + gathered(ns).tensors);
        assert(gathered(all).problems =~= gathered(ms).problems + gathered(ns).problems);
    }
}

proof fn lemma_taken_out(ns: Seq<(Seq<char>, Doc)>, j: int)
    requires
        0 <= j < ns.len(),
    ensures
        ({
            let g = gathered(ns);
            let rest = gathered(ns.remove(j));
            let one = gathered(seq![ns[j]]);
            &&& g.tensors.to_multiset() == rest.tensors.to_multiset().add(
                one.tensors.to_multiset(),
            )
            &&& g.problems.to_multiset() == rest.problems.to_multiset().add(
                one.problems.to_multiset(),
            )
        }),
        ns.to_multiset() == ns.remove(j).to_multiset().insert(ns[j]),
{
    let a = ns.take(j);
    let x = seq![ns[j]];
    let c = ns.skip(j + 1);
    assert(ns =~= a + (x + c));
    assert(ns.remove(j) =~= a + c);
    law_entries_add_up(a, x + c);
    law_entries_add_up(x, c);
    law_entries_add_up(a, c);
    lemma_sum3(gathered(a).tensors, gathered(x).tensors, gathered(c).tensors);
    lemma_sum3(gathered(a).problems, gathered(x).problems, gathered(c).problems);
    ns.to_multiset_ensures();
    assert(ns.remove(j).to_multiset() == ns.to_multiset().remove(ns[j]));
    assert(ns.contains(ns[j]));
    assert(ns.to_multiset().count(ns[j]) > 0);
    assert(ns.to_multiset() =~= ns.remove(j).to_multiset().insert(ns[j]));
}

proof fn lemma_sum3<A>(a: Seq<A>, x: Seq<A>, c: Seq<A>)
    ensures
        (a + (x + c)).to_multiset() == (a + c).to_multiset().add(x.to_multiset()),
{
    vstd::seq_lib::lemma_multiset_commutative(a, x + c);
    vstd::seq_lib::lemma_multiset_commutative(x, c);
    vstd::seq_lib::lemma_multiset_commutative(a, c);
    assert((a + (x + c)).to_multiset() =~= (a + c).to_multiset().add(x.to_multiset()));
}

/// The order of the header's entries decides nothing but the order in which
/// things are listed: the same tensors and problems come out, and the data
/// reach equally far.
pub proof fn law_order_of_entries(ms: Seq<(Seq<char>, Doc)>, ns: Seq<(Seq<char>, Doc)>)
    requires
        ms.to_multiset() == ns.to_multiset(),
    ensures
        gathered(ms).tensors.to_multiset() == gathered(ns).tensors.to_multiset(),
        gathered(ms).problems.to_multiset() == gathered(ns).problems.to_multiset(),
        gathered(ms).end == gathered(ns).end,
{
    lemma_same_entries(ms, ns);
    lemma_gathered_end(ms);
    lemma_gathered_end(ns);
    law_furthest_is_one(gathered(ms).tensors, gathered(ns).tensors, gathered(ms).end, gathered(
        ns,
    ).end);
}

proof fn lemma_same_entries(ms: Seq<(Seq<char>, Doc)>, ns: Seq<(Seq<char>, Doc)>)
    requires
        ms.to_multiset() == ns.to_multiset(),
    ensures
        gathered(ms).tensors.to_multiset() == gathered(ns).tensors.to_multiset(),
        gathered(ms).problems.to_multiset() == gathered(ns).problems.to_multiset(),
    decreases ms.len(),
{
    ms.to_multiset_ensures();
    ns.to_multiset_ensures();
    assert(ms.len() == ns.len());
    if ms.len() == 0 {
        assert(ms =~= ns);
    } else {
        let e = ms[0];
        assert(ms.contains(e));
        assert(ns.to_multiset().count(e) > 0);
        let j = choose|j: int| 0 <= j < ns.len() && ns[j] == e;
        lemma_taken_out(ms, 0);
        lemma_taken_out(ns, j);
        assert(ms.remove(0).to_multiset() =~= ns.remove(j).to_multiset()) by {
            assert(ms.remove(0).to_multiset() =~= ms.to_multiset().remove(e));
            assert(ns.remove(j).to_multiset() =~= ns.to_multiset().remove(e));
        }
        lemma_same_entries(ms.remove(0), ns.remove(j));
    }
}

/// So the report on a file whose header lists the same entries in another
/// order gives the same sizes, and is as long.
pub proof fn law_order_of_report(
    ms: Seq<(Seq<char>, Doc)>,
    ns: Seq<(Seq<char>, Doc)>,
    path: Seq<char>,
    flen: nat,
    n: nat,
)
    requires
        ms.to_multiset() == ns.to_multiset(),
    ensures
        report_of(path, flen, n, ms).data_bytes == report_of(path, flen, n, ns).data_bytes,
        report_of(path, flen, n, ms).header_bytes == report_of(path, flen, n, ns).header_bytes,
        report_of(path, flen, n, ms).tensors.to_multiset() == report_of(
            path,
            flen,
            n,
            ns,
        ).tensors.to_multiset(),
        report_of(path, flen, n, ms).problems.to_multiset() == report_of(
            path,
            flen,
            n,
            ns,
        ).problems.to_multiset(),
{
    law_order_of_entries(ms, ns);
    let p = gathered(ms).problems;
    let q = gathered(ns).problems;
    p.to_multiset_ensures();
    q.to_multiset_ensures();
    let e = gathered(ms).end;
    let x = crate::safetensors::size_problems(flen, 8 + n, e, p);
    let y = crate::safetensors::size_problems(flen, 8 + n, e, q);
    if x != p {
        assert(x == p.push(x.last()));
        assert(y == q.push(x.last()));
    }
}

// ---------------------------------------------------------------------------
// Sizes
// ---------------------------------------------------------------------------

/// A tensor of that type is in order just when its bytes are as many as its
/// elements take at `bits` bits each, the last byte filled up.
pub open spec fn takes_bits(
    name: Seq<char>,
    dtype: Seq<char>,
    shape: Seq<u64>,
    stored: nat,
    bits: nat,
) -> bool {
    let n = product(shape);
    n * 64 <= u128::MAX && all_partial_fit(shape) ==> {
        &&& (size_note(name, dtype, shape, stored) is None <==> n * bits <= 8 * stored < n * bits
            + 8)
        &&& size_note(name, dtype, shape, stored) is Some ==> exists|need: nat|
            n * bits <= 8 * need < n * bits + 8 && size_note(name, dtype, shape, stored) == Some(
                "tensor '"@ + name + "': "@ + dtype + " "@ + shape_text(shape)
                    + " needs "@ + #[trigger] dec(need) + " bytes but data_offsets span "@ + dec(
                    stored,
                ),
            )
    }
}

/// No product of the first dimensions leaves 128 bits.
pub open spec fn all_partial_fit(shape: Seq<u64>) -> bool {
    forall|k: int| 0 <= k <= shape.len() ==> #[trigger] product(shape.take(k)) <= u128::MAX
}

proof fn lemma_numel_fits(shape: Seq<u64>)
    requires
        all_partial_fit(shape),
    ensures
        checked_numel(shape) == Some(product(shape)),
    decreases shape.len(),
{
    assert(shape.take(shape.len() as int) =~= shape);
    assert(product(shape) <= u128::MAX);
    if shape.len() > 0 {
        let s = shape.drop_last();
        assert forall|k: int| 0 <= k <= s.len() implies #[trigger] product(s.take(k))
            <= u128::MAX by {
            assert(s.take(k) =~= shape.take(k));
        }
        lemma_numel_fits(s);
    }
}

proof fn lemma_takes_bits(
    name: Seq<char>,
    dtype: Seq<char>,
    shape: Seq<u64>,
    stored: nat,
    bits: nat,
)
    requires
        dtype_bits(dtype) == Some(bits),
        1 <= bits <= 64,
    ensures
        takes_bits(name, dtype, shape, stored, bits),
{
    let n = product(shape);
    if n * 64 <= u128::MAX && all_partial_fit(shape) {
        lemma_numel_fits(shape);
        assert(n * bits <= n * 64) by (nonlinear_arith)
            requires
                bits <= 64,
        ;
        let need = packed_bytes(n, bits);
        assert(n * bits <= 8 * need < n * bits + 8);
        if size_note(name, dtype, shape, stored) is Some {
            assert(size_note(name, dtype, shape, stored) == Some(
                "tensor '"@ + name + "': "@ + dtype + " "@ + shape_text(shape)
                    + " needs "@ + dec(need) + " bytes but data_offsets span "@ + dec(stored),
            ));
        }
    }
}

proof fn lemma_bits_by_type()
    ensures
        dtype_bits("F64"@) == Some(64nat),
        dtype_bits("I64"@) == Some(64nat),
        dtype_bits("U64"@) == Some(64nat),
        dtype_bits("F32"@) == Some(32nat),
        dtype_bits("I32"@) == Some(32nat),
        dtype_bits("U32"@) == Some(32nat),
        dtype_bits("F16"@) == Some(16nat),
        dtype_bits("BF16"@) == Some(16nat),
        dtype_bits("I16"@) == Some(16nat),
        dtype_bits("U16"@) == Some(16nat),
        dtype_bits("F8_E4M3"@) == Some(8nat),
        dtype_bits("F8_E5M2"@) == Some(8nat),
        dtype_bits("F8_E8M0"@) == Some(8nat),
        dtype_bits("I8"@) == Some(8nat),
        dtype_bits("U8"@) == Some(8nat),
        dtype_bits("BOOL"@) == Some(8nat),
        dtype_bits("F4"@) == Some(4nat),
{
    reveal_strlit("F64");
    reveal_strlit("I64");
    reveal_strlit("U64");
    reveal_strlit("F32");
    reveal_strlit("I32");
    reveal_strlit("U32");
    reveal_strlit("F16");
    reveal_strlit("BF16");
    reveal_strlit("I16");
    reveal_strlit("U16");
    reveal_strlit("F8_E4M3");
    reveal_strlit("F8_E5M2");
    reveal_strlit("F8_E8M0");
    reveal_strlit("I8");
    reveal_strlit("U8");
    reveal_strlit("BOOL");
    reveal_strlit("F4");
    assert("F64"@.len() == 3 && "F64"@[0] == 'F' && "F64"@[1] == '6');
    assert("I64"@.len() == 3 && "I64"@[0] == 'I' && "I64"@[1] == '6');
    assert("U64"@.len() == 3 && "U64"@[0] == 'U' && "U64"@[1] == '6');
    assert("F32"@.len() == 3 && "F32"@[0] == 'F' && "F32"@[1] == '3');
    assert("I32"@.len() == 3 && "I32"@[0] == 'I' && "I32"@[1] == '3');
    assert("U32"@.len() == 3 && "U32"@[0] == 'U' && "U32"@[1] == '3');
    assert("F16"@.len() == 3 && "F16"@[0] == 'F' && "F16"@[1] == '1');
    assert("BF16"@.len() == 4 && "BF16"@[0] == 'B' && "BF16"@[1] == 'F');
    assert("I16"@.len() == 3 && "I16"@[0] == 'I' && "I16"@[1] == '1');
    assert("U16"@.len() == 3 && "U16"@[0] == 'U' && "U16"@[1] == '1');
    assert("F8_E4M3"@.len() == 7 && "F8_E4M3"@[0] == 'F' && "F8_E4M3"@[1] == '8' && "F8_E4M3"@[4] == '4');
    assert("F8_E5M2"@.len() == 7 && "F8_E5M2"@[0] == 'F' && "F8_E5M2"@[1] == '8' && "F8_E5M2"@[4] == '5');
    assert("F8_E8M0"@.len() == 7 && "F8_E8M0"@[0] == 'F' && "F8_E8M0"@[1] == '8' && "F8_E8M0"@[4] == '8');
    assert("I8"@.len() == 2 && "I8"@[0] == 'I' && "I8"@[1] == '8');
    assert("U8"@.len() == 2 && "U8"@[0] == 'U' && "U8"@[1] == '8');
    assert("BOOL"@.len() == 4 && "BOOL"@[0] == 'B' && "BOOL"@[1] == 'O');
    assert("F4"@.len() == 2 && "F4"@[0] == 'F' && "F4"@[1] == '4');
}

/// How large the elements of each type are.
pub proof fn law_sizes_by_type(name: Seq<char>, shape: Seq<u64>, stored: nat)
    ensures
        takes_bits(name, "F64"@, shape, stored, 64),
        takes_bits(name, "I64"@, shape, stored, 64),
        takes_bits(name, "U64"@, shape, stored, 64),
        takes_bits(name, "F32"@, shape, stored, 32),
        takes_bits(name, "I32"@, shape, stored, 32),
        takes_bits(name, "U32"@, shape, stored, 32),
        takes_bits(name, "F16"@, shape, stored, 16),
        takes_bits(name, "BF16"@, shape, stored, 16),
        takes_bits(name, "I16"@, shape, stored, 16),
        takes_bits(name, "U16"@, shape, stored, 16),
        takes_bits(name, "F8_E4M3"@, shape, stored, 8),
        takes_bits(name, "F8_E5M2"@, shape, stored, 8),
        takes_bits(name, "F8_E8M0"@, shape, stored, 8),
        takes_bits(name, "I8"@, shape, stored, 8),
        takes_bits(name, "U8"@, shape, stored, 8),
        takes_bits(name, "BOOL"@, shape, stored, 8),
        takes_bits(name, "F4"@, shape, stored, 4),
{
    lemma_bits_by_type();
    lemma_takes_bits(name, "F64"@, shape, stored, 64);
    lemma_takes_bits(name, "I64"@, shape, stored, 64);
    lemma_takes_bits(name, "U64"@, shape, stored, 64);
    lemma_takes_bits(name, "F32"@, shape, stored, 32);
    lemma_takes_bits(name, "I32"@, shape, stored, 32);
    lemma_takes_bits(name, "U32"@, shape, stored, 32);
    lemma_takes_bits(name, "F16"@, shape, stored, 16);
    lemma_takes_bits(name, "BF16"@, shape, stored, 16);
    lemma_takes_bits(name, "I16"@, shape, stored, 16);
    lemma_takes_bits(name, "U16"@, shape, stored, 16);
    lemma_takes_bits(name, "F8_E4M3"@, shape, stored, 8);
    lemma_takes_bits(name, "F8_E5M2"@, shape, stored, 8);
    lemma_takes_bits(name, "F8_E8M0"@, shape, stored, 8);
    lemma_takes_bits(name, "I8"@, shape, stored, 8);
    lemma_takes_bits(name, "U8"@, shape, stored, 8);
    lemma_takes_bits(name, "BOOL"@, shape, stored, 8);
    lemma_takes_bits(name, "F4"@, shape, stored, 4);
}

/// A type of any other name is noted, and the tensor is listed under it.
pub proof fn law_other_types_are_noted(
    name: Seq<char>,
    dtype: Seq<char>,
    shape: Seq<u64>,
    stored: nat,
)
    requires
        dtype != "F64"@
            && dtype != "I64"@
            && dtype != "U64"@
            && dtype != "F32"@
            && dtype != "I32"@
            && dtype != "U32"@
            && dtype != "F16"@
            && dtype != "BF16"@
            && dtype != "I16"@
            && dtype != "U16"@
            && dtype != "F8_E4M3"@
            && dtype != "F8_E5M2"@
            && dtype != "F8_E8M0"@
            && dtype != "I8"@
            && dtype != "U8"@
            && dtype != "BOOL"@
            && dtype != "F4"@,
        all_partial_fit(shape),
    ensures
        size_note(name, dtype, shape, stored) == Some(
            "tensor '"@ + name + "': unknown dtype '"@ + dtype + "'"@,
        ),
{
    lemma_numel_fits(shape);
}

/// An entry is the tensor it says: its type in lower case, its shape, where it
/// begins, and as many bytes as lie between its two offsets.
pub proof fn law_entry_is_its_tensor(
    name: Seq<char>,
    v: Doc,
    dtype: Seq<char>,
    shape: Seq<u64>,
    begin: u64,
    end: u64,
)
    requires
        begin <= end,
        member(v, "dtype"@) == Some(Doc::Str(dtype)),
        member(v, "shape"@) == Some(Doc::Arr(shape.map_values(|d: u64| Doc::Int(d as int)))),
        member(v, "data_offsets"@) == Some(
            Doc::Arr(seq![Doc::Int(begin as int), Doc::Int(end as int)]),
        ),
    ensures
        tensor_entry(name, v) matches Ok((t, e, note)) && {
            &&& t.name == name
            &&& t.shape == shape
            &&& t.offset == begin
            &&& t.offset + t.bytes == end
            &&& e == end
            &&& note == size_note(name, dtype, shape, (end - begin) as nat)
            &&& dtype_bits(dtype) is Some ==> t.dtype == lower(dtype)
            &&& dtype_bits(dtype) is None ==> t.dtype == dtype
            &&& product(shape) <= u128::MAX ==> t.numel == product(shape)
        },
{
    lemma_dims_listed(shape);
}

proof fn lemma_dims_listed(shape: Seq<u64>)
    ensures
        dims_of(shape.map_values(|d: u64| Doc::Int(d as int))) == Some(shape),
    decreases shape.len(),
{
    let items = shape.map_values(|d: u64| Doc::Int(d as int));
    if shape.len() > 0 {
        lemma_dims_listed(shape.drop_last());
        assert(items.drop_last() =~= shape.drop_last().map_values(|d: u64| Doc::Int(d as int)));
        assert(shape.drop_last().push(shape.last()) =~= shape);
    } else {
        assert(shape =~= seq![]);
    }
}

// ---------------------------------------------------------------------------
// Files that are too short or too long
// ---------------------------------------------------------------------------

/// The report on a file that ends `k` bytes early or late is the report on the
/// whole file, with its own size and one problem more.
pub open spec fn but_for_size(r: ReportModel, s: ReportModel, flen: nat, msg: Seq<char>) -> bool {
    s == (ReportModel { file_bytes: flen, problems: r.problems.push(msg), ..r })
}

/// A safetensors file as long as its header and data has no problem of size;
/// one that is `k` bytes shorter or longer has just that problem more.
pub proof fn law_size_of_file(b: Seq<u8>, flen: nat, path: Seq<char>, r: ReportModel, k: nat)
    requires
        parse_model(b, flen, path) == Ok::<ReportModel, Seq<char>>(r),
        flen == r.header_bytes + r.data_bytes,
        k > 0,
    ensures
        parse_model(b, flen + k, path) matches Ok(s) && but_for_size(
            r,
            s,
            flen + k,
            dec(k) + " trailing byte"@ + (if k == 1 {
                ""@
            } else {
                "s"@
            }) + " after the last tensor"@,
        ),
        k <= r.data_bytes ==> (parse_model(b, (flen - k) as nat, path) matches Ok(s)
            && but_for_size(
            r,
            s,
            (flen - k) as nat,
            "data section needs "@ + dec(r.data_bytes) + " bytes but only "@ + dec(
                (r.data_bytes - k) as nat,
            ) + " are present ("@ + dec(k) + " missing) — truncated file"@,
        )),
{
}

/// A GGUF file may end before the next multiple of the alignment; one that is
/// longer, or shorter than its data, has just that problem more.
pub proof fn law_size_of_model(
    path: Seq<char>,
    version: nat,
    pos: nat,
    meta: Seq<(Seq<char>, Doc)>,
    ts: Seq<TensorModel>,
    probs: Seq<Seq<char>>,
    flen: nat,
    k: nat,
)
    requires
        flen == gguf::report_of(path, flen, version, pos, meta, ts, probs).header_bytes
            + gguf::data_end(ts),
        gguf::aligned(pos, gguf::alignment_of(meta)) <= flen <= u64::MAX,
        k > 0,
    ensures
        ({
            let r = gguf::report_of(path, flen, version, pos, meta, ts, probs);
            let a = gguf::alignment_of(meta);
            let more = gguf::report_of(path, flen + k, version, pos, meta, ts, probs);
            &&& r.problems == probs
            &&& k < a ==> more == (ReportModel { file_bytes: flen + k, ..r })
            &&& k >= a ==> but_for_size(
                r,
                more,
                flen + k,
                dec(k) + " trailing byte"@ + (if k == 1 {
                    ""@
                } else {
                    "s"@
                }) + " after the last tensor"@,
            )
            &&& k <= r.data_bytes ==> but_for_size(
                r,
                gguf::report_of(path, (flen - k) as nat, version, pos, meta, ts, probs),
                (flen - k) as nat,
                "tensor data needs "@ + dec(r.data_bytes) + " bytes but only "@ + dec(
                    (r.data_bytes - k) as nat,
                ) + " are present ("@ + dec(k) + " missing) — truncated file"@,
            )
        }),
{
}

/// A shape in a message: its dimensions in square brackets, with commas.
pub proof fn law_shape_text(s: Seq<u64>, n: u64)
    ensures
        shape_text(Seq::empty()) == "[]"@,
        shape_text(seq![n]) == "["@ + dec(n as nat) + "]"@,
        s.len() > 0 ==> shape_text(s.push(n)) == shape_text(s).drop_last() + ", "@ + dec(n as nat)
            + "]"@,
{
    reveal_strlit("[");
    reveal_strlit("]");
    reveal_strlit("[]");
    assert(shape_text(Seq::empty()) =~= "[]"@);
    if s.len() > 0 {
        assert(s.push(n).drop_last() =~= s);
        assert(shape_text(s.push(n)) =~= shape_text(s).drop_last() + ", "@ + dec(n as nat) + "]"@);
    }
}

} // verus!
