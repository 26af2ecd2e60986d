//! What is read of a written safetensors file.

use vstd::prelude::*;
use vstd::utf8::*;
use crate::builder::{elem_bytes, numel64, padding, spaces, st_bytes, st_entries, st_entry, st_file, st_header, st_header_bytes, st_known, st_total, st_writable, StTensor};
use crate::bytes::{le, le_bytes, lemma_le_bytes_len, lemma_le_round_trip, lemma_le_window, pow256};
use crate::json::{first_member, member, parse_doc, written, Doc, MAX_DEPTH};
use crate::laws::arrays::lemma_numel64_product;
use crate::laws::json_text::{law_white_space_around, nests_within, storable};
use crate::report::{empty_report, shape_docs, tensor_model, ReportModel, TensorModel};
use crate::safetensors::{checked_numel, dims_of, dtype_bits, gathered, is_string_map, packed_bytes, parse_model, prefix_needed, report_of, shown_dtype, size_note, size_problems, tensor_entry, Gathered, MAX_HEADER};
use crate::text::{dec, lower};

verus! {

proof fn lemma_dims_back(shape: Seq<u64>)
    ensures
        dims_of(shape_docs(shape)) == Some(shape),
    decreases shape.len(),
{
    let l = shape_docs(shape);
    if shape.len() > 0 {
        lemma_dims_back(shape.drop_last());
        assert(l.drop_last() =~= shape_docs(shape.drop_last()));
        assert(shape.drop_last().push(shape.last()) =~= shape);
    } else {
        assert(shape =~= seq![]);
    }
}

proof fn lemma_checked_numel(shape: Seq<u64>)
    requires
        numel64(shape) is Some,
    ensures
        checked_numel(shape) == numel64(shape),
    decreases shape.len(),
{
    if shape.len() > 0 {
        lemma_checked_numel(shape.drop_last());
    }
}

/// The reader knows every dtype that the writer knows.
proof fn lemma_dtype_known(dtype: Seq<char>)
    requires
        elem_bytes(dtype) is Some,
    ensures
        dtype_bits(dtype) == Some(8 * elem_bytes(dtype)->0),
        elem_bytes(dtype)->0 <= 8,
        shown_dtype(dtype) == lower(dtype),
{
    reveal_strlit("F64");
    reveal_strlit("I64");
    reveal_strlit("U64");
    reveal_strlit("F32");
    reveal_strlit("I32");
    reveal_strlit("U32");
    reveal_strlit("F16");
    reveal_strlit("BF16");
    reveal_strlit("I16");
    reveal_strlit("U16");
    reveal_strlit("F8_E4M3");
    reveal_strlit("F8_E5M2");
    reveal_strlit("I8");
    reveal_strlit("U8");
    reveal_strlit("BOOL");
    if dtype == "F64"@ || dtype == "I64"@ || dtype == "U64"@ {
    } else if dtype == "F32"@ || dtype == "I32"@ || dtype == "U32"@ {
    } else if dtype == "F16"@ || dtype == "BF16"@ || dtype == "I16"@ || dtype == "U16"@ {
    } else {
        assert(dtype_bits(dtype) == Some(8nat));
    }
}

/// What the reader makes of the entry of tensor `t`.
pub open spec fn read_tensor(t: StTensor, offset: nat) -> TensorModel {
    tensor_model(t.name, lower(t.dtype), t.shape, offset, st_bytes(t))
}

proof fn lemma_entry_back(t: StTensor, offset: nat)
    requires
        st_known(t),
        offset + st_bytes(t) <= u64::MAX,
    ensures
        tensor_entry(t.name, st_entry(t, offset)) == Ok::<
            (TensorModel, nat, Option<Seq<char>>),
            Seq<char>,
        >((read_tensor(t, offset), offset + st_bytes(t), None)),
{
    let v = st_entry(t, offset);
    let ms = v->Obj_0;
    reveal_strlit("dtype");
    reveal_strlit("shape");
    reveal_strlit("data_offsets");
    assert("dtype"@[0] == 'd' && "shape"@[0] == 's' && "data_offsets"@.len() == 12);
    assert("dtype"@.len() == 5 && "shape"@.len() == 5);
    assert(member(v, "dtype"@) == Some(Doc::Str(t.dtype)));
    assert(first_member(ms, "shape"@, 1) == Some(ms[1].1));
    assert(member(v, "shape"@) == Some(ms[1].1));
    assert(first_member(ms, "data_offsets"@, 2) == Some(ms[2].1));
    assert(first_member(ms, "data_offsets"@, 1) == Some(ms[2].1));
    assert(member(v, "data_offsets"@) == Some(ms[2].1));
    lemma_dims_back(t.shape);
    lemma_checked_numel(t.shape);
    lemma_dtype_known(t.dtype);
    lemma_numel64_product(t.shape);
    let n = numel64(t.shape)->0;
    let e = elem_bytes(t.dtype)->0;
    assert(n * (8 * e) == 8 * (n * e)) by (nonlinear_arith);
    assert(n * e <= u64::MAX * 8) by (nonlinear_arith)
        requires
            n <= u64::MAX,
            e <= 8,
    ;
    assert(packed_bytes(n, 8 * e) == n * e);
    assert(size_note(t.name, t.dtype, t.shape, st_bytes(t)) is None);
}

/// What the reader makes of the first `n` tensors.
pub open spec fn read_tensors(ts: Seq<StTensor>, n: nat) -> Seq<TensorModel>
    decreases n,
{
    if n == 0 || n > ts.len() {
        seq![]
    } else {
        read_tensors(ts, (n - 1) as nat).push(
            read_tensor(ts[n - 1], st_total(ts, (n - 1) as nat)),
        )
    }
}

/// No tensor has the name that is kept for metadata.
pub open spec fn proper_names(ts: Seq<StTensor>) -> bool {
    forall|i: int| 0 <= i < ts.len() ==> (#[trigger] ts[i]).name != "__metadata__"@
}

spec fn metadata_member(metadata: Seq<(Seq<char>, Doc)>) -> Seq<(Seq<char>, Doc)> {
    if metadata.len() == 0 {
        seq![]
    } else {
        seq![("__metadata__"@, Doc::Obj(metadata))]
    }
}

proof fn lemma_gathered_back(ts: Seq<StTensor>, n: nat, metadata: Seq<(Seq<char>, Doc)>)
    requires
        n <= ts.len(),
        st_writable(ts),
        st_total(ts, n) <= u64::MAX,
        proper_names(ts),
        is_string_map(Doc::Obj(metadata)),
    ensures
        gathered(metadata_member(metadata) + st_entries(ts, n)) == (Gathered {
            metadata: Doc::Obj(metadata),
            tensors: read_tensors(ts, n),
            problems: seq![],
            end: st_total(ts, n),
        }),
    decreases n,
{
    let ms = metadata_member(metadata) + st_entries(ts, n);
    if n == 0 {
        assert(st_entries(ts, 0) =~= seq![]);
        assert(ms =~= metadata_member(metadata));
        if metadata.len() == 0 {
            assert(metadata =~= seq![]);
        } else {
            assert(ms.drop_last() =~= seq![]);
            assert(gathered(ms.drop_last()).problems =~= seq![]);
        }
    } else {
        let m = (n - 1) as nat;
        lemma_gathered_back(ts, m, metadata);
        assert(ms.drop_last() =~= metadata_member(metadata) + st_entries(ts, m));
        let t = ts[n - 1];
        assert(st_known(t));
        assert(ms.last() == (t.name, st_entry(t, st_total(ts, m))));
        lemma_entry_back(t, st_total(ts, m));
    }
}

proof fn lemma_entries_storable(ts: Seq<StTensor>, n: nat)
    requires
        n <= ts.len(),
        st_total(ts, n) <= u64::MAX,
    ensures
        forall|i: int|
            0 <= i < st_entries(ts, n).len() ==> storable((#[trigger] st_entries(ts, n)[i]).1)
                && nests_within(st_entries(ts, n)[i].1, 2),
    decreases n,
{
    if n > 0 {
        let m = (n - 1) as nat;
        lemma_entries_storable(ts, m);
        let es = st_entries(ts, n);
        let t = ts[n - 1];
        let v = st_entry(t, st_total(ts, m));
        lemma_entry_storable(t, st_total(ts, m));
        assert forall|i: int| 0 <= i < es.len() implies storable((#[trigger] es[i]).1)
            && nests_within(es[i].1, 2) by {
            if i < es.len() - 1 {
                assert(es[i] == st_entries(ts, m)[i]);
            } else {
                assert(es[i].1 == v);
            }
        }
    }
}

proof fn lemma_entry_storable(t: StTensor, offset: nat)
    requires
        offset + st_bytes(t) <= u64::MAX,
    ensures
        storable(st_entry(t, offset)),
        nests_within(st_entry(t, offset), 2),
{
    let v = st_entry(t, offset);
    let ms = v->Obj_0;
    let dims = Doc::Arr(shape_docs(t.shape));
    assert(storable(dims) && nests_within(dims, 1)) by {
        assert forall|i: int| 0 <= i < shape_docs(t.shape).len() implies storable(
            #[trigger] shape_docs(t.shape)[i],
        ) && nests_within(shape_docs(t.shape)[i], 0) by {}
    }
    let ends = seq![Doc::Int(offset as int), Doc::Int((offset + st_bytes(t)) as int)];
    assert(storable(Doc::Arr(ends)) && nests_within(Doc::Arr(ends), 1)) by {
        assert forall|i: int| 0 <= i < ends.len() implies storable(#[trigger] ends[i])
            && nests_within(ends[i], 0) by {}
    }
    assert forall|i: int| 0 <= i < ms.len() implies storable((#[trigger] ms[i]).1) && nests_within(
        ms[i].1,
        1,
    ) by {
        assert(i == 0 || i == 1 || i == 2);
    }
}

proof fn lemma_header_storable(ts: Seq<StTensor>, metadata: Seq<(Seq<char>, Doc)>)
    requires
        st_total(ts, ts.len()) <= u64::MAX,
        is_string_map(Doc::Obj(metadata)),
    ensures
        storable(st_header(ts, metadata)),
        nests_within(st_header(ts, metadata), MAX_DEPTH as int),
{
    let ms = metadata_member(metadata) + st_entries(ts, ts.len());
    lemma_entries_storable(ts, ts.len());
    let meta = Doc::Obj(metadata);
    assert(storable(meta) && nests_within(meta, 2)) by {
        assert forall|i: int| 0 <= i < metadata.len() implies storable((#[trigger] metadata[i]).1)
            && nests_within(metadata[i].1, 1) by {
            assert(metadata[i].1 is Str);
        }
    }
    assert forall|i: int| 0 <= i < ms.len() implies storable((#[trigger] ms[i]).1) && nests_within(
        ms[i].1,
        MAX_DEPTH - 1,
    ) by {
        let k = metadata_member(metadata).len() as int;
        if i < k {
            assert(ms[i] == metadata_member(metadata)[i]);
            lemma_nests_deeper(meta, 2, MAX_DEPTH - 1);
        } else {
            assert(ms[i] == st_entries(ts, ts.len())[i - k]);
            lemma_nests_deeper(ms[i].1, 2, MAX_DEPTH - 1);
        }
    }
}

pub proof fn lemma_nests_deeper(v: Doc, d: int, e: int)
    requires
        nests_within(v, d),
        d <= e,
    ensures
        nests_within(v, e),
    decreases v,
{
    match v {
        Doc::Arr(items) => {
            if items.len() > 0 {
                assert forall|i: int| 0 <= i < items.len() implies nests_within(
                    #[trigger] items[i],
                    e - 1,
                ) by {
                    assert(decreases_to!(v => v->Arr_0));
                    assert(decreases_to!(items => items[i]));
                    lemma_nests_deeper(items[i], d - 1, e - 1);
                }
            }
        },
        Doc::Obj(ms) => {
            if ms.len() > 0 {
                assert forall|i: int| 0 <= i < ms.len() implies nests_within(
                    (#[trigger] ms[i]).1,
                    e - 1,
                ) by {
                    assert(decreases_to!(v => v->Obj_0));
                    assert(decreases_to!(ms => ms[i]));
                    assert(decreases_to!(ms[i] => ms[i].1));
                    lemma_nests_deeper(ms[i].1, d - 1, e - 1);
                }
            }
        },
        _ => {},
    }
}

proof fn lemma_header_text(ts: Seq<StTensor>, metadata: Seq<(Seq<char>, Doc)>)
    requires
        st_total(ts, ts.len()) <= u64::MAX,
        is_string_map(Doc::Obj(metadata)),
    ensures
        parse_doc(st_header_bytes(ts, metadata)) == Ok::<Doc, (Seq<char>, int)>(
            Doc::Obj(metadata_member(metadata) + st_entries(ts, ts.len())),
        ),
        st_header_bytes(ts, metadata).len() % 8 == 0,
{
    lemma_header_storable(ts, metadata);
    lemma_padded_text(st_header(ts, metadata));
}

/// A document padded with spaces is read back.
proof fn lemma_padded_text(v: Doc)
    requires
        storable(v),
        nests_within(v, MAX_DEPTH as int),
    ensures
        ({
            let text = encode_utf8(written(v, None));
            let padded = text + spaces(padding(text.len(), 8));
            &&& parse_doc(padded) == Ok::<Doc, (Seq<char>, int)>(v)
            &&& padded.len() % 8 == 0
        }),
{
    let text = encode_utf8(written(v, None));
    let pad = spaces(padding(text.len(), 8));
    law_white_space_around(v, None, seq![], pad);
    assert(seq![] + text + pad =~= text + pad);
}

/// What is wrong with a file cut down to `flen` bytes: nothing when it is
/// whole, and otherwise exactly the bytes that are missing.
pub open spec fn cut_short(flen: nat, header: nat, end: nat) -> Seq<Seq<char>> {
    if flen == header + end {
        seq![]
    } else {
        seq![
            "data section needs "@ + dec(end) + " bytes but only "@ + dec((flen - header) as nat)
                + " are present ("@ + dec((header + end - flen) as nat)
                + " missing) — truncated file"@,
        ]
    }
}

/// The report on a written file of which `flen` bytes are there.
pub open spec fn written_report(
    ts: Seq<StTensor>,
    metadata: Seq<(Seq<char>, Doc)>,
    flen: nat,
    path: Seq<char>,
) -> ReportModel {
    let n = st_header_bytes(ts, metadata).len();
    let total = st_total(ts, ts.len());
    ReportModel {
        header_bytes: 8 + n,
        data_bytes: total,
        metadata: Doc::Obj(metadata),
        details: Doc::Obj(seq![("header_json_bytes"@, Doc::Int(n as int))]),
        tensors: read_tensors(ts, ts.len()),
        problems: cut_short(flen, 8 + n, total),
        ..empty_report(path, "safetensors"@, flen)
    }
}

/// What is written is read back. The tensors come out in order, packed
/// back-to-back, with the dtype in lower case; the metadata comes out as it
/// went in; the header ends on an 8-byte boundary, and header and data add up
/// to the whole file. The file may be cut anywhere after its header: whole, it
/// has no problem; cut short, the one problem names exactly the bytes that are
/// missing. Left out are tensors that take the name kept for metadata, and
/// headers longer than the format allows.
#[verifier::rlimit(50)]
pub proof fn law_safetensors_read_back(
    ts: Seq<StTensor>,
    metadata: Seq<(Seq<char>, Doc)>,
    flen: nat,
    path: Seq<char>,
)
    requires
        st_writable(ts),
        proper_names(ts),
        is_string_map(Doc::Obj(metadata)),
        st_header_bytes(ts, metadata).len() <= MAX_HEADER,
        8 + st_header_bytes(ts, metadata).len() <= flen <= st_file(ts, metadata).len(),
    ensures
        parse_model(st_file(ts, metadata).take(flen as int), flen, path) == Ok::<
            ReportModel,
            Seq<char>,
        >(written_report(ts, metadata, flen, path)),
        st_file(ts, metadata).len() == 8 + st_header_bytes(ts, metadata).len() + st_total(
            ts,
            ts.len(),
        ),
        (8 + st_header_bytes(ts, metadata).len()) % 8 == 0,
{
    lemma_file_parts(ts, metadata, flen);
    lemma_header_text(ts, metadata);
    lemma_parse_back(
        st_file(ts, metadata).take(flen as int),
        flen,
        path,
        st_header_bytes(ts, metadata),
        metadata_member(metadata) + st_entries(ts, ts.len()),
    );
    lemma_gathered_back(ts, ts.len(), metadata);
    lemma_report_back(ts, metadata, flen, path);
}

/// A length field and a header that is an object give a report.
proof fn lemma_parse_back(
    b: Seq<u8>,
    flen: nat,
    path: Seq<char>,
    header: Seq<u8>,
    ms: Seq<(Seq<char>, Doc)>,
)
    requires
        8 + header.len() <= b.len(),
        8 + header.len() <= flen,
        header.len() <= MAX_HEADER,
        le(b, 0, 8) == header.len(),
        b.subrange(8, 8 + header.len() as int) == header,
        parse_doc(header) == Ok::<Doc, (Seq<char>, int)>(Doc::Obj(ms)),
    ensures
        parse_model(b, flen, path) == Ok::<ReportModel, Seq<char>>(
            report_of(path, flen, header.len(), ms),
        ),
{
}

proof fn lemma_report_back(
    ts: Seq<StTensor>,
    metadata: Seq<(Seq<char>, Doc)>,
    flen: nat,
    path: Seq<char>,
)
    requires
        8 + st_header_bytes(ts, metadata).len() <= flen,
        flen <= 8 + st_header_bytes(ts, metadata).len() + st_total(ts, ts.len()),
        gathered(metadata_member(metadata) + st_entries(ts, ts.len())) == (Gathered {
            metadata: Doc::Obj(metadata),
            tensors: read_tensors(ts, ts.len()),
            problems: seq![],
            end: st_total(ts, ts.len()),
        }),
    ensures
        report_of(
            path,
            flen,
            st_header_bytes(ts, metadata).len(),
            metadata_member(metadata) + st_entries(ts, ts.len()),
        ) == written_report(ts, metadata, flen, path),
{
    let n = st_header_bytes(ts, metadata).len();
    assert(size_problems(flen, 8 + n, st_total(ts, ts.len()), seq![]) =~= cut_short(
        flen,
        8 + n,
        st_total(ts, ts.len()),
    ));
}

/// The length field and the header of a written file.
proof fn lemma_file_parts(ts: Seq<StTensor>, metadata: Seq<(Seq<char>, Doc)>, flen: nat)
    requires
        st_header_bytes(ts, metadata).len() <= MAX_HEADER,
        8 + st_header_bytes(ts, metadata).len() <= flen <= st_file(ts, metadata).len(),
    ensures
        ({
            let header = st_header_bytes(ts, metadata);
            let b = st_file(ts, metadata).take(flen as int);
            &&& st_file(ts, metadata).len() == 8 + header.len() + st_total(ts, ts.len())
            &&& le(b, 0, 8) == header.len()
            &&& b.subrange(8, 8 + header.len() as int) == header
        }),
{
    let header = st_header_bytes(ts, metadata);
    let b = st_file(ts, metadata).take(flen as int);
    lemma_le_bytes_len(header.len(), 8);
    assert(b.subrange(0, 8) =~= le_bytes(header.len(), 8));
    assert(header.len() < pow256(8)) by {
        reveal_with_fuel(pow256, 9);
    }
    lemma_le_round_trip(b, 0, header.len(), 8);
    assert(b.subrange(8, 8 + header.len() as int) =~= header);
}

/// Only the length field and the header are looked at: the beginning of a
/// file, as long as they need, gives the same result as the whole file.
pub proof fn law_header_is_enough(b: Seq<u8>, flen: nat, path: Seq<char>)
    requires
        prefix_needed(b) <= b.len(),
    ensures
        parse_model(b.take(prefix_needed(b) as int), flen, path) == parse_model(b, flen, path),
        prefix_needed(b.take(8)) == prefix_needed(b),
{
    let n = prefix_needed(b) as int;
    let a = b.take(n);
    assert(a.subrange(0, 8) =~= b.subrange(0, 8));
    lemma_le_window(a, 0, b, 0, 8);
    assert(b.take(8).subrange(0, 8) =~= b.subrange(0, 8));
    lemma_le_window(b.take(8), 0, b, 0, 8);
    if le(b, 0, 8) <= MAX_HEADER {
        assert(a.subrange(8, n) =~= b.subrange(8, n));
    }
}

} // verus!
