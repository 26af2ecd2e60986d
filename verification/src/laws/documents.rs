//! What stands under which name in the JSON form of a report.

use vstd::prelude::*;
use crate::gguf;
use crate::json::{first_member, member, Doc};
use crate::npy;
use crate::npy::NpyModel;
use crate::npz;
use crate::npz::{Directory, MemberModel, TallyModel};
use crate::report::{product, report_members, str_docs, tensor_doc, tensor_docs, total_numel, ReportModel, TensorModel};
use crate::safetensors;
use crate::text::dec;

verus! {

proof fn lemma_names()
    ensures
        "file"@.len() == 4 && "file"@[0] == 'f',
        "format"@.len() == 6 && "format"@[0] == 'f',
        "file_bytes"@.len() == 10 && "file_bytes"@[0] == 'f',
        "header_bytes"@.len() == 12 && "header_bytes"@[0] == 'h',
        "data_bytes"@.len() == 10 && "data_bytes"@[0] == 'd',
        "tensor_count"@.len() == 12 && "tensor_count"@[0] == 't',
        "parameters"@.len() == 10 && "parameters"@[0] == 'p',
        "safetensors"@.len() == 11 && "safetensors"@[0] == 's',
        "gguf"@.len() == 4 && "gguf"@[0] == 'g',
        "npy"@.len() == 3 && "npy"@[0] == 'n',
        "npz"@.len() == 3 && "npz"@[0] == 'n',
        "metadata"@.len() == 8 && "metadata"@[0] == 'm',
        "tensors"@.len() == 7 && "tensors"@[0] == 't',
        "problems"@.len() == 8 && "problems"@[0] == 'p',
        "name"@.len() == 4 && "name"@[0] == 'n',
        "dtype"@.len() == 5 && "dtype"@[0] == 'd',
        "shape"@.len() == 5 && "shape"@[0] == 's',
        "numel"@.len() == 5 && "numel"@[0] == 'n',
        "offset"@.len() == 6 && "offset"@[0] == 'o',
        "bytes"@.len() == 5 && "bytes"@[0] == 'b',
{
    reveal_strlit("file");
    reveal_strlit("format");
    reveal_strlit("file_bytes");
    reveal_strlit("header_bytes");
    reveal_strlit("data_bytes");
    reveal_strlit("tensor_count");
    reveal_strlit("parameters");
    reveal_strlit("safetensors");
    reveal_strlit("gguf");
    reveal_strlit("npy");
    reveal_strlit("npz");
    reveal_strlit("metadata");
    reveal_strlit("tensors");
    reveal_strlit("problems");
    reveal_strlit("name");
    reveal_strlit("dtype");
    reveal_strlit("shape");
    reveal_strlit("numel");
    reveal_strlit("offset");
    reveal_strlit("bytes");
}

proof fn lemma_found(ms: Seq<(Seq<char>, Doc)>, key: Seq<char>, from: int, i: int)
    requires
        0 <= from <= i < ms.len(),
        ms[i].0 == key,
        forall|k: int| from <= k < i ==> (#[trigger] ms[k]).0 != key,
    ensures
        first_member(ms, key, from) == Some(ms[i].1),
    decreases i - from,
{
    if from < i {
        assert(ms[from].0 != key);
        lemma_found(ms, key, from + 1, i);
    }
}

proof fn lemma_not_found(ms: Seq<(Seq<char>, Doc)>, key: Seq<char>, from: int)
    requires
        0 <= from <= ms.len(),
        forall|k: int| from <= k < ms.len() ==> (#[trigger] ms[k]).0 != key,
    ensures
        first_member(ms, key, from) is None,
    decreases ms.len() - from,
{
    if from < ms.len() {
        lemma_not_found(ms, key, from + 1);
    }
}

/// What is found under a name is what stands first under it.
pub proof fn law_first_of_a_name_counts(ms: Seq<(Seq<char>, Doc)>, key: Seq<char>, i: int)
    ensures
        0 <= i < ms.len() && ms[i].0 == key && (forall|k: int|
            0 <= k < i ==> (#[trigger] ms[k]).0 != key) ==> member(Doc::Obj(ms), key) == Some(
            ms[i].1,
        ),
        (forall|k: int| 0 <= k < ms.len() ==> (#[trigger] ms[k]).0 != key) ==> member(
            Doc::Obj(ms),
            key,
        ) is None,
{
    if 0 <= i < ms.len() && ms[i].0 == key && (forall|k: int|
        0 <= k < i ==> (#[trigger] ms[k]).0 != key) {
        lemma_found(ms, key, 0, i);
    }
    if forall|k: int| 0 <= k < ms.len() ==> (#[trigger] ms[k]).0 != key {
        lemma_not_found(ms, key, 0);
    }
}

/// Dimensions as numbers.
pub open spec fn numbers(shape: Seq<u64>) -> Doc {
    Doc::Arr(shape.map_values(|d: u64| Doc::Int(d as int)))
}

/// The JSON form of a tensor has each of its properties under its name.
pub proof fn law_tensor_by_name(t: TensorModel)
    ensures
        member(tensor_doc(t), "name"@) == Some(Doc::Str(t.name)),
        member(tensor_doc(t), "dtype"@) == Some(Doc::Str(t.dtype)),
        member(tensor_doc(t), "shape"@) == Some(numbers(t.shape)),
        t.numel <= i128::MAX ==> member(tensor_doc(t), "numel"@) == Some(
            Doc::Int(t.numel as int),
        ),
        member(tensor_doc(t), "offset"@) == Some(Doc::Int(t.offset as int)),
        member(tensor_doc(t), "bytes"@) == Some(Doc::Int(t.bytes as int)),
        tensor_doc(t) matches Doc::Obj(ms) && ms.len() == 6 + t.extra.len() && ms.skip(6)
            == t.extra,
{
    lemma_names();
    let ms = tensor_doc(t)->Obj_0;
    assert(ms[0].0 == "name"@ && ms[1].0 == "dtype"@ && ms[2].0 == "shape"@ && ms[3].0 == "numel"@
        && ms[4].0 == "offset"@ && ms[5].0 == "bytes"@);
    lemma_found(ms, "name"@, 0, 0);
    lemma_found(ms, "dtype"@, 0, 1);
    lemma_found(ms, "shape"@, 0, 2);
    lemma_found(ms, "numel"@, 0, 3);
    lemma_found(ms, "offset"@, 0, 4);
    lemma_found(ms, "bytes"@, 0, 5);
    assert(crate::report::shape_docs(t.shape) =~= t.shape.map_values(|d: u64| Doc::Int(d as int)));
    assert(ms.skip(6) =~= t.extra);
}

/// The JSON form of a report has each of its figures under its name.
pub proof fn law_report_by_name(r: ReportModel, with_tensors: bool, filter: Option<Seq<char>>)
    ensures
        ({
            let v = Doc::Obj(report_members(r, with_tensors, filter));
            &&& member(v, "file"@) == Some(Doc::Str(r.file))
            &&& member(v, "format"@) == Some(Doc::Str(r.format))
            &&& member(v, "file_bytes"@) == Some(Doc::Int(r.file_bytes as int))
            &&& member(v, "header_bytes"@) == Some(Doc::Int(r.header_bytes as int))
            &&& member(v, "data_bytes"@) == Some(Doc::Int(r.data_bytes as int))
            &&& member(v, "tensor_count"@) == Some(Doc::Int(r.tensors.len() as int))
            &&& total_numel(r.tensors) <= i128::MAX ==> member(v, "parameters"@) == Some(
                Doc::Int(total_numel(r.tensors) as int),
            )
        }),
{
    lemma_names();
    let ms = report_members(r, with_tensors, filter);
    assert(ms[0].0 == "file"@ && ms[1].0 == "format"@ && ms[2].0 == "file_bytes"@ && ms[3].0
        == "header_bytes"@ && ms[4].0 == "data_bytes"@ && ms[5].0 == "tensor_count"@ && ms[6].0
        == "parameters"@);
    lemma_found(ms, "file"@, 0, 0);
    lemma_found(ms, "format"@, 0, 1);
    lemma_found(ms, "file_bytes"@, 0, 2);
    lemma_found(ms, "header_bytes"@, 0, 3);
    lemma_found(ms, "data_bytes"@, 0, 4);
    lemma_found(ms, "tensor_count"@, 0, 5);
    lemma_found(ms, "parameters"@, 0, 6);
}

/// The parts that a report may lack: the details, under the name of the format,
/// the metadata, the tensors and the problems, each there just when there is
/// something to show; in this order, behind the figures.
pub proof fn law_parts_by_name(r: ReportModel, with_tensors: bool, filter: Option<Seq<char>>)
    requires
        r.format == "safetensors"@ || r.format == "gguf"@ || r.format == "npy"@ || r.format
            == "npz"@,
    ensures
        ({
            let v = Doc::Obj(report_members(r, with_tensors, filter));
            let empty = Doc::Obj(seq![]);
            &&& r.details != empty ==> member(v, r.format) == Some(r.details)
            &&& r.details == empty ==> member(v, r.format) is None
            &&& r.metadata != empty ==> member(v, "metadata"@) == Some(r.metadata)
            &&& r.metadata == empty ==> member(v, "metadata"@) is None
            &&& with_tensors ==> member(v, "tensors"@) == Some(
                Doc::Arr(tensor_docs(r.tensors, filter)),
            )
            &&& !with_tensors ==> member(v, "tensors"@) is None
            &&& r.problems.len() > 0 ==> member(v, "problems"@) == Some(
                Doc::Arr(r.problems.map_values(|p: Seq<char>| Doc::Str(p))),
            )
            &&& r.problems.len() == 0 ==> member(v, "problems"@) is None
        }),
{
    lemma_names();
    let ms = report_members(r, with_tensors, filter);
    let empty = Doc::Obj(seq![]);
    let a: int = if r.details == empty {
        0
    } else {
        1
    };
    let c: int = if r.metadata == empty {
        0
    } else {
        1
    };
    let d: int = if with_tensors {
        1
    } else {
        0
    };
    assert(ms[0].0 == "file"@ && ms[1].0 == "format"@ && ms[2].0 == "file_bytes"@ && ms[3].0
        == "header_bytes"@ && ms[4].0 == "data_bytes"@ && ms[5].0 == "tensor_count"@ && ms[6].0
        == "parameters"@);
    assert(a == 1 ==> ms[7] == (r.format, r.details));
    assert(c == 1 ==> ms[7 + a] == ("metadata"@, r.metadata));
    assert(d == 1 ==> ms[7 + a + c] == ("tensors"@, Doc::Arr(tensor_docs(r.tensors, filter))));
    assert(r.problems.len() > 0 ==> ms[7 + a + c + d] == (
        "problems"@,
        Doc::Arr(str_docs(r.problems)),
    ));
    assert(str_docs(r.problems) =~= r.problems.map_values(|p: Seq<char>| Doc::Str(p)));
    assert(ms.len() == 7 + a + c + d + (if r.problems.len() > 0 {
        1int
    } else {
        0
    }));
    if a == 1 {
        lemma_found(ms, r.format, 0, 7);
    } else {
        lemma_not_found(ms, r.format, 0);
    }
    if c == 1 {
        lemma_found(ms, "metadata"@, 0, 7 + a);
    } else {
        lemma_not_found(ms, "metadata"@, 0);
    }
    if d == 1 {
        lemma_found(ms, "tensors"@, 0, 7 + a + c);
    } else {
        lemma_not_found(ms, "tensors"@, 0);
    }
    if r.problems.len() > 0 {
        lemma_found(ms, "problems"@, 0, 7 + a + c + d);
    } else {
        lemma_not_found(ms, "problems"@, 0);
    }
}

proof fn lemma_detail_names()
    ensures
        "version"@.len() == 7 && "version"@[0] == 'v',
        "descr"@.len() == 5 && "descr"@[0] == 'd',
        "byte_order"@.len() == 10 && "byte_order"@[0] == 'b',
        "fortran_order"@.len() == 13 && "fortran_order"@[0] == 'f',
        "itemsize"@.len() == 8 && "itemsize"@[0] == 'i',
        "alignment"@.len() == 9 && "alignment"@[0] == 'a',
        "data_start"@.len() == 10 && "data_start"@[0] == 'd',
        "architecture"@.len() == 12 && "architecture"@[0] == 'a',
        "header_json_bytes"@.len() == 17 && "header_json_bytes"@[0] == 'h',
        "members"@.len() == 7 && "members"@[0] == 'm',
        "zip64"@.len() == 5 && "zip64"@[0] == 'z',
        "stored"@.len() == 6 && "stored"@[0] == 's',
        "deflated"@.len() == 8 && "deflated"@[0] == 'd',
        "other_files"@.len() == 11 && "other_files"@[0] == 'o',
        "member"@.len() == 6 && "member"@[0] == 'm',
        "compression"@.len() == 11 && "compression"@[0] == 'c',
        "compressed_bytes"@.len() == 16 && "compressed_bytes"@[0] == 'c',
{
    reveal_strlit("version");
    reveal_strlit("descr");
    reveal_strlit("byte_order");
    reveal_strlit("fortran_order");
    reveal_strlit("itemsize");
    reveal_strlit("alignment");
    reveal_strlit("data_start");
    reveal_strlit("architecture");
    reveal_strlit("header_json_bytes");
    reveal_strlit("members");
    reveal_strlit("zip64");
    reveal_strlit("stored");
    reveal_strlit("deflated");
    reveal_strlit("other_files");
    reveal_strlit("member");
    reveal_strlit("compression");
    reveal_strlit("compressed_bytes");
}

/// What the details of each format hold.
pub proof fn law_npy_details_by_name(path: Seq<char>, flen: nat, h: NpyModel)
    ensures
        ({
            let v = npy::report_of(path, flen, h).details;
            &&& member(v, "version"@) == Some(
                Doc::Str(dec(h.version.0 as nat) + "."@ + dec(h.version.1 as nat)),
            )
            &&& member(v, "descr"@) == Some(h.descr)
            &&& member(v, "byte_order"@) == Some(Doc::Str(h.byte_order))
            &&& member(v, "fortran_order"@) == Some(Doc::Bool(h.fortran_order))
            &&& h.itemsize matches Some(n) ==> member(v, "itemsize"@) == Some(Doc::Int(n as int))
            &&& h.itemsize is None ==> member(v, "itemsize"@) == Some(Doc::Null)
        }),
{
    lemma_detail_names();
    let ms = npy::report_of(path, flen, h).details->Obj_0;
    assert(ms[0].0 == "version"@ && ms[1].0 == "descr"@ && ms[2].0 == "byte_order"@ && ms[3].0
        == "fortran_order"@ && ms[4].0 == "itemsize"@);
    lemma_found(ms, "version"@, 0, 0);
    lemma_found(ms, "descr"@, 0, 1);
    lemma_found(ms, "byte_order"@, 0, 2);
    lemma_found(ms, "fortran_order"@, 0, 3);
    lemma_found(ms, "itemsize"@, 0, 4);
}

/// The same for GGUF: the version, the alignment, where the data start, and the
/// architecture that the metadata name, where they do.
pub proof fn law_gguf_details_by_name(
    path: Seq<char>,
    flen: nat,
    version: nat,
    pos: nat,
    meta: Seq<(Seq<char>, Doc)>,
    ts: Seq<TensorModel>,
    probs: Seq<Seq<char>>,
)
    ensures
        ({
            let v = gguf::report_of(path, flen, version, pos, meta, ts, probs).details;
            let a = gguf::alignment_of(meta);
            &&& member(v, "version"@) == Some(Doc::Int(version as int))
            &&& member(v, "alignment"@) == Some(Doc::Int(a as int))
            &&& member(v, "data_start"@) == Some(Doc::Int(gguf::aligned(pos, a) as int))
            &&& member(v, "architecture"@) == member(Doc::Obj(meta), "general.architecture"@)
        }),
{
    lemma_detail_names();
    let ms = gguf::report_of(path, flen, version, pos, meta, ts, probs).details->Obj_0;
    assert(ms[0].0 == "version"@ && ms[1].0 == "alignment"@ && ms[2].0 == "data_start"@);
    lemma_found(ms, "version"@, 0, 0);
    lemma_found(ms, "alignment"@, 0, 1);
    lemma_found(ms, "data_start"@, 0, 2);
    if member(Doc::Obj(meta), "general.architecture"@) is Some {
        assert(ms[3].0 == "architecture"@);
        lemma_found(ms, "architecture"@, 0, 3);
    } else {
        lemma_not_found(ms, "architecture"@, 0);
    }
}

/// The same for npz archives, and for the members that are arrays.
pub proof fn law_npz_details_by_name(
    path: Seq<char>,
    flen: nat,
    d: Directory,
    count: nat,
    t: TallyModel,
    m: MemberModel,
    h: NpyModel,
)
    ensures
        ({
            let v = npz::report_of(path, flen, d, count, t).details;
            &&& member(v, "members"@) == Some(Doc::Int(count as int))
            &&& member(v, "zip64"@) == Some(Doc::Bool(d.zip64))
            &&& member(v, "stored"@) == Some(Doc::Int(t.stored as int))
            &&& member(v, "deflated"@) == Some(Doc::Int(t.deflated as int))
            &&& member(v, "other_files"@) == Some(
                Doc::Arr(t.others.map_values(|s: Seq<char>| Doc::Str(s))),
            )
        }),
        ({
            let v = Doc::Obj(npz::member_tensor(m, h).extra);
            &&& member(v, "member"@) == Some(Doc::Str(m.name))
            &&& m.method == 0 ==> member(v, "compression"@) == Some(Doc::Str("stored"@))
            &&& m.method == 8 ==> member(v, "compression"@) == Some(Doc::Str("deflate"@))
            &&& member(v, "compressed_bytes"@) == Some(Doc::Int(m.comp_size as int))
        }),
{
    lemma_detail_names();
    let ms = npz::report_of(path, flen, d, count, t).details->Obj_0;
    assert(ms[0].0 == "members"@ && ms[1].0 == "zip64"@ && ms[2].0 == "stored"@ && ms[3].0
        == "deflated"@ && ms[4].0 == "other_files"@);
    lemma_found(ms, "members"@, 0, 0);
    lemma_found(ms, "zip64"@, 0, 1);
    lemma_found(ms, "stored"@, 0, 2);
    lemma_found(ms, "deflated"@, 0, 3);
    lemma_found(ms, "other_files"@, 0, 4);
    assert(str_docs(t.others) =~= t.others.map_values(|s: Seq<char>| Doc::Str(s)));
    let xs = npz::member_tensor(m, h).extra;
    assert(xs[0].0 == "member"@ && xs[1].0 == "compression"@ && xs[2].0 == "compressed_bytes"@);
    lemma_found(xs, "member"@, 0, 0);
    lemma_found(xs, "compression"@, 0, 1);
    lemma_found(xs, "compressed_bytes"@, 0, 2);
}

/// An array in an archive is named like its member without the suffix, and is
/// what its header says; it starts behind that header and takes its elements
/// times the size of one.
pub proof fn law_member_is_its_array(m: MemberModel, h: NpyModel, stem: Seq<char>, size: nat)
    requires
        m.name == stem + ".npy"@,
        h.itemsize == Some(size),
        product(h.shape) <= u128::MAX,
        product(h.shape) * size <= u64::MAX,
    ensures
        npz::member_tensor(m, h).name == stem,
        npz::member_tensor(m, h).dtype == h.dtype,
        npz::member_tensor(m, h).shape == h.shape,
        npz::member_tensor(m, h).offset == h.header_total,
        npz::member_tensor(m, h).bytes == product(h.shape) * size,
        npz::member_tensor(m, h).numel == product(h.shape),
{
    reveal_strlit(".npy");
    assert(m.name.take(m.name.len() - 4) =~= stem);
}

/// Each member adds to the tally: its compressed size to the data, itself to
/// the stored or to the deflated, and its name to the others unless it is an
/// array.
pub proof fn law_member_is_counted(t: TallyModel, m: MemberModel)
    requires
        t.data_bytes + m.comp_size <= u64::MAX,
    ensures
        npz::counted(t, m).data_bytes == t.data_bytes + m.comp_size,
        npz::counted(t, m).stored + npz::counted(t, m).deflated == t.stored + t.deflated + (
        if m.method == 0 || m.method == 8 {
            1nat
        } else {
            0
        }),
        m.method == 0 ==> npz::counted(t, m).stored == t.stored + 1,
        m.method == 8 ==> npz::counted(t, m).deflated == t.deflated + 1,
        forall|stem: Seq<char>|
            m.name == #[trigger] (stem + ".npy"@) ==> npz::counted(t, m).others == t.others,
        (forall|stem: Seq<char>| m.name != #[trigger] (stem + ".npy"@)) ==> npz::counted(
            t,
            m,
        ).others == t.others.push(m.name),
        npz::counted(t, m).tensors == t.tensors,
        m.method == 0 || m.method == 8 ==> (m.flags % 2 == 0 ==> npz::counted(t, m).problems
            == t.problems),
        m.method != 0 && m.method != 8 ==> npz::counted(t, m).problems.len() > t.problems.len()
            && npz::counted(t, m).problems[t.problems.len() as int] == "member '"@ + m.name
            + "' uses unsupported compression method "@ + dec(m.method),
        m.flags % 2 == 1 ==> npz::counted(t, m).problems.len() > t.problems.len() && npz::counted(
            t,
            m,
        ).problems.last() == "member '"@ + m.name + "' is encrypted"@,
{
    reveal_strlit(".npy");
    let suffix = ".npy"@;
    if crate::text::ends_with(m.name, suffix) {
        let stem = m.name.take(m.name.len() - 4);
        assert(m.name =~= stem + suffix);
    } else {
        assert forall|stem: Seq<char>| m.name != #[trigger] (stem + suffix) by {
            if m.name == stem + suffix {
                assert(m.name.skip(stem.len() as int) =~= suffix);
            }
        }
    }
    let ps = npz::member_problems(m);
    if m.flags % 2 == 0 && (m.method == 0 || m.method == 8) {
        assert(t.problems + ps =~= t.problems);
    }
}

/// An array whose header was read is listed, with the header's own problems
/// under the member's name; and where the member is not as long as its header
/// and its data, that is noted too. A header that could not be read is a
/// problem, and nothing is listed.
pub proof fn law_member_is_recorded(
    t: TallyModel,
    m: MemberModel,
    h: NpyModel,
    size: nat,
    msg: Seq<char>,
)
    requires
        h.itemsize == Some(size),
        product(h.shape) <= u128::MAX,
        product(h.shape) * size <= u64::MAX,
        h.problems.len() == 0,
    ensures
        ({
            let need = h.header_total + product(h.shape) * size;
            let r = npz::recorded(t, m, Ok(h));
            &&& r.tensors == t.tensors.push(npz::member_tensor(m, h))
            &&& (r.data_bytes, r.stored, r.deflated, r.others) == (
                t.data_bytes,
                t.stored,
                t.deflated,
                t.others,
            )
            &&& m.uncomp_size == need ==> r.problems == t.problems
            &&& m.uncomp_size != need ==> r.problems == t.problems.push(
                "member '"@ + m.name + "': npy header promises "@ + dec(need)
                    + " bytes but the archive stores "@ + dec(m.uncomp_size)
                    + " — corrupt or truncated member"@,
            )
        }),
        ({
            let r = npz::recorded(t, m, Err(msg));
            r == (TallyModel {
                problems: t.problems.push("member '"@ + m.name + "': "@ + msg),
                ..t
            })
        }),
{
    assert(t.problems + npz::named_problems(m.name, h.problems) =~= t.problems);
    let need = h.header_total + product(h.shape) * size;
    assert(product(h.shape) * size + h.header_total == need);
}

/// The problems of a header are listed under the name of its member.
pub proof fn law_member_problems_are_named(name: Seq<char>, ps: Seq<Seq<char>>, p: Seq<char>)
    ensures
        npz::named_problems(name, Seq::empty()).len() == 0,
        npz::named_problems(name, ps.push(p)) == npz::named_problems(name, ps).push(
            "member '"@ + name + "': "@ + p,
        ),
{
    assert(npz::named_problems(name, ps.push(p)) =~= npz::named_problems(name, ps).push(
        "member '"@ + name + "': "@ + p,
    ));
}

/// The tally after one more member.
spec fn taken_in(f: npz::Source, flen: nat, t: TallyModel, m: MemberModel) -> TallyModel {
    if npz::wants_header(m) {
        npz::recorded(npz::counted(t, m), m, npz::member_header(f, flen, m))
    } else {
        npz::counted(t, m)
    }
}

proof fn lemma_one_member(
    f: npz::Source,
    flen: nat,
    ms: Seq<MemberModel>,
    i: int,
    m: MemberModel,
    t: TallyModel,
)
    requires
        0 <= i < ms.len(),
        ms[i] == m,
    ensures
        npz::members_from(f, flen, ms, i, t) == npz::members_from(
            f,
            flen,
            ms,
            i + 1,
            taken_in(f, flen, t, m),
        ),
{
}

proof fn lemma_no_member(f: npz::Source, flen: nat, ms: Seq<MemberModel>, t: TallyModel)
    ensures
        npz::members_from(f, flen, ms, ms.len() as int, t) == t,
{
}

/// The members of an archive are taken one after the other.
pub proof fn law_members_in_two_parts(
    f: npz::Source,
    flen: nat,
    ms: Seq<MemberModel>,
    ns: Seq<MemberModel>,
    i: int,
    t: TallyModel,
)
    requires
        0 <= i <= ms.len(),
    ensures
        npz::members_from(f, flen, ms + ns, i, t) == npz::members_from(
            f,
            flen,
            ns,
            0,
            npz::members_from(f, flen, ms, i, t),
        ),
    decreases ms.len() - i,
{
    let all = ms + ns;
    if i < ms.len() {
        let next = taken_in(f, flen, t, ms[i]);
        assert(all[i] == ms[i]);
        lemma_one_member(f, flen, all, i, ms[i], t);
        lemma_one_member(f, flen, ms, i, ms[i], t);
        law_members_in_two_parts(f, flen, ms, ns, i + 1, next);
    } else {
        lemma_no_member(f, flen, ms, t);
        lemma_members_shifted(f, flen, ms, ns, 0, t);
    }
}

proof fn lemma_members_shifted(
    f: npz::Source,
    flen: nat,
    ms: Seq<MemberModel>,
    ns: Seq<MemberModel>,
    j: int,
    t: TallyModel,
)
    requires
        0 <= j <= ns.len(),
    ensures
        npz::members_from(f, flen, ms + ns, ms.len() + j, t) == npz::members_from(
            f,
            flen,
            ns,
            j,
            t,
        ),
    decreases ns.len() - j,
{
    let all = ms + ns;
    if j < ns.len() {
        let next = taken_in(f, flen, t, ns[j]);
        assert(all[ms.len() + j] == ns[j]);
        lemma_one_member(f, flen, all, ms.len() + j, ns[j], t);
        lemma_one_member(f, flen, ns, j, ns[j], t);
        lemma_members_shifted(f, flen, ms, ns, j + 1, next);
    } else {
        lemma_no_member(f, flen, all, t);
        lemma_no_member(f, flen, ns, t);
    }
}

/// A summarized array tells its element type, its length and its first
/// elements.
pub proof fn law_summary_of_an_array(elem: u32, count: nat, first: Seq<Doc>)
    ensures
        ({
            let v = member(gguf::array_summary(elem, count, first), "$array"@);
            &&& v is Some
            &&& member(v->0, "elem"@) == Some(Doc::Str(gguf::value_name(elem)))
            &&& member(v->0, "len"@) == Some(Doc::Int(count as int))
            &&& member(v->0, "first"@) == Some(Doc::Arr(first))
        }),
{
    reveal_strlit("elem");
    reveal_strlit("len");
    reveal_strlit("first");
    assert("elem"@.len() == 4 && "len"@.len() == 3 && "first"@.len() == 5);
    let outer = gguf::array_summary(elem, count, first)->Obj_0;
    assert(outer[0].0 == "$array"@);
    lemma_found(outer, "$array"@, 0, 0);
    let ms = outer[0].1->Obj_0;
    assert(ms[0].0 == "elem"@ && ms[1].0 == "len"@ && ms[2].0 == "first"@);
    lemma_found(ms, "elem"@, 0, 0);
    lemma_found(ms, "len"@, 0, 1);
    lemma_found(ms, "first"@, 0, 2);
}

/// What comes before and behind the data: the length and the header of a
/// safetensors file, and all from the directory on in an npz archive.
pub proof fn law_header_sizes(
    path: Seq<char>,
    flen: nat,
    n: nat,
    ms: Seq<(Seq<char>, Doc)>,
    d: Directory,
    count: nat,
    t: TallyModel,
)
    ensures
        safetensors::report_of(path, flen, n, ms).header_bytes == 8 + n,
        member(safetensors::report_of(path, flen, n, ms).details, "header_json_bytes"@) == Some(
            Doc::Int(n as int),
        ),
        d.offset <= flen ==> npz::report_of(path, flen, d, count, t).header_bytes + d.offset == flen,
        npz::report_of(path, flen, d, count, t).data_bytes == t.data_bytes,
        npz::report_of(path, flen, d, count, t).tensors == t.tensors,
        npz::report_of(path, flen, d, count, t).problems == t.problems,
{
    let xs = safetensors::report_of(path, flen, n, ms).details->Obj_0;
    assert(xs[0].0 == "header_json_bytes"@);
    lemma_found(xs, "header_json_bytes"@, 0, 0);
}

/// An array of a type of unknown size takes what is left behind its header.
pub proof fn law_arrays_of_unknown_size(path: Seq<char>, flen: nat, m: MemberModel, h: NpyModel)
    requires
        h.itemsize is None,
    ensures
        flen >= h.header_total ==> npy::report_of(path, flen, h).data_bytes + h.header_total
            == flen,
        flen < h.header_total ==> npy::report_of(path, flen, h).data_bytes == 0,
        npy::report_of(path, flen, h).problems == h.problems,
        npy::report_of(path, flen, h).tensors[0].bytes == npy::report_of(path, flen, h).data_bytes,
        m.uncomp_size >= h.header_total ==> npz::member_tensor(m, h).bytes + h.header_total
            == m.uncomp_size,
        m.uncomp_size < h.header_total ==> npz::member_tensor(m, h).bytes == 0,
{
}

} // verus!
