//! safetensors header parser. The format is an 8-byte little-endian header
//! length, a JSON header mapping tensor names to `{dtype, shape,
//! data_offsets}` (plus an optional `__metadata__` string map), then the raw
//! data region. Only the first `8 + header_len` bytes are ever read.

use vstd::prelude::*;
use vstd::slice::slice_subrange;
use vstd::string::*;
use crate::bytes::{le, u64le};
use crate::json::{docs, lemma_view_obj, member, members_of, parse_doc, Doc, Json};
use crate::report::{empty_report, put_member, put_text, tensor_model, tensors_of, texts, PeekError, Report, ReportModel, Tensor, TensorModel};
use crate::text::{chars_of, dec, dec_int, lower, lower_chars, put_dec, put_int, same, text_of};

verus! {

/// The reference implementation caps headers at 100 MB; a bigger claim is a
/// corrupt or hostile file, not a real checkpoint.
pub const MAX_HEADER: u64 = 104857600;

/// Known dtypes and their size in bits.
pub open spec fn dtype_bits(dtype: Seq<char>) -> Option<nat> {
    if dtype == "F64"@ || dtype == "I64"@ || dtype == "U64"@ {
        Some(64)
    } else if dtype == "F32"@ || dtype == "I32"@ || dtype == "U32"@ {
        Some(32)
    } else if dtype == "F16"@ || dtype == "BF16"@ || dtype == "I16"@ || dtype == "U16"@ {
        Some(16)
    } else if dtype == "F8_E4M3"@ || dtype == "F8_E5M2"@ || dtype == "F8_E8M0"@ || dtype == "I8"@
        || dtype == "U8"@ || dtype == "BOOL"@ {
        Some(8)
    } else if dtype == "F4"@ {
        Some(4)
    } else {
        None
    }
}

pub fn find_dtype_bits(dtype: &str) -> (r: Option<u32>)
    ensures
        dtype_bits(dtype@) == match r {
            Some(n) => Some(n as nat),
            None => None,
        },
        r matches Some(n) ==> 4 <= n <= 64,
{
    if same(dtype, "F64") || same(dtype, "I64") || same(dtype, "U64") {
        Some(64)
    } else if same(dtype, "F32") || same(dtype, "I32") || same(dtype, "U32") {
        Some(32)
    } else if same(dtype, "F16") || same(dtype, "BF16") || same(dtype, "I16") || same(dtype, "U16") {
        Some(16)
    } else if same(dtype, "F8_E4M3") || same(dtype, "F8_E5M2") || same(dtype, "F8_E8M0") || same(
        dtype,
        "I8",
    ) || same(dtype, "U8") || same(dtype, "BOOL") {
        Some(8)
    } else if same(dtype, "F4") {
        Some(4)
    } else {
        None
    }
}

// ---------------------------------------------------------------------------
// Header entries
// ---------------------------------------------------------------------------

/// The dimensions, when every one is an integer a `u64` can hold.
pub open spec fn dims_of(items: Seq<Doc>) -> Option<Seq<u64>>
    decreases items.len(),
{
    if items.len() == 0 {
        Some(seq![])
    } else {
        match (dims_of(items.drop_last()), items.last()) {
            (Some(shape), Doc::Int(n)) => if 0 <= n <= u64::MAX {
                Some(shape.push(n as u64))
            } else {
                None
            },
            _ => None,
        }
    }
}

/// The product of the dimensions, unless a step of it exceeds `u128`.
pub open spec fn checked_numel(shape: Seq<u64>) -> Option<nat>
    decreases shape.len(),
{
    if shape.len() == 0 {
        Some(1)
    } else {
        match checked_numel(shape.drop_last()) {
            Some(n) => if n * shape.last() as nat <= u128::MAX {
                Some(n * shape.last() as nat)
            } else {
                None
            },
            None => None,
        }
    }
}

/// The dimensions joined by commas.
pub open spec fn dims_text(shape: Seq<u64>) -> Seq<char>
    decreases shape.len(),
{
    if shape.len() == 0 {
        seq![]
    } else if shape.len() == 1 {
        dec(shape[0] as nat)
    } else {
        dims_text(shape.drop_last()) + ", "@ + dec(shape.last() as nat)
    }
}

pub open spec fn shape_text(shape: Seq<u64>) -> Seq<char> {
    "["@ + dims_text(shape) + "]"@
}

/// Bytes for `n` elements of `bits` bits each.
pub open spec fn packed_bytes(n: nat, bits: nat) -> nat {
    (n * bits + 7) / 8
}

/// What is odd about a tensor whose entry could be read.
pub open spec fn size_note(
    name: Seq<char>,
    dtype: Seq<char>,
    shape: Seq<u64>,
    stored: nat,
) -> Option<Seq<char>> {
    match (checked_numel(shape), dtype_bits(dtype)) {
        (None, _) => Some("tensor '"@ + name + "': shape overflows element arithmetic"@),
        (Some(_), None) => Some("tensor '"@ + name + "': unknown dtype '"@ + dtype + "'"@),
        (Some(n), Some(bits)) => if n * bits > u128::MAX {
            Some("tensor '"@ + name + "': shape overflows element arithmetic"@)
        } else if packed_bytes(n, bits) != stored {
            Some(
                "tensor '"@ + name + "': "@ + dtype + " "@ + shape_text(shape) + " needs "@ + dec(
                    packed_bytes(n, bits),
                ) + " bytes but data_offsets span "@ + dec(stored),
            )
        } else {
            None
        },
    }
}

/// The dtype name the report shows.
pub open spec fn shown_dtype(dtype: Seq<char>) -> Seq<char> {
    if dtype_bits(dtype) is Some {
        lower(dtype)
    } else {
        dtype
    }
}

pub open spec fn int_at(items: Seq<Doc>, i: int) -> Option<int> {
    if 0 <= i < items.len() && items[i] is Int {
        Some(items[i]->Int_0)
    } else {
        None
    }
}

/// The tensor an entry describes, its end offset and an optional note, or the
/// problem that keeps the entry from being a tensor at all.
pub open spec fn tensor_entry(name: Seq<char>, v: Doc) -> Result<
    (TensorModel, nat, Option<Seq<char>>),
    Seq<char>,
> {
    match member(v, "dtype"@) {
        Some(Doc::Str(dtype)) => match member(v, "shape"@) {
            Some(Doc::Arr(dims)) => match dims_of(dims) {
                None => Err(
                    "tensor '"@ + name + "': shape contains a non-integer or negative dimension"@,
                ),
                Some(shape) => match member(v, "data_offsets"@) {
                    Some(Doc::Arr(offsets)) => match (int_at(offsets, 0), int_at(offsets, 1)) {
                        (Some(begin), Some(end)) => if offsets.len() != 2 || begin < 0 || end
                            < begin || end > u64::MAX {
                            Err(
                                "tensor '"@ + name + "': invalid data_offsets ["@ + dec_int(begin)
                                    + ", "@ + dec_int(end) + "]"@,
                            )
                        } else {
                            Ok(
                                (
                                    tensor_model(
                                        name,
                                        shown_dtype(dtype),
                                        shape,
                                        begin as nat,
                                        (end - begin) as nat,
                                    ),
                                    end as nat,
                                    size_note(name, dtype, shape, (end - begin) as nat),
                                ),
                            )
                        },
                        _ => Err(
                            "tensor '"@ + name + "': data_offsets is not a pair of integers"@,
                        ),
                    },
                    _ => Err("tensor '"@ + name + "': missing data_offsets"@),
                },
            },
            _ => Err("tensor '"@ + name + "': missing or non-array shape"@),
        },
        _ => Err("tensor '"@ + name + "': missing or non-string dtype"@),
    }
}

/// A map whose values are all strings.
pub open spec fn is_string_map(v: Doc) -> bool {
    v matches Doc::Obj(ms) && forall|i: int| 0 <= i < ms.len() ==> (#[trigger] ms[i]).1 is Str
}

/// What has been gathered from the header entries.
#[verifier::ext_equal]
pub struct Gathered {
    pub metadata: Doc,
    pub tensors: Seq<TensorModel>,
    pub problems: Seq<Seq<char>>,
    pub end: nat,
}

pub open spec fn gather_one(g: Gathered, name: Seq<char>, v: Doc) -> Gathered {
    if name == "__metadata__"@ {
        if is_string_map(v) {
            Gathered { metadata: v, ..g }
        } else {
            Gathered {
                problems: g.problems.push("__metadata__ is not a string-to-string map"@),
                ..g
            }
        }
    } else {
        match tensor_entry(name, v) {
            Err(msg) => Gathered { problems: g.problems.push(msg), ..g },
            Ok((t, end, note)) => Gathered {
                metadata: g.metadata,
                tensors: g.tensors.push(t),
                problems: match note {
                    Some(n) => g.problems.push(n),
                    None => g.problems,
                },
                end: if end > g.end {
                    end
                } else {
                    g.end
                },
            },
        }
    }
}

/// The header entries in file order.
pub open spec fn gathered(ms: Seq<(Seq<char>, Doc)>) -> Gathered
    decreases ms.len(),
{
    if ms.len() == 0 {
        Gathered { metadata: Doc::Obj(seq![]), tensors: seq![], problems: seq![], end: 0 }
    } else {
        gather_one(gathered(ms.drop_last()), ms.last().0, ms.last().1)
    }
}

/// The problems that the size of the file adds.
pub open spec fn size_problems(
    flen: nat,
    header: nat,
    end: nat,
    probs: Seq<Seq<char>>,
) -> Seq<Seq<char>> {
    let expected = header + end;
    if flen < expected {
        probs.push(
            "data section needs "@ + dec(end) + " bytes but only "@ + dec((flen - header) as nat)
                + " are present ("@ + dec((expected - flen) as nat)
                + " missing) — truncated file"@,
        )
    } else if flen > expected {
        probs.push(
            dec((flen - expected) as nat) + " trailing byte"@ + (if flen - expected == 1 {
                ""@
            } else {
                "s"@
            }) + " after the last tensor"@,
        )
    } else {
        probs
    }
}

/// The report on a file with a JSON header of `n` bytes.
pub open spec fn report_of(
    path: Seq<char>,
    flen: nat,
    n: nat,
    ms: Seq<(Seq<char>, Doc)>,
) -> ReportModel {
    let g = gathered(ms);
    ReportModel {
        header_bytes: 8 + n,
        data_bytes: g.end,
        metadata: g.metadata,
        details: Doc::Obj(seq![("header_json_bytes"@, Doc::Int(n as int))]),
        tensors: g.tensors,
        problems: size_problems(flen, 8 + n, g.end, g.problems),
        ..empty_report(path, "safetensors"@, flen)
    }
}

pub open spec fn json_error_text(msg: Seq<char>, offset: int) -> Seq<char> {
    "header is not valid JSON: "@ + (msg + " at byte "@ + dec(offset as nat))
}

/// What a file of `flen` bytes whose first bytes are `b` contains.
pub open spec fn parse_model(b: Seq<u8>, flen: nat, path: Seq<char>) -> Result<
    ReportModel,
    Seq<char>,
> {
    if b.len() < 8 {
        Err("file too small for a safetensors header"@)
    } else {
        let n = le(b, 0, 8);
        if n > MAX_HEADER {
            Err("declared header length "@ + dec(n) + " exceeds the 100 MB format cap"@)
        } else if n + 8 > flen {
            Err(
                "declared header length "@ + dec(n) + " exceeds the file itself ("@ + dec(flen)
                    + " bytes)"@,
            )
        } else if n + 8 > b.len() {
            Err("file ends inside the JSON header"@)
        } else {
            match parse_doc(b.subrange(8, 8 + n as int)) {
                Err((msg, offset)) => Err(json_error_text(msg, offset)),
                Ok(Doc::Obj(ms)) => Ok(report_of(path, flen, n, ms)),
                Ok(_) => Err("header JSON is not an object"@),
            }
        }
    }
}

// ---------------------------------------------------------------------------
// Parser
// ---------------------------------------------------------------------------

/// Canonical (lowercase) dtype name for the report.
fn canonical(dtype: &str) -> (r: String)
    ensures
        r@ == lower(dtype@),
{
    let v: Vec<char> = lower_chars(chars_of(dtype).as_slice());
    let r: String = text_of(v.as_slice(), 0, v.len());
    assert(r@ =~= v@);
    r
}

fn read_dims(items: &[Json]) -> (r: Option<Vec<u64>>)
    ensures
        dims_of(docs(items@)) == match r {
            Some(shape) => Some(shape@),
            None => None,
        },
{
    let mut shape: Vec<u64> = Vec::new();
    let ghost ds = docs(items@);
    let n: usize = items.len();
    let mut i: usize = 0;
    assert(ds.take(0) =~= seq![]);
    while i < n
        invariant
            i <= n,
            n == items@.len(),
            ds == docs(items@),
            dims_of(ds.take(i as int)) == Some(shape@),
        decreases n - i,
    {
        assert(ds.take(i + 1).drop_last() =~= ds.take(i as int));
        match items[i].as_int() {
            Some(d) => {
                if 0 <= d && d <= 0xffff_ffff_ffff_ffff {
                    shape.push(d as u64);
                } else {
                    proof {
                        lemma_dims_prefix(ds, i + 1);
                    }
                    return None;
                }
            },
            None => {
                proof {
                    lemma_dims_prefix(ds, i + 1);
                }
                return None;
            },
        }
        i = i + 1;
    }
    assert(ds.take(i as int) =~= ds);
    Some(shape)
}

proof fn lemma_dims_prefix(ds: Seq<Doc>, n: int)
    requires
        0 <= n <= ds.len(),
        dims_of(ds.take(n)) is None,
    ensures
        dims_of(ds) is None,
    decreases ds.len() - n,
{
    if n < ds.len() {
        assert(ds.take(n + 1).drop_last() =~= ds.take(n));
        lemma_dims_prefix(ds, n + 1);
    } else {
        assert(ds.take(n) =~= ds);
    }
}

/// The product of the dimensions, unless a step of it exceeds `u128`.
pub fn checked_product(shape: &[u64]) -> (r: Option<u128>)
    ensures
        checked_numel(shape@) == match r {
            Some(n) => Some(n as nat),
            None => None,
        },
{
    let mut n: u128 = 1;
    let mut i: usize = 0;
    assert(shape@.take(0) =~= seq![]);
    while i < shape.len()
        invariant
            i <= shape@.len(),
            checked_numel(shape@.take(i as int)) == Some(n as nat),
        decreases shape@.len() - i,
    {
        assert(shape@.take(i + 1).drop_last() =~= shape@.take(i as int));
        match n.checked_mul(shape[i] as u128) {
            Some(m) => {
                n = m;
            },
            None => {
                proof {
                    lemma_numel_prefix(shape@, i + 1);
                }
                return None;
            },
        }
        i = i + 1;
    }
    assert(shape@.take(i as int) =~= shape@);
    Some(n)
}

proof fn lemma_numel_prefix(shape: Seq<u64>, n: int)
    requires
        0 <= n <= shape.len(),
        checked_numel(shape.take(n)) is None,
    ensures
        checked_numel(shape) is None,
    decreases shape.len() - n,
{
    if n < shape.len() {
        assert(shape.take(n + 1).drop_last() =~= shape.take(n));
        lemma_numel_prefix(shape, n + 1);
    } else {
        assert(shape.take(n) =~= shape);
    }
}

/// Append the shape as a bracketed list.
pub fn put_shape(out: &mut String, shape: &[u64])
    ensures
        final(out)@ == old(out)@ + shape_text(shape@),
{
    out.append("[");
    let ghost open = out@;
    let mut i: usize = 0;
    assert(shape@.take(0) =~= seq![]);
    assert(out@ =~= open + dims_text(shape@.take(0)));
    while i < shape.len()
        invariant
            i <= shape@.len(),
            out@ == open + dims_text(shape@.take(i as int)),
        decreases shape@.len() - i,
    {
        assert(shape@.take(i + 1).drop_last() =~= shape@.take(i as int));
        if i > 0 {
            out.append(", ");
        }
        put_dec(out, shape[i] as u128);
        i = i + 1;
        assert(out@ =~= open + dims_text(shape@.take(i as int)));
    }
    assert(shape@.take(i as int) =~= shape@);
    out.append("]");
    assert(out@ =~= old(out)@ + shape_text(shape@));
}

/// Start of a message about a tensor.
fn about(name: &str, rest: &str) -> (r: String)
    ensures
        r@ == "tensor '"@ + name@ + rest@,
{
    let mut s: String = "tensor '".to_owned();
    s.append(name);
    s.append(rest);
    s
}

fn note_size(name: &str, dtype: &str, shape: &[u64], stored: u64) -> (r: Option<String>)
    ensures
        size_note(name@, dtype@, shape@, stored as nat) == match r {
            Some(s) => Some(s@),
            None => None,
        },
{
    let n: u128 = match checked_product(shape) {
        Some(n) => n,
        None => {
            return Some(about(name, "': shape overflows element arithmetic"));
        },
    };
    let bits: u32 = match find_dtype_bits(dtype) {
        Some(b) => b,
        None => {
            let mut s: String = about(name, "': unknown dtype '");
            s.append(dtype);
            s.append("'");
            return Some(s);
        },
    };
    match n.checked_mul(bits as u128) {
        None => Some(about(name, "': shape overflows element arithmetic")),
        Some(total) => {
            let expect: u128 = if total % 8 == 0 {
                total / 8
            } else {
                total / 8 + 1
            };
            assert(expect == packed_bytes(n as nat, bits as nat));
            if expect != stored as u128 {
                let mut s: String = about(name, "': ");
                s.append(dtype);
                s.append(" ");
                put_shape(&mut s, shape);
                s.append(" needs ");
                put_dec(&mut s, expect);
                s.append(" bytes but data_offsets span ");
                put_dec(&mut s, stored as u128);
                Some(s)
            } else {
                None
            }
        },
    }
}

/// Returns (tensor, end offset, optional problem note) or a problem message
/// for an entry that cannot be interpreted as a tensor at all.
fn parse_tensor(name: &str, v: &Json) -> (r: Result<(Tensor, u64, Option<String>), String>)
    ensures
        tensor_entry(name@, v@) == match r {
            Ok((t, end, note)) => Ok::<(TensorModel, nat, Option<Seq<char>>), Seq<char>>(
                (
                    t@,
                    end as nat,
                    match note {
                        Some(s) => Some(s@),
                        None => None,
                    },
                ),
            ),
            Err(msg) => Err(msg@),
        },
{
    let dtype: &str = match v.get("dtype") {
        Some(d) => match d.as_str() {
            Some(s) => s,
            None => {
                return Err(about(name, "': missing or non-string dtype"));
            },
        },
        None => {
            return Err(about(name, "': missing or non-string dtype"));
        },
    };
    let dims: &[Json] = match v.get("shape") {
        Some(d) => match d.as_arr() {
            Some(s) => s,
            None => {
                return Err(about(name, "': missing or non-array shape"));
            },
        },
        None => {
            return Err(about(name, "': missing or non-array shape"));
        },
    };
    let shape: Vec<u64> = match read_dims(dims) {
        Some(s) => s,
        None => {
            return Err(about(name, "': shape contains a non-integer or negative dimension"));
        },
    };
    let offsets: &[Json] = match v.get("data_offsets") {
        Some(d) => match d.as_arr() {
            Some(s) => s,
            None => {
                return Err(about(name, "': missing data_offsets"));
            },
        },
        None => {
            return Err(about(name, "': missing data_offsets"));
        },
    };
    if offsets.len() < 2 {
        return Err(about(name, "': data_offsets is not a pair of integers"));
    }
    let (begin, end) = match (offsets[0].as_int(), offsets[1].as_int()) {
        (Some(b), Some(e)) => (b, e),
        _ => {
            return Err(about(name, "': data_offsets is not a pair of integers"));
        },
    };
    if offsets.len() != 2 || begin < 0 || end < begin || end > 0xffff_ffff_ffff_ffff {
        let mut s: String = about(name, "': invalid data_offsets [");
        put_int(&mut s, begin);
        s.append(", ");
        put_int(&mut s, end);
        s.append("]");
        return Err(s);
    }
    let stored: u64 = (end - begin) as u64;
    let note: Option<String> = note_size(name, dtype, shape.as_slice(), stored);
    let shown: String = if find_dtype_bits(dtype).is_some() {
        canonical(dtype)
    } else {
        dtype.to_owned()
    };
    let t: Tensor = Tensor::new(name, shown.as_str(), shape, begin as u64, stored);
    Ok((t, end as u64, note))
}

fn string_map(v: &Json) -> (r: bool)
    ensures
        r == is_string_map(v@),
{
    match v {
        Json::Obj(ms) => {
            proof {
                lemma_view_obj(*ms);
            }
            let mut i: usize = 0;
            while i < ms.len()
                invariant
                    i <= ms@.len(),
                    v@ == Doc::Obj(members_of(ms@)),
                    forall|k: int| 0 <= k < i ==> (#[trigger] members_of(ms@)[k]).1 is Str,
                decreases ms@.len() - i,
            {
                match &ms[i].1 {
                    Json::Str(_) => {},
                    _ => {
                        assert(!(members_of(ms@)[i as int].1 is Str));
                        return false;
                    },
                }
                i = i + 1;
            }
            true
        },
        _ => false,
    }
}

spec fn gathered_in(report: Report, end: u64) -> Gathered {
    Gathered {
        metadata: report.metadata@,
        tensors: tensors_of(report.tensors@),
        problems: texts(report.problems@),
        end: end as nat,
    }
}

/// Add one header entry to a report; the result is the furthest end offset.
fn add_entry(report: &mut Report, end: u64, name: &str, v: &Json) -> (r: u64)
    ensures
        gathered_in(*final(report), r) == gather_one(gathered_in(*old(report), end), name@, v@),
        final(report)@.file == old(report)@.file,
        final(report).format == old(report).format,
        final(report).file_bytes == old(report).file_bytes,
        final(report).header_bytes == old(report).header_bytes,
{
    if same(name, "__metadata__") {
        if string_map(v) {
            report.metadata = v.clone();
        } else {
            put_text(
                &mut report.problems,
                "__metadata__ is not a string-to-string map".to_owned(),
            );
        }
        return end;
    }
    match parse_tensor(name, v) {
        Ok((t, e, note)) => {
            match note {
                Some(n) => put_text(&mut report.problems, n),
                None => {},
            }
            let ghost before = report.tensors@;
            report.tensors.push(t);
            assert(tensors_of(report.tensors@) =~= tensors_of(before).push(t@));
            if e > end {
                e
            } else {
                end
            }
        },
        Err(msg) => {
            put_text(&mut report.problems, msg);
            end
        },
    }
}

fn note_file_size(file_len: u64, header: u64, end: u64, problems: &mut Vec<String>)
    requires
        header <= file_len,
    ensures
        texts(final(problems)@) == size_problems(
            file_len as nat,
            header as nat,
            end as nat,
            texts(old(problems)@),
        ),
{
    let expected: u128 = header as u128 + end as u128;
    if (file_len as u128) < expected {
        let mut s: String = "data section needs ".to_owned();
        put_dec(&mut s, end as u128);
        s.append(" bytes but only ");
        put_dec(&mut s, (file_len - header) as u128);
        s.append(" are present (");
        put_dec(&mut s, expected - file_len as u128);
        s.append(" missing) — truncated file");
        put_text(problems, s);
    } else if file_len as u128 > expected {
        let extra: u128 = file_len as u128 - expected;
        let mut s: String = String::new();
        put_dec(&mut s, extra);
        s.append(" trailing byte");
        if extra == 1 {
            s.append("");
        } else {
            s.append("s");
        }
        s.append(" after the last tensor");
        assert(s@ =~= dec(extra as nat) + " trailing byte"@ + (if extra == 1 {
            ""@
        } else {
            "s"@
        }) + " after the last tensor"@);
        put_text(problems, s);
    }
}

/// How much of a file that starts with `b` has to be at hand: the length
/// field, and the header it declares unless that is beyond the cap.
pub open spec fn prefix_needed(b: Seq<u8>) -> nat {
    if b.len() < 8 || le(b, 0, 8) > MAX_HEADER {
        8
    } else {
        8 + le(b, 0, 8)
    }
}

/// How many bytes [`parse`] looks at, given the first eight.
pub fn prefix_len(start: &[u8]) -> (r: u64)
    ensures
        r == prefix_needed(start@),
        8 <= r <= 8 + MAX_HEADER,
{
    if start.len() < 8 {
        return 8;
    }
    let header_len: u64 = u64le(start, 0);
    if header_len > MAX_HEADER {
        8
    } else {
        8 + header_len
    }
}

/// Parse a safetensors header. `data` holds the file from its start, as much
/// of it as is at hand.
pub fn parse(data: &[u8], file_len: u64, path: &str) -> (r: Result<Report, PeekError>)
    ensures
        parse_model(data@, file_len as nat, path@) == match r {
            Ok(report) => Ok::<ReportModel, Seq<char>>(report@),
            Err(e) => Err(e.0@),
        },
{
    if data.len() < 8 {
        return Err(PeekError("file too small for a safetensors header".to_owned()));
    }
    let header_len: u64 = u64le(data, 0);
    if header_len > MAX_HEADER {
        let mut s: String = "declared header length ".to_owned();
        put_dec(&mut s, header_len as u128);
        s.append(" exceeds the 100 MB format cap");
        return Err(PeekError(s));
    }
    if header_len + 8 > file_len {
        let mut s: String = "declared header length ".to_owned();
        put_dec(&mut s, header_len as u128);
        s.append(" exceeds the file itself (");
        put_dec(&mut s, file_len as u128);
        s.append(" bytes)");
        return Err(PeekError(s));
    }
    let n: usize = header_len as usize;
    if n > data.len() - 8 {
        return Err(PeekError("file ends inside the JSON header".to_owned()));
    }
    let doc: Json = match Json::parse(slice_subrange(data, 8, 8 + n)) {
        Ok(v) => v,
        Err(e) => {
            let mut s: String = "header is not valid JSON: ".to_owned();
            s.append(e.to_string().as_str());
            return Err(PeekError(s));
        },
    };
    let members: Vec<(String, Json)> = match doc {
        Json::Obj(ms) => {
            proof {
                lemma_view_obj(ms);
            }
            ms
        },
        _ => {
            return Err(PeekError("header JSON is not an object".to_owned()));
        },
    };
    let mut report: Report = Report::new(path, "safetensors", file_len);
    report.header_bytes = 8 + header_len;
    let ghost ms = members_of(members@);
    let mut end: u64 = 0;
    let mut i: usize = 0;
    assert(ms.take(0) =~= seq![]);
    assert(gathered_in(report, end) =~= gathered(ms.take(0)));
    while i < members.len()
        invariant
            i <= members@.len(),
            ms == members_of(members@),
            gathered_in(report, end) == gathered(ms.take(i as int)),
            report@.file == path@,
            report.format@ == "safetensors"@,
            report.file_bytes == file_len,
            report.header_bytes == 8 + header_len,
        decreases members@.len() - i,
    {
        assert(ms.take(i + 1).drop_last() =~= ms.take(i as int));
        end = add_entry(&mut report, end, members[i].0.as_str(), &members[i].1);
        i = i + 1;
    }
    assert(ms.take(i as int) =~= ms);
    report.data_bytes = end;
    note_file_size(file_len, report.header_bytes, end, &mut report.problems);
    let mut details: Vec<(String, Json)> = Vec::new();
    put_member(&mut details, "header_json_bytes", Json::Int(header_len as i128));
    proof {
        lemma_view_obj(details);
        assert(members_of(details@) =~= seq![
            ("header_json_bytes"@, Doc::Int(header_len as int)),
        ]);
    }
    report.details = Json::Obj(details);
    assert(report@ =~= report_of(path@, file_len as nat, header_len as nat, ms));
    Ok(report)
}

} // verus!
