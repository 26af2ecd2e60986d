//! Spec-exact fixture writers for all four formats. Used by the tests and the
//! fixture generator, so everything runs against real bytes rather than
//! mocks. Writers ask for inputs a fixture would use (e.g. a known
//! safetensors dtype) — they are test infrastructure, not a public authoring
//! API.

use vstd::prelude::*;
use vstd::slice::slice_subrange;
use vstd::string::*;
use vstd::utf8::*;
use crate::bytes::{le_bytes, put_bytes, put_le, put_zeros, zeros};
use crate::gguf::{ceil_div, ggml_type, is_power_of_two, lemma_ceil_div, power_of_two, type_geometry};
use crate::json::{docs, lemma_view_arr, lemma_view_obj, members_of, written, Doc, Json};
use crate::npy::{descr_of, parse_descr_str, MAGIC};
use crate::report::{put_member, put_text, shape_docs, shape_list, texts};
use crate::text::{dec, put_dec, same};

verus! {

/// The product of the dimensions, when no step of it exceeds `u64`.
pub open spec fn numel64(shape: Seq<u64>) -> Option<nat>
    decreases shape.len(),
{
    if shape.len() == 0 {
        Some(1)
    } else {
        match numel64(shape.drop_last()) {
            Some(n) => if n * shape.last() as nat <= u64::MAX {
                Some(n * shape.last() as nat)
            } else {
                None
            },
            None => None,
        }
    }
}

fn numel(shape: &[u64]) -> (r: u64)
    requires
        numel64(shape@) is Some,
    ensures
        numel64(shape@) == Some(r as nat),
{
    let mut n: u64 = 1;
    let mut i: usize = 0;
    assert(shape@.take(0) =~= seq![]);
    while i < shape.len()
        invariant
            i <= shape@.len(),
            numel64(shape@) is Some,
            numel64(shape@.take(i as int)) == Some(n as nat),
        decreases shape@.len() - i,
    {
        proof {
            assert(shape@.take(i + 1).drop_last() =~= shape@.take(i as int));
            lemma_numel64_prefix(shape@, i + 1);
        }
        n = n * shape[i];
        i = i + 1;
    }
    assert(shape@.take(i as int) =~= shape@);
    n
}

proof fn lemma_numel64_prefix(shape: Seq<u64>, n: int)
    requires
        0 <= n <= shape.len(),
        numel64(shape) is Some,
    ensures
        numel64(shape.take(n)) is Some,
    decreases shape.len() - n,
{
    if n < shape.len() {
        lemma_numel64_prefix(shape, n + 1);
        assert(shape.take(n + 1).drop_last() =~= shape.take(n));
    } else {
        assert(shape.take(n) =~= shape);
    }
}

// ---------------------------------------------------------------------------
// safetensors
// ---------------------------------------------------------------------------

/// Bytes per element of the dtypes the writer knows.
pub open spec fn elem_bytes(dtype: Seq<char>) -> Option<nat> {
    if dtype == "F64"@ || dtype == "I64"@ || dtype == "U64"@ {
        Some(8)
    } else if dtype == "F32"@ || dtype == "I32"@ || dtype == "U32"@ {
        Some(4)
    } else if dtype == "F16"@ || dtype == "BF16"@ || dtype == "I16"@ || dtype == "U16"@ {
        Some(2)
    } else if dtype == "F8_E4M3"@ || dtype == "F8_E5M2"@ || dtype == "I8"@ || dtype == "U8"@
        || dtype == "BOOL"@ {
        Some(1)
    } else {
        None
    }
}

fn st_elem_bytes(dtype: &str) -> (r: u64)
    requires
        elem_bytes(dtype@) is Some,
    ensures
        elem_bytes(dtype@) == Some(r as nat),
{
    if same(dtype, "F64") || same(dtype, "I64") || same(dtype, "U64") {
        8
    } else if same(dtype, "F32") || same(dtype, "I32") || same(dtype, "U32") {
        4
    } else if same(dtype, "F16") || same(dtype, "BF16") || same(dtype, "I16") || same(dtype, "U16") {
        2
    } else {
        1
    }
}

/// A tensor to write: name, dtype, shape.
#[verifier::ext_equal]
pub struct StTensor {
    pub name: Seq<char>,
    pub dtype: Seq<char>,
    pub shape: Seq<u64>,
}

pub open spec fn st_tensors(ts: Seq<(&str, &str, &[u64])>) -> Seq<StTensor> {
    Seq::new(ts.len(), |i: int| StTensor { name: ts[i].0@, dtype: ts[i].1@, shape: ts[i].2@ })
}

pub open spec fn st_metadata(ms: Seq<(&str, &str)>) -> Seq<(Seq<char>, Doc)> {
    Seq::new(ms.len(), |i: int| (ms[i].0@, Doc::Str(ms[i].1@)))
}

pub open spec fn st_known(t: StTensor) -> bool {
    elem_bytes(t.dtype) is Some && numel64(t.shape) is Some
}

/// Bytes of data a tensor takes.
pub open spec fn st_bytes(t: StTensor) -> nat {
    numel64(t.shape)->0 * elem_bytes(t.dtype)->0
}

/// Bytes of data the first `n` tensors take.
pub open spec fn st_total(ts: Seq<StTensor>, n: nat) -> nat
    decreases n,
{
    if n == 0 || n > ts.len() {
        0
    } else {
        st_total(ts, (n - 1) as nat) + st_bytes(ts[n - 1])
    }
}

/// What the writer can write: known dtypes, and data that fits in memory.
pub open spec fn st_writable(ts: Seq<StTensor>) -> bool {
    (forall|i: int| 0 <= i < ts.len() ==> st_known(#[trigger] ts[i])) && st_total(ts, ts.len())
        <= usize::MAX
}

/// The header entry of a tensor whose data starts at `offset`.
pub open spec fn st_entry(t: StTensor, offset: nat) -> Doc {
    Doc::Obj(
        seq![
            ("dtype"@, Doc::Str(t.dtype)),
            ("shape"@, Doc::Arr(shape_docs(t.shape))),
            (
                "data_offsets"@,
                Doc::Arr(
                    seq![Doc::Int(offset as int), Doc::Int((offset + st_bytes(t)) as int)],
                ),
            ),
        ],
    )
}

/// The header entries of the first `n` tensors: data is packed back-to-back.
pub open spec fn st_entries(ts: Seq<StTensor>, n: nat) -> Seq<(Seq<char>, Doc)>
    decreases n,
{
    if n == 0 || n > ts.len() {
        seq![]
    } else {
        st_entries(ts, (n - 1) as nat).push(
            (ts[n - 1].name, st_entry(ts[n - 1], st_total(ts, (n - 1) as nat))),
        )
    }
}

/// The header as a JSON document.
pub open spec fn st_header(ts: Seq<StTensor>, metadata: Seq<(Seq<char>, Doc)>) -> Doc {
    let meta = if metadata.len() == 0 {
        seq![]
    } else {
        seq![("__metadata__"@, Doc::Obj(metadata))]
    };
    Doc::Obj(meta + st_entries(ts, ts.len()))
}

/// `n` spaces.
pub open spec fn spaces(n: nat) -> Seq<u8> {
    Seq::new(n, |i: int| 32u8)
}

/// How many spaces bring `n` to a multiple of `a`.
pub open spec fn padding(n: nat, a: nat) -> nat {
    if a == 0 || n % a == 0 {
        0
    } else {
        (a - n % a) as nat
    }
}

/// The header bytes: compact JSON, space-padded to an 8-byte boundary exactly
/// like the reference writer.
pub open spec fn st_header_bytes(ts: Seq<StTensor>, metadata: Seq<(Seq<char>, Doc)>) -> Seq<u8> {
    let text = encode_utf8(written(st_header(ts, metadata), None));
    text + spaces(padding(text.len(), 8))
}

/// A whole safetensors file with zeroed data.
pub open spec fn st_file(ts: Seq<StTensor>, metadata: Seq<(Seq<char>, Doc)>) -> Seq<u8> {
    let header = st_header_bytes(ts, metadata);
    le_bytes(header.len(), 8) + header + zeros(st_total(ts, ts.len()))
}

proof fn lemma_st_total_monotone(ts: Seq<StTensor>, n: nat, m: nat)
    requires
        n <= m <= ts.len(),
    ensures
        st_total(ts, n) <= st_total(ts, m),
    decreases m,
{
    if n < m {
        lemma_st_total_monotone(ts, n, (m - 1) as nat);
    }
}

fn put_space_padding(out: &mut Vec<u8>, a: usize)
    requires
        a > 0,
    ensures
        final(out)@ == old(out)@ + spaces(padding(old(out)@.len(), a as nat)),
{
    let m: usize = out.len() % a;
    let n: usize = if m == 0 {
        0
    } else {
        a - m
    };
    put_spaces(out, n);
}

fn put_spaces(out: &mut Vec<u8>, n: usize)
    ensures
        final(out)@ == old(out)@ + spaces(n as nat),
{
    let mut i: usize = 0;
    assert(out@ =~= old(out)@ + spaces(0));
    while i < n
        invariant
            i <= n,
            out@ == old(out)@ + spaces(i as nat),
        decreases n - i,
    {
        out.push(32);
        i = i + 1;
        assert(out@ =~= old(out)@ + spaces(i as nat));
    }
}

fn st_entry_json(dtype: &str, shape: &[u64], begin: u64, end: u64, Ghost(t): Ghost<StTensor>) -> (r:
    Json)
    requires
        t.dtype == dtype@,
        t.shape == shape@,
        end == begin + st_bytes(t),
    ensures
        r@ == st_entry(t, begin as nat),
{
    let dims: Vec<Json> = shape_list(shape);
    let mut offsets: Vec<Json> = Vec::new();
    offsets.push(Json::Int(begin as i128));
    offsets.push(Json::Int(end as i128));
    proof {
        lemma_view_arr(dims);
        lemma_view_arr(offsets);
        assert(docs(offsets@) =~= seq![Doc::Int(begin as int), Doc::Int(end as int)]);
    }
    let mut entry: Vec<(String, Json)> = Vec::new();
    put_member(&mut entry, "dtype", Json::Str(dtype.to_owned()));
    put_member(&mut entry, "shape", Json::Arr(dims));
    put_member(&mut entry, "data_offsets", Json::Arr(offsets));
    proof {
        lemma_view_obj(entry);
        assert(members_of(entry@) =~= st_entry(t, begin as nat)->Obj_0);
    }
    Json::Obj(entry)
}

/// Write a safetensors file with zeroed data. Offsets are packed
/// back-to-back; the header is space-padded to an 8-byte boundary exactly
/// like the reference writer.
pub fn safetensors(tensors: &[(&str, &str, &[u64])], metadata: &[(&str, &str)]) -> (r: Vec<u8>)
    requires
        st_writable(st_tensors(tensors@)),
    ensures
        r@ == st_file(st_tensors(tensors@), st_metadata(metadata@)),
{
    let ghost ts = st_tensors(tensors@);
    let ghost ms = st_metadata(metadata@);
    let mut members: Vec<(String, Json)> = Vec::new();
    if metadata.len() > 0 {
        let mut meta: Vec<(String, Json)> = Vec::new();
        let mut i: usize = 0;
        assert(members_of(meta@) =~= ms.take(0));
        while i < metadata.len()
            invariant
                i <= metadata@.len(),
                ms == st_metadata(metadata@),
                members_of(meta@) == ms.take(i as int),
            decreases metadata@.len() - i,
        {
            put_member(&mut meta, metadata[i].0, Json::Str(metadata[i].1.to_owned()));
            i = i + 1;
            assert(ms.take(i as int) =~= ms.take(i - 1).push(ms[i - 1]));
        }
        proof {
            assert(ms.take(i as int) =~= ms);
            lemma_view_obj(meta);
        }
        put_member(&mut members, "__metadata__", Json::Obj(meta));
    }
    let ghost fixed = members_of(members@);
    let mut offset: u64 = 0;
    let mut i: usize = 0;
    assert(fixed =~= fixed + st_entries(ts, 0));
    while i < tensors.len()
        invariant
            i <= tensors@.len(),
            ts == st_tensors(tensors@),
            st_writable(ts),
            offset == st_total(ts, i as nat),
            members_of(members@) == fixed + st_entries(ts, i as nat),
        decreases tensors@.len() - i,
    {
        let (name, dtype, shape): (&str, &str, &[u64]) = tensors[i];
        let ghost t = ts[i as int];
        proof {
            assert(st_known(t));
            lemma_st_total_monotone(ts, (i + 1) as nat, ts.len());
        }
        let n: u64 = numel(shape);
        let size: u64 = st_elem_bytes(dtype);
        assert(n * size == st_bytes(t));
        let bytes: u64 = n * size;
        let entry: Json = st_entry_json(dtype, shape, offset, offset + bytes, Ghost(t));
        put_member(&mut members, name, entry);
        offset = offset + bytes;
        i = i + 1;
        assert(members_of(members@) =~= fixed + st_entries(ts, i as nat));
    }
    proof {
        lemma_view_obj(members);
        assert(members_of(members@) =~= st_header(ts, ms)->Obj_0);
    }
    let text: String = Json::Obj(members).compact();
    let mut header: Vec<u8> = Vec::new();
    put_bytes(&mut header, text.as_str().as_bytes());
    assert(header@ =~= encode_utf8(written(st_header(ts, ms), None)));
    put_space_padding(&mut header, 8);
    let mut out: Vec<u8> = Vec::new();
    put_le(&mut out, header.len() as u64, 8);
    put_bytes(&mut out, header.as_slice());
    put_zeros(&mut out, offset as usize);
    assert(out@ =~= st_file(ts, ms));
    out
}

// ---------------------------------------------------------------------------
// npy
// ---------------------------------------------------------------------------

/// Dimensions joined by commas.
pub open spec fn joined(shape: Seq<u64>) -> Seq<char>
    decreases shape.len(),
{
    if shape.len() == 0 {
        seq![]
    } else if shape.len() == 1 {
        dec(shape[0] as nat)
    } else {
        joined(shape.drop_last()) + seq![',', ' '] + dec(shape.last() as nat)
    }
}

/// A shape as Python writes it.
pub open spec fn tuple_text(shape: Seq<u64>) -> Seq<char> {
    if shape.len() == 1 {
        seq!['('] + dec(shape[0] as nat) + seq![',', ')']
    } else {
        seq!['('] + joined(shape) + seq![')']
    }
}

/// The header dict as `np.save` writes it.
pub open spec fn npy_dict(descr: Seq<char>, fortran: bool, shape: Seq<u64>) -> Seq<char> {
    "{'descr': '"@ + descr + "', 'fortran_order': "@ + (if fortran {
        "True"@
    } else {
        "False"@
    }) + ", 'shape': "@ + tuple_text(shape) + ", }"@
}

/// The dict padded with spaces so that, with its newline, data starts on a
/// 64-byte boundary; `base` bytes stand before it.
pub open spec fn npy_padded(dict: Seq<u8>, base: nat) -> Seq<u8> {
    dict + spaces(padding(base + dict.len() + 1, 64)) + seq![10u8]
}

/// The bytes of a file around a header dict: `n` bytes of length field.
pub open spec fn npy_around(major: u8, dict: Seq<u8>, n: nat, data_len: nat) -> Seq<u8> {
    MAGIC@ + seq![major, 0u8] + le_bytes(dict.len(), n) + dict + zeros(data_len)
}

pub open spec fn npy_writable(descr: Seq<char>, shape: Seq<u64>) -> bool {
    &&& descr_of(descr) is Some
    &&& numel64(shape) is Some
    &&& npy_data_len(descr, shape) <= usize::MAX
    &&& npy_data_len(descr, shape) <= u64::MAX
}

pub open spec fn npy_data_len(descr: Seq<char>, shape: Seq<u64>) -> nat {
    match (descr_of(descr), numel64(shape)) {
        (Some((_, size, _)), Some(n)) => n * size,
        _ => 0,
    }
}

/// A format-1.0 file: u16 header length.
pub open spec fn npy_file(descr: Seq<char>, fortran: bool, shape: Seq<u64>) -> Seq<u8> {
    npy_around(
        1,
        npy_padded(encode_utf8(npy_dict(descr, fortran, shape)), 10),
        2,
        npy_data_len(descr, shape),
    )
}

/// A format-2.0 file: u32 header length.
pub open spec fn npy_v2_file(descr: Seq<char>, fortran: bool, shape: Seq<u64>) -> Seq<u8> {
    npy_around(
        2,
        npy_padded(encode_utf8(npy_dict(descr, fortran, shape)), 12),
        4,
        npy_data_len(descr, shape),
    )
}

fn dict_text(descr: &str, fortran: bool, shape: &[u64]) -> (r: String)
    ensures
        r@ == npy_dict(descr@, fortran, shape@),
{
    let mut s: String = "{'descr': '".to_owned();
    s.append(descr);
    s.append("', 'fortran_order': ");
    if fortran {
        s.append("True");
    } else {
        s.append("False");
    }
    s.append(", 'shape': ");
    put_tuple(&mut s, shape);
    s.append(", }");
    s
}

fn put_tuple(out: &mut String, shape: &[u64])
    ensures
        final(out)@ == old(out)@ + tuple_text(shape@),
{
    out.push('(');
    let ghost open = out@;
    let mut i: usize = 0;
    assert(shape@.take(0) =~= seq![]);
    assert(out@ =~= open + joined(shape@.take(0)));
    while i < shape.len()
        invariant
            i <= shape@.len(),
            out@ == open + joined(shape@.take(i as int)),
        decreases shape@.len() - i,
    {
        assert(shape@.take(i + 1).drop_last() =~= shape@.take(i as int));
        if i > 0 {
            out.push(',');
            out.push(' ');
        }
        put_dec(out, shape[i] as u128);
        i = i + 1;
        assert(out@ =~= open + joined(shape@.take(i as int)));
    }
    assert(shape@.take(i as int) =~= shape@);
    if shape.len() == 1 {
        out.push(',');
    }
    out.push(')');
    assert(out@ =~= old(out)@ + tuple_text(shape@));
}

fn data_len(descr: &str, shape: &[u64]) -> (r: usize)
    requires
        npy_writable(descr@, shape@),
    ensures
        r == npy_data_len(descr@, shape@),
{
    let size: u64 = match parse_descr_str(descr) {
        Some((_, size, _)) => size,
        None => 0,
    };
    let n: u64 = numel(shape);
    assert(n * size == npy_data_len(descr@, shape@));
    (n * size) as usize
}

fn npy_write(major: u8, dict: &[u8], n: usize, data_len: usize) -> (r: Vec<u8>)
    ensures
        r@ == npy_around(major, dict@, n as nat, data_len as nat),
{
    let mut out: Vec<u8> = Vec::new();
    put_bytes(&mut out, &MAGIC);
    out.push(major);
    out.push(0);
    put_le(&mut out, dict.len() as u64, n);
    put_bytes(&mut out, dict);
    put_zeros(&mut out, data_len);
    assert(out@ =~= npy_around(major, dict@, n as nat, data_len as nat));
    out
}

proof fn lemma_same_remainder(n: nat, base: nat)
    ensures
        (n % 64 + base + 1) % 64 == (base + n + 1) % 64,
{
}

/// The padded dict for a header whose length field ends at `base`.
fn padded_dict(descr: &str, fortran: bool, shape: &[u64], base: usize) -> (r: Vec<u8>)
    requires
        base <= 12,
    ensures
        r@ == npy_padded(encode_utf8(npy_dict(descr@, fortran, shape@)), base as nat),
{
    let text: String = dict_text(descr, fortran, shape);
    let mut dict: Vec<u8> = Vec::new();
    put_bytes(&mut dict, text.as_str().as_bytes());
    assert(dict@ =~= encode_utf8(npy_dict(descr@, fortran, shape@)));
    let m: usize = (dict.len() % 64 + base + 1) % 64;
    let pad: usize = if m == 0 {
        0
    } else {
        64 - m
    };
    proof {
        lemma_same_remainder(dict@.len(), base as nat);
    }
    put_spaces(&mut dict, pad);
    dict.push(10);
    assert(dict@ =~= npy_padded(encode_utf8(npy_dict(descr@, fortran, shape@)), base as nat));
    dict
}

/// Write a format-1.0 npy file (u16 header length, 64-byte alignment, zeroed
/// data), byte-identical to what `np.save` produces for the same dtype/shape.
pub fn npy(descr: &str, fortran: bool, shape: &[u64]) -> (r: Vec<u8>)
    requires
        npy_writable(descr@, shape@),
    ensures
        r@ == npy_file(descr@, fortran, shape@),
{
    let dict: Vec<u8> = padded_dict(descr, fortran, shape, 10);
    npy_write(1, dict.as_slice(), 2, data_len(descr, shape))
}

/// Write a format-2.0 npy file (u32 header length).
pub fn npy_v2(descr: &str, fortran: bool, shape: &[u64]) -> (r: Vec<u8>)
    requires
        npy_writable(descr@, shape@),
    ensures
        r@ == npy_v2_file(descr@, fortran, shape@),
{
    let dict: Vec<u8> = padded_dict(descr, fortran, shape, 12);
    npy_write(2, dict.as_slice(), 4, data_len(descr, shape))
}

/// Write an npy file around a verbatim header dict (no padding fix-ups) —
/// for malformed-header tests.
pub fn npy_raw(dict: &str, data_len: usize) -> (r: Vec<u8>)
    ensures
        r@ == npy_around(1, encode_utf8(dict@), 2, data_len as nat),
{
    npy_write(1, dict.as_bytes(), 2, data_len)
}

// ---------------------------------------------------------------------------
// ZIP / npz
// ---------------------------------------------------------------------------

/// One bit of CRC-32: the reversed IEEE 802.3 polynomial.
pub open spec fn crc_bit(c: u32) -> u32 {
    if c % 2 == 1 {
        (c / 2) ^ 0xedb8_8320u32
    } else {
        c / 2
    }
}

pub open spec fn crc_bits(c: u32, n: nat) -> u32
    decreases n,
{
    if n == 0 {
        c
    } else {
        crc_bits(crc_bit(c), (n - 1) as nat)
    }
}

/// The CRC register after the bytes of `s`.
pub open spec fn crc_register(s: Seq<u8>) -> u32
    decreases s.len(),
{
    if s.len() == 0 {
        u32::MAX
    } else {
        crc_bits(crc_register(s.drop_last()) ^ (s.last() as u32), 8)
    }
}

pub open spec fn crc_of(s: Seq<u8>) -> u32 {
    (u32::MAX - crc_register(s)) as u32
}

/// CRC-32 (IEEE 802.3), bitwise — plenty fast for fixture-sized data.
pub fn crc32(data: &[u8]) -> (r: u32)
    ensures
        r == crc_of(data@),
{
    let mut crc: u32 = u32::MAX;
    let mut i: usize = 0;
    assert(data@.take(0) =~= seq![]);
    while i < data.len()
        invariant
            i <= data@.len(),
            crc == crc_register(data@.take(i as int)),
        decreases data@.len() - i,
    {
        assert(data@.take(i + 1).drop_last() =~= data@.take(i as int));
        crc = crc ^ (data[i] as u32);
        let ghost start = crc;
        let mut k: u32 = 0;
        while k < 8
            invariant
                k <= 8,
                crc_bits(crc, (8 - k) as nat) == crc_bits(start, 8),
            decreases 8 - k,
        {
            crc = if crc % 2 == 1 {
                (crc / 2) ^ 0xedb8_8320u32
            } else {
                crc / 2
            };
            k = k + 1;
        }
        i = i + 1;
    }
    assert(data@.take(i as int) =~= data@);
    u32::MAX - crc
}

/// The longest stored block.
pub const MAX_STORED: usize = 65535;

/// A stored block: its header byte, length, complement and bytes.
pub open spec fn stored_block(last: bool, d: Seq<u8>) -> Seq<u8> {
    seq![
        if last {
            1u8
        } else {
            0u8
        },
    ] + le_bytes(d.len(), 2) + le_bytes((0xffff - d.len()) as nat, 2) + d
}

/// `d` in DEFLATE stored blocks.
pub open spec fn stored_stream(d: Seq<u8>) -> Seq<u8>
    decreases d.len(),
{
    if d.len() <= MAX_STORED {
        stored_block(true, d)
    } else {
        stored_block(false, d.take(MAX_STORED as int)) + stored_stream(d.skip(MAX_STORED as int))
    }
}

fn put_stored_block(out: &mut Vec<u8>, last: bool, d: &[u8])
    requires
        d@.len() <= MAX_STORED,
    ensures
        final(out)@ == old(out)@ + stored_block(last, d@),
{
    out.push(
        if last {
            1
        } else {
            0
        },
    );
    put_le(out, d.len() as u64, 2);
    put_le(out, (0xffff - d.len()) as u64, 2);
    put_bytes(out, d);
    assert(out@ =~= old(out)@ + stored_block(last, d@));
}

/// Wrap `data` in DEFLATE *stored* blocks (BTYPE=0) — a fully valid DEFLATE
/// stream any inflater accepts, producible without implementing compression.
pub fn deflate_stored(data: &[u8]) -> (r: Vec<u8>)
    ensures
        r@ == stored_stream(data@),
{
    let mut out: Vec<u8> = Vec::new();
    let mut at: usize = 0;
    let n: usize = data.len();
    assert(data@.skip(0) =~= data@);
    assert(out@ + stored_stream(data@) =~= stored_stream(data@));
    while n - at > MAX_STORED
        invariant
            at <= n,
            n == data@.len(),
            out@ + stored_stream(data@.skip(at as int)) == stored_stream(data@),
        decreases n - at,
    {
        let ghost before = out@;
        let ghost rest = data@.skip(at as int);
        proof {
            assert(data@.subrange(at as int, at + MAX_STORED) =~= rest.take(MAX_STORED as int));
            assert(rest.skip(MAX_STORED as int) =~= data@.skip(at + MAX_STORED));
        }
        put_stored_block(&mut out, false, slice_subrange(data, at, at + MAX_STORED));
        at = at + MAX_STORED;
        assert(out@ + stored_stream(data@.skip(at as int)) =~= before + stored_stream(rest));
    }
    assert(data@.subrange(at as int, n as int) =~= data@.skip(at as int));
    put_stored_block(&mut out, true, slice_subrange(data, at, n));
    out
}

/// One entry as it will appear in the central directory. `flags` and
/// `method` are public so tests can fake encrypted or exotic members.
#[derive(Debug)]
pub struct ZipEntry {
    pub name: String,
    pub method: u16,
    pub flags: u16,
    pub crc: u32,
    pub comp_size: u64,
    pub uncomp_size: u64,
    pub local_offset: u64,
}

#[verifier::ext_equal]
pub struct ZipEntryModel {
    pub name: Seq<char>,
    pub method: nat,
    pub flags: nat,
    pub crc: nat,
    pub comp_size: nat,
    pub uncomp_size: nat,
    pub local_offset: nat,
}

impl View for ZipEntry {
    type V = ZipEntryModel;

    open spec fn view(&self) -> ZipEntryModel {
        ZipEntryModel {
            name: self.name@,
            method: self.method as nat,
            flags: self.flags as nat,
            crc: self.crc as nat,
            comp_size: self.comp_size as nat,
            uncomp_size: self.uncomp_size as nat,
            local_offset: self.local_offset as nat,
        }
    }
}

pub open spec fn zip_entries(es: Seq<ZipEntry>) -> Seq<ZipEntryModel> {
    Seq::new(es.len(), |i: int| es[i]@)
}

/// A member as it stands in the archive: local header, name, payload.
pub open spec fn local_record(
    name: Seq<char>,
    method: nat,
    crc: nat,
    uncomp_size: nat,
    payload: Seq<u8>,
) -> Seq<u8> {
    le_bytes(0x0403_4b50, 4) + le_bytes(20, 2) + le_bytes(0, 2) + le_bytes(method, 2) + zeros(4)
        + le_bytes(crc, 4) + le_bytes(payload.len(), 4) + le_bytes(uncomp_size, 4) + le_bytes(
        encode_utf8(name).len(),
        2,
    ) + le_bytes(0, 2) + encode_utf8(name) + payload
}

/// The ZIP64 extra field of an entry.
pub open spec fn zip64_extra(e: ZipEntryModel) -> Seq<u8> {
    le_bytes(1, 2) + le_bytes(24, 2) + le_bytes(e.uncomp_size, 8) + le_bytes(e.comp_size, 8)
        + le_bytes(e.local_offset, 8)
}

/// An entry of the central directory.
pub open spec fn central_record(e: ZipEntryModel, zip64: bool) -> Seq<u8> {
    let name = encode_utf8(e.name);
    let fixed = le_bytes(0x0201_4b50, 4) + le_bytes(0x0314, 2) + le_bytes(20, 2) + le_bytes(
        e.flags,
        2,
    ) + le_bytes(e.method, 2) + zeros(4) + le_bytes(e.crc, 4) + le_bytes(
        if zip64 {
            0xffff_ffff
        } else {
            e.comp_size
        },
        4,
    ) + le_bytes(
        if zip64 {
            0xffff_ffff
        } else {
            e.uncomp_size
        },
        4,
    ) + le_bytes(name.len(), 2) + le_bytes(
        if zip64 {
            28
        } else {
            0
        },
        2,
    ) + zeros(2) + zeros(8) + le_bytes(
        if zip64 {
            0xffff_ffff
        } else {
            e.local_offset
        },
        4,
    ) + name;
    if zip64 {
        fixed + zip64_extra(e)
    } else {
        fixed
    }
}

/// The first `n` entries of the central directory.
pub open spec fn central_records(es: Seq<ZipEntryModel>, n: nat, zip64: bool) -> Seq<u8>
    decreases n,
{
    if n == 0 || n > es.len() {
        seq![]
    } else {
        central_records(es, (n - 1) as nat, zip64) + central_record(es[n - 1], zip64)
    }
}

/// The ZIP64 end-of-central-directory record and its locator.
pub open spec fn zip64_trailer(count: nat, cd_size: nat, cd_offset: nat) -> Seq<u8> {
    le_bytes(0x0606_4b50, 4) + le_bytes(44, 8) + le_bytes(0x032d, 2) + le_bytes(45, 2) + zeros(8)
        + le_bytes(count, 8) + le_bytes(count, 8) + le_bytes(cd_size, 8) + le_bytes(cd_offset, 8)
        + le_bytes(0x0706_4b50, 4) + zeros(4) + le_bytes(cd_offset + cd_size, 8) + le_bytes(1, 4)
}

/// The end-of-central-directory record.
pub open spec fn eocd_record(count: nat, cd_size: nat, cd_offset: nat, zip64: bool) -> Seq<u8> {
    let n = if zip64 {
        0xffff
    } else {
        count
    };
    le_bytes(0x0605_4b50, 4) + zeros(4) + le_bytes(n, 2) + le_bytes(n, 2) + le_bytes(
        if zip64 {
            0xffff_ffff
        } else {
            cd_size
        },
        4,
    ) + le_bytes(
        if zip64 {
            0xffff_ffff
        } else {
            cd_offset
        },
        4,
    ) + zeros(2)
}

/// A whole archive: the members' records, then the directory.
pub open spec fn archive(buf: Seq<u8>, es: Seq<ZipEntryModel>, zip64: bool) -> Seq<u8> {
    let cd = central_records(es, es.len(), zip64);
    buf + cd + (if zip64 {
        zip64_trailer(es.len(), cd.len(), buf.len())
    } else {
        seq![]
    }) + eocd_record(es.len(), cd.len(), buf.len(), zip64)
}

/// A minimal ZIP writer: stored members, "deflated" members (via stored
/// DEFLATE blocks or pre-compressed bytes) and optional forced ZIP64 records.
#[derive(Debug)]
pub struct ZipWriter {
    /// The members' records written so far.
    pub buf: Vec<u8>,
    pub entries: Vec<ZipEntry>,
}

impl Default for ZipWriter {
    fn default() -> (r: ZipWriter)
        ensures
            r.buf@ == Seq::<u8>::empty(),
            r.entries@ == Seq::<ZipEntry>::empty(),
    {
        ZipWriter::new()
    }
}

/// The entry of a member just added to `buf`.
pub open spec fn entry_of(
    buf: Seq<u8>,
    name: Seq<char>,
    method: nat,
    crc: nat,
    uncomp_size: nat,
    payload: Seq<u8>,
) -> ZipEntryModel {
    ZipEntryModel {
        name,
        method,
        flags: 0,
        crc,
        comp_size: payload.len(),
        uncomp_size,
        local_offset: buf.len(),
    }
}

impl ZipWriter {
    /// Whether adding a member led from `before` to this writer.
    pub open spec fn added(
        &self,
        before: &ZipWriter,
        name: Seq<char>,
        method: nat,
        crc: nat,
        uncomp_size: nat,
        payload: Seq<u8>,
    ) -> bool {
        &&& self.buf@ == before.buf@ + local_record(
            name,
            method,
            crc,
            uncomp_size,
            payload,
        )
        &&& zip_entries(self.entries@) == zip_entries(before.entries@).push(
            entry_of(before.buf@, name, method, crc, uncomp_size, payload),
        )
    }

    pub fn new() -> (r: ZipWriter)
        ensures
            r.buf@ == Seq::<u8>::empty(),
            r.entries@ == Seq::<ZipEntry>::empty(),
    {
        ZipWriter { buf: Vec::new(), entries: Vec::new() }
    }

    pub fn add_stored(&mut self, name: &str, data: &[u8])
        ensures
            final(self).added(
                old(self),
                name@,
                0,
                crc_of(data@) as nat,
                data@.len(),
                data@,
            ),
    {
        self.add_member(name, 0, crc32(data), data.len() as u64, data);
    }

    pub fn add_deflated(&mut self, name: &str, data: &[u8])
        ensures
            final(self).added(
                old(self),
                name@,
                8,
                crc_of(data@) as nat,
                data@.len(),
                stored_stream(data@),
            ),
    {
        let comp: Vec<u8> = deflate_stored(data);
        self.add_member(name, 8, crc32(data), data.len() as u64, comp.as_slice());
    }

    /// Add a member whose compressed payload was produced elsewhere.
    pub fn add_precompressed(&mut self, name: &str, comp: &[u8], uncomp_size: u64, crc: u32)
        ensures
            final(self).added(old(self), name@, 8, crc as nat, uncomp_size as nat, comp@),
    {
        self.add_member(name, 8, crc, uncomp_size, comp);
    }

    fn add_member(&mut self, name: &str, method: u16, crc: u32, uncomp_size: u64, payload: &[u8])
        ensures
            final(self).added(
                old(self),
                name@,
                method as nat,
                crc as nat,
                uncomp_size as nat,
                payload@,
            ),
    {
        let local_offset: u64 = self.buf.len() as u64;
        let name_bytes: &[u8] = name.as_bytes();
        put_le(&mut self.buf, 0x0403_4b50, 4);
        put_le(&mut self.buf, 20, 2);  // version needed
        put_le(&mut self.buf, 0, 2);  // flags
        put_le(&mut self.buf, method as u64, 2);
        put_zeros(&mut self.buf, 4);  // dos time/date
        put_le(&mut self.buf, crc as u64, 4);
        put_le(&mut self.buf, payload.len() as u64, 4);
        put_le(&mut self.buf, uncomp_size, 4);
        put_le(&mut self.buf, name_bytes.len() as u64, 2);
        put_le(&mut self.buf, 0, 2);  // extra len
        put_bytes(&mut self.buf, name_bytes);
        put_bytes(&mut self.buf, payload);
        assert(self.buf@ =~= old(self).buf@ + local_record(
            name@,
            method as nat,
            crc as nat,
            uncomp_size as nat,
            payload@,
        ));
        let e = ZipEntry {
            name: name.to_owned(),
            method,
            flags: 0,
            crc,
            comp_size: payload.len() as u64,
            uncomp_size,
            local_offset,
        };
        self.entries.push(e);
        assert(zip_entries(self.entries@) =~= zip_entries(old(self).entries@).push(e@));
    }

    /// Append the central directory and EOCD. With `zip64`, sizes and
    /// offsets in the central directory use 0xFFFFFFFF sentinels resolved by
    /// ZIP64 extra fields, and ZIP64 EOCD + locator records are written —
    /// the layout numpy produces for >4 GiB archives.
    pub fn finish(self, zip64: bool) -> (r: Vec<u8>)
        ensures
            r@ == archive(self.buf@, zip_entries(self.entries@), zip64),
    {
        let mut out: Vec<u8> = self.buf;
        let entries: Vec<ZipEntry> = self.entries;
        let ghost start = out@;
        let ghost es = zip_entries(entries@);
        let cd_offset: usize = out.len();
        let n: usize = entries.len();
        put_directory(&mut out, &entries, zip64);
        let ghost cd = central_records(es, es.len(), zip64);
        let cd_end: usize = out.len();
        let cd_size: usize = cd_end - cd_offset;
        if zip64 {
            put_zip64_trailer(&mut out, n as u64, cd_size as u64, cd_offset as u64, cd_end as u64);
        }
        let ghost trailer = if zip64 {
            zip64_trailer(es.len(), cd.len(), start.len())
        } else {
            seq![]
        };
        assert(out@ =~= start + cd + trailer);
        put_eocd(&mut out, n as u64, cd_size as u64, cd_offset as u64, zip64);
        assert(out@ =~= archive(start, es, zip64));
        out
    }
}

fn put_directory(out: &mut Vec<u8>, entries: &Vec<ZipEntry>, zip64: bool)
    ensures
        final(out)@ == old(out)@ + central_records(
            zip_entries(entries@),
            entries@.len(),
            zip64,
        ),
{
    let ghost start = out@;
    let ghost es = zip_entries(entries@);
    let n: usize = entries.len();
    let mut i: usize = 0;
    assert(out@ =~= start + central_records(es, 0, zip64));
    while i < n
        invariant
            i <= n,
            n == entries@.len(),
            es == zip_entries(entries@),
            out@ == start + central_records(es, i as nat, zip64),
        decreases n - i,
    {
        put_central(out, &entries[i], zip64);
        proof {
            lemma_behind(
                start,
                central_records(es, i as nat, zip64),
                central_record(es[i as int], zip64),
            );
        }
        i = i + 1;
    }
}

proof fn lemma_behind(x: Seq<u8>, y: Seq<u8>, z: Seq<u8>)
    ensures
        x + y + z == x + (y + z),
{
    assert(x + y + z =~= x + (y + z));
}

fn put_central(out: &mut Vec<u8>, e: &ZipEntry, zip64: bool)
    ensures
        final(out)@ == old(out)@ + central_record(e@, zip64),
{
    let name: &[u8] = e.name.as_str().as_bytes();
    let (comp32, uncomp32, off32, extra_len): (u64, u64, u64, u64) = if zip64 {
        (0xffff_ffff, 0xffff_ffff, 0xffff_ffff, 28)
    } else {
        (e.comp_size, e.uncomp_size, e.local_offset, 0)
    };
    put_le(out, 0x0201_4b50, 4);
    put_le(out, 0x0314, 2);  // made by: unix
    put_le(out, 20, 2);  // version needed
    put_le(out, e.flags as u64, 2);
    put_le(out, e.method as u64, 2);
    put_zeros(out, 4);  // dos time/date
    put_le(out, e.crc as u64, 4);
    put_le(out, comp32, 4);
    put_le(out, uncomp32, 4);
    put_le(out, name.len() as u64, 2);
    put_le(out, extra_len, 2);
    put_zeros(out, 2);  // comment len
    put_zeros(out, 8);  // disk start, int attrs, ext attrs
    put_le(out, off32, 4);
    put_bytes(out, name);
    if zip64 {
        put_zip64_extra(out, e);
    }
    assert(out@ =~= old(out)@ + central_record(e@, zip64));
}

fn put_zip64_extra(out: &mut Vec<u8>, e: &ZipEntry)
    ensures
        final(out)@ == old(out)@ + zip64_extra(e@),
{
    put_le(out, 1, 2);
    put_le(out, 24, 2);
    put_le(out, e.uncomp_size, 8);
    put_le(out, e.comp_size, 8);
    put_le(out, e.local_offset, 8);
    assert(out@ =~= old(out)@ + zip64_extra(e@));
}

fn put_eocd(out: &mut Vec<u8>, n: u64, cd_size: u64, cd_offset: u64, zip64: bool)
    ensures
        final(out)@ == old(out)@ + eocd_record(
            n as nat,
            cd_size as nat,
            cd_offset as nat,
            zip64,
        ),
{
    let (n16, size32, offset32): (u64, u64, u64) = if zip64 {
        (0xffff, 0xffff_ffff, 0xffff_ffff)
    } else {
        (n, cd_size, cd_offset)
    };
    put_le(out, 0x0605_4b50, 4);
    put_zeros(out, 4);  // disk numbers
    put_le(out, n16, 2);
    put_le(out, n16, 2);
    put_le(out, size32, 4);
    put_le(out, offset32, 4);
    put_zeros(out, 2);  // comment len
    assert(out@ =~= old(out)@ + eocd_record(n as nat, cd_size as nat, cd_offset as nat, zip64));
}

fn put_zip64_trailer(out: &mut Vec<u8>, n: u64, cd_size: u64, cd_offset: u64, cd_end: u64)
    requires
        cd_end == cd_offset + cd_size,
    ensures
        final(out)@ == old(out)@ + zip64_trailer(n as nat, cd_size as nat, cd_offset as nat),
{
    put_le(out, 0x0606_4b50, 4);
    put_le(out, 44, 8);  // size of remainder
    put_le(out, 0x032d, 2);
    put_le(out, 45, 2);
    put_zeros(out, 8);  // disk numbers
    put_le(out, n, 8);
    put_le(out, n, 8);
    put_le(out, cd_size, 8);
    put_le(out, cd_offset, 8);
    put_le(out, 0x0706_4b50, 4);
    put_zeros(out, 4);  // disk with EOCD64
    put_le(out, cd_end, 8);
    put_le(out, 1, 4);  // total disks
    assert(out@ =~= old(out)@ + zip64_trailer(n as nat, cd_size as nat, cd_offset as nat));
}

/// A member to write: name, content, whether to deflate it.
#[verifier::ext_equal]
pub struct NpzMember {
    pub name: Seq<char>,
    pub data: Seq<u8>,
    pub deflate: bool,
}

pub open spec fn npz_members(ms: Seq<(&str, Vec<u8>, bool)>) -> Seq<NpzMember> {
    Seq::new(ms.len(), |i: int| NpzMember { name: ms[i].0@, data: ms[i].1@, deflate: ms[i].2 })
}

pub open spec fn member_payload(m: NpzMember) -> Seq<u8> {
    if m.deflate {
        stored_stream(m.data)
    } else {
        m.data
    }
}

pub open spec fn member_method(m: NpzMember) -> nat {
    if m.deflate {
        8
    } else {
        0
    }
}

/// The records of the first `n` members.
pub open spec fn npz_body(ms: Seq<NpzMember>, n: nat) -> Seq<u8>
    decreases n,
{
    if n == 0 || n > ms.len() {
        seq![]
    } else {
        npz_body(ms, (n - 1) as nat) + local_record(
            ms[n - 1].name,
            member_method(ms[n - 1]),
            crc_of(ms[n - 1].data) as nat,
            ms[n - 1].data.len(),
            member_payload(ms[n - 1]),
        )
    }
}

/// The directory entries of the first `n` members.
pub open spec fn npz_entries(ms: Seq<NpzMember>, n: nat) -> Seq<ZipEntryModel>
    decreases n,
{
    if n == 0 || n > ms.len() {
        seq![]
    } else {
        npz_entries(ms, (n - 1) as nat).push(
            entry_of(
                npz_body(ms, (n - 1) as nat),
                ms[n - 1].name,
                member_method(ms[n - 1]),
                crc_of(ms[n - 1].data) as nat,
                ms[n - 1].data.len(),
                member_payload(ms[n - 1]),
            ),
        )
    }
}

/// A whole npz archive.
pub open spec fn npz_file(ms: Seq<NpzMember>) -> Seq<u8> {
    archive(npz_body(ms, ms.len()), npz_entries(ms, ms.len()), false)
}

/// Write an npz archive: `(member name, member bytes, deflate?)`.
pub fn npz(members: &[(&str, Vec<u8>, bool)]) -> (r: Vec<u8>)
    ensures
        r@ == npz_file(npz_members(members@)),
{
    let ghost ms = npz_members(members@);
    let mut z: ZipWriter = ZipWriter::new();
    let mut i: usize = 0;
    assert(zip_entries(z.entries@) =~= npz_entries(ms, 0));
    while i < members.len()
        invariant
            i <= members@.len(),
            ms == npz_members(members@),
            z.buf@ == npz_body(ms, i as nat),
            zip_entries(z.entries@) == npz_entries(ms, i as nat),
        decreases members@.len() - i,
    {
        if members[i].2 {
            z.add_deflated(members[i].0, members[i].1.as_slice());
        } else {
            z.add_stored(members[i].0, members[i].1.as_slice());
        }
        i = i + 1;
    }
    z.finish(false)
}

// ---------------------------------------------------------------------------
// GGUF
// ---------------------------------------------------------------------------

/// A GGUF metadata value the builder can serialize. Floating-point values are
/// given by their IEEE 754 bits.
#[derive(Debug, Clone)]
pub enum Gv {
    U8(u8),
    I8(i8),
    U16(u16),
    I16(i16),
    U32(u32),
    I32(i32),
    F32(u32),
    Bool(bool),
    Str(String),
    U64(u64),
    I64(i64),
    F64(u64),
    AStr(Vec<String>),
    AI32(Vec<i32>),
    AF32(Vec<u32>),
}

/// The mathematical value of a [`Gv`].
pub enum GvModel {
    U8(u8),
    I8(i8),
    U16(u16),
    I16(i16),
    U32(u32),
    I32(i32),
    F32(u32),
    Bool(bool),
    Str(Seq<char>),
    U64(u64),
    I64(i64),
    F64(u64),
    AStr(Seq<Seq<char>>),
    AI32(Seq<i32>),
    AF32(Seq<u32>),
}

impl View for Gv {
    type V = GvModel;

    open spec fn view(&self) -> GvModel {
        match *self {
            Gv::U8(x) => GvModel::U8(x),
            Gv::I8(x) => GvModel::I8(x),
            Gv::U16(x) => GvModel::U16(x),
            Gv::I16(x) => GvModel::I16(x),
            Gv::U32(x) => GvModel::U32(x),
            Gv::I32(x) => GvModel::I32(x),
            Gv::F32(x) => GvModel::F32(x),
            Gv::Bool(x) => GvModel::Bool(x),
            Gv::Str(x) => GvModel::Str(x@),
            Gv::U64(x) => GvModel::U64(x),
            Gv::I64(x) => GvModel::I64(x),
            Gv::F64(x) => GvModel::F64(x),
            Gv::AStr(x) => GvModel::AStr(texts(x@)),
            Gv::AI32(x) => GvModel::AI32(x@),
            Gv::AF32(x) => GvModel::AF32(x@),
        }
    }
}

/// Two's complement on 64 bits; narrower numbers are its low-order bytes.
pub open spec fn twos(x: int) -> nat {
    if x < 0 {
        (x + 0x1_0000_0000_0000_0000) as nat
    } else {
        x as nat
    }
}

/// A string as GGUF stores it.
pub open spec fn gguf_string(s: Seq<char>) -> Seq<u8> {
    le_bytes(encode_utf8(s).len(), 8) + encode_utf8(s)
}

pub open spec fn gguf_strings(v: Seq<Seq<char>>) -> Seq<u8>
    decreases v.len(),
{
    if v.len() == 0 {
        seq![]
    } else {
        gguf_strings(v.drop_last()) + gguf_string(v.last())
    }
}

pub open spec fn gguf_i32s(v: Seq<i32>) -> Seq<u8>
    decreases v.len(),
{
    if v.len() == 0 {
        seq![]
    } else {
        gguf_i32s(v.drop_last()) + le_bytes(twos(v.last() as int), 4)
    }
}

pub open spec fn gguf_u32s(v: Seq<u32>) -> Seq<u8>
    decreases v.len(),
{
    if v.len() == 0 {
        seq![]
    } else {
        gguf_u32s(v.drop_last()) + le_bytes(v.last() as nat, 4)
    }
}

/// The start of an array: its type, element type and length.
pub open spec fn array_head(elem: nat, n: nat) -> Seq<u8> {
    le_bytes(9, 4) + le_bytes(elem, 4) + le_bytes(n, 8)
}

/// A metadata value as GGUF stores it, type id first.
pub open spec fn gguf_value(v: GvModel) -> Seq<u8> {
    match v {
        GvModel::U8(x) => le_bytes(0, 4) + le_bytes(x as nat, 1),
        GvModel::I8(x) => le_bytes(1, 4) + le_bytes(twos(x as int), 1),
        GvModel::U16(x) => le_bytes(2, 4) + le_bytes(x as nat, 2),
        GvModel::I16(x) => le_bytes(3, 4) + le_bytes(twos(x as int), 2),
        GvModel::U32(x) => le_bytes(4, 4) + le_bytes(x as nat, 4),
        GvModel::I32(x) => le_bytes(5, 4) + le_bytes(twos(x as int), 4),
        GvModel::F32(x) => le_bytes(6, 4) + le_bytes(x as nat, 4),
        GvModel::Bool(x) => le_bytes(7, 4) + le_bytes(
            if x {
                1
            } else {
                0
            },
            1,
        ),
        GvModel::Str(x) => le_bytes(8, 4) + gguf_string(x),
        GvModel::U64(x) => le_bytes(10, 4) + le_bytes(x as nat, 8),
        GvModel::I64(x) => le_bytes(11, 4) + le_bytes(
            twos(x as int),
            8,
        ),
        GvModel::F64(x) => le_bytes(12, 4) + le_bytes(x as nat, 8),
        GvModel::AStr(x) => array_head(8, x.len()) + gguf_strings(x),
        GvModel::AI32(x) => array_head(5, x.len()) + gguf_i32s(x),
        GvModel::AF32(x) => array_head(6, x.len()) + gguf_u32s(x),
    }
}

/// A tensor to write: name, shape, ggml type id.
#[verifier::ext_equal]
pub struct GgufTensor {
    pub name: Seq<char>,
    pub shape: Seq<u64>,
    pub id: u32,
}

pub open spec fn gguf_tensors(ts: Seq<(String, Vec<u64>, u32)>) -> Seq<GgufTensor> {
    Seq::new(ts.len(), |i: int| GgufTensor { name: ts[i].0@, shape: ts[i].1@, id: ts[i].2 })
}

pub open spec fn gguf_kvs(kvs: Seq<(String, Gv)>) -> Seq<(Seq<char>, GvModel)> {
    Seq::new(kvs.len(), |i: int| (kvs[i].0@, kvs[i].1@))
}

/// Bytes of data a tensor takes; none when its type is unknown.
pub open spec fn gguf_bytes(t: GgufTensor) -> nat {
    match ggml_type(t.id) {
        Some((_, len, bytes)) => ceil_div(numel64(t.shape)->0, len) * bytes,
        None => 0,
    }
}

/// Where the data of tensor `i` starts: after the tensors before it, at the
/// next multiple of the alignment.
pub open spec fn gguf_start(ts: Seq<GgufTensor>, i: nat, a: nat) -> nat
    decreases i, 1int,
{
    ceil_div(gguf_end(ts, i, a), a) * a
}

/// Where the data of the first `n` tensors ends.
pub open spec fn gguf_end(ts: Seq<GgufTensor>, n: nat, a: nat) -> nat
    decreases n, 0int,
{
    if n == 0 || n > ts.len() {
        0
    } else {
        gguf_start(ts, (n - 1) as nat, a) + gguf_bytes(ts[n - 1])
    }
}

pub open spec fn gguf_dims(shape: Seq<u64>) -> Seq<u8>
    decreases shape.len(),
{
    if shape.len() == 0 {
        seq![]
    } else {
        gguf_dims(shape.drop_last()) + le_bytes(shape.last() as nat, 8)
    }
}

/// An entry of the tensor table.
pub open spec fn gguf_info(t: GgufTensor, offset: nat) -> Seq<u8> {
    gguf_string(t.name) + le_bytes(t.shape.len(), 4) + gguf_dims(t.shape) + le_bytes(t.id as nat, 4)
        + le_bytes(offset, 8)
}

/// The first `n` entries of the tensor table.
pub open spec fn gguf_infos(ts: Seq<GgufTensor>, n: nat, a: nat) -> Seq<u8>
    decreases n,
{
    if n == 0 || n > ts.len() {
        seq![]
    } else {
        gguf_infos(ts, (n - 1) as nat, a) + gguf_info(
            ts[n - 1],
            gguf_start(ts, (n - 1) as nat, a),
        )
    }
}

/// The first `n` metadata entries.
pub open spec fn gguf_metadata(kvs: Seq<(Seq<char>, GvModel)>, n: nat) -> Seq<u8>
    decreases n,
{
    if n == 0 || n > kvs.len() {
        seq![]
    } else {
        gguf_metadata(kvs, (n - 1) as nat) + gguf_string(kvs[n - 1].0) + gguf_value(kvs[n - 1].1)
    }
}

/// The header: everything before the padding.
pub open spec fn gguf_header(
    kvs: Seq<(Seq<char>, GvModel)>,
    ts: Seq<GgufTensor>,
    a: nat,
) -> Seq<u8> {
    seq![0x47u8, 0x47, 0x55, 0x46] + le_bytes(3, 4) + le_bytes(ts.len(), 8) + le_bytes(
        kvs.len(),
        8,
    ) + gguf_metadata(kvs, kvs.len()) + gguf_infos(ts, ts.len(), a)
}

/// A whole GGUF file with zeroed, aligned tensor data.
pub open spec fn gguf_file(
    kvs: Seq<(Seq<char>, GvModel)>,
    ts: Seq<GgufTensor>,
    a: nat,
) -> Seq<u8> {
    let header = gguf_header(kvs, ts, a);
    header + zeros(padding(header.len(), a)) + zeros(gguf_end(ts, ts.len(), a))
}

/// What the builder can write: element counts in range, and data that fits
/// in memory.
pub open spec fn gguf_writable(ts: Seq<GgufTensor>, a: nat) -> bool {
    &&& 0 < a <= usize::MAX
    &&& forall|i: int| 0 <= i < ts.len() ==> numel64((#[trigger] ts[i]).shape) is Some
    &&& gguf_end(ts, ts.len(), a) <= usize::MAX
}

pub proof fn lemma_gguf_end_monotone(ts: Seq<GgufTensor>, n: nat, m: nat, a: nat)
    requires
        a > 0,
        n <= m <= ts.len(),
    ensures
        gguf_end(ts, n, a) <= gguf_end(ts, m, a),
        n < m ==> gguf_start(ts, n, a) <= gguf_end(ts, m, a),
    decreases m,
{
    if n < m {
        lemma_gguf_end_monotone(ts, n, (m - 1) as nat, a);
        lemma_ceil_div(gguf_end(ts, (m - 1) as nat, a), a);
    }
}

/// Builds spec-exact GGUF v3 (little-endian) files with zeroed, aligned
/// tensor data.
#[derive(Debug)]
pub struct GgufBuilder {
    pub alignment: u64,
    pub kvs: Vec<(String, Gv)>,
    pub tensors: Vec<(String, Vec<u64>, u32)>,
}

/// The alignment after adding a metadata entry.
pub open spec fn alignment_after(old_alignment: u64, key: Seq<char>, v: GvModel) -> u64 {
    if key == "general.alignment"@ {
        match v {
            GvModel::U32(a) => if is_power_of_two(a as nat) {
                a as u64
            } else {
                old_alignment
            },
            _ => old_alignment,
        }
    } else {
        old_alignment
    }
}

/// The vocabulary of the demo model.
pub open spec fn demo_tokens() -> Seq<Seq<char>> {
    seq![
        "<unk>"@, "<s>"@, "</s>"@, "the"@, "ten"@, "sor"@, "peek"@, "of"@, "and"@, "to"@, "in"@,
        "a"@,
    ]
}

pub open spec fn demo_kvs() -> Seq<(Seq<char>, GvModel)> {
    seq![
        ("general.architecture"@, GvModel::Str("llama"@)),
        ("general.name"@, GvModel::Str("tinyllama-demo"@)),
        ("general.file_type"@, GvModel::U32(7)),
        ("general.quantization_version"@, GvModel::U32(2)),
        ("llama.block_count"@, GvModel::U32(1)),
        ("llama.context_length"@, GvModel::U32(512)),
        ("llama.embedding_length"@, GvModel::U32(64)),
        ("llama.rope.freq_base"@, GvModel::F32(0x461c_4000)),
        ("tokenizer.ggml.model"@, GvModel::Str("llama"@)),
        ("tokenizer.ggml.tokens"@, GvModel::AStr(demo_tokens())),
        ("tokenizer.ggml.scores"@, GvModel::AF32(Seq::new(12, |i: int| 0u32))),
        ("tokenizer.ggml.token_type"@, GvModel::AI32(Seq::new(12, |i: int| 1i32))),
    ]
}

pub open spec fn demo_tensors() -> Seq<GgufTensor> {
    seq![
        GgufTensor { name: "token_embd.weight"@, shape: seq![64u64, 256], id: 8 },
        GgufTensor { name: "blk.0.attn_norm.weight"@, shape: seq![64u64], id: 0 },
        GgufTensor { name: "blk.0.ffn_down.weight"@, shape: seq![128u64, 64], id: 2 },
        GgufTensor { name: "output_norm.weight"@, shape: seq![64u64], id: 0 },
    ]
}

fn repeat_u32(x: u32, n: usize) -> (r: Vec<u32>)
    ensures
        r@ == Seq::new(n as nat, |i: int| x),
{
    let mut r: Vec<u32> = Vec::new();
    while r.len() < n
        invariant
            r@.len() <= n,
            forall|i: int| 0 <= i < r@.len() ==> #[trigger] r@[i] == x,
        decreases n - r@.len(),
    {
        r.push(x);
    }
    assert(r@ =~= Seq::new(n as nat, |i: int| x));
    r
}

fn repeat_i32(x: i32, n: usize) -> (r: Vec<i32>)
    ensures
        r@ == Seq::new(n as nat, |i: int| x),
{
    let mut r: Vec<i32> = Vec::new();
    while r.len() < n
        invariant
            r@.len() <= n,
            forall|i: int| 0 <= i < r@.len() ==> #[trigger] r@[i] == x,
        decreases n - r@.len(),
    {
        r.push(x);
    }
    assert(r@ =~= Seq::new(n as nat, |i: int| x));
    r
}

proof fn lemma_one_dim(d: u64)
    ensures
        numel64(seq![d]) == Some(d as nat),
{
    let s = seq![d];
    assert(s.drop_last() =~= seq![]);
    assert(numel64(s.drop_last()) == Some(1nat));
    assert(s.last() == d);
    assert(1nat * d as nat == d as nat);
}

proof fn lemma_two_dims(d: u64, e: u64)
    requires
        d * e <= u64::MAX,
    ensures
        numel64(seq![d, e]) == Some((d * e) as nat),
{
    assert(seq![d, e].drop_last() =~= seq![d]);
    lemma_one_dim(d);
}

/// The demo model can be written.
proof fn lemma_demo_writable()
    ensures
        gguf_writable(demo_tensors(), 32),
{
    let ts = demo_tensors();
    lemma_two_dims(64, 256);
    lemma_one_dim(64);
    lemma_two_dims(128, 64);
    assert(ts[1].shape == seq![64u64]);
    assert(ggml_type(0) == Some(("f32"@, 1nat, 4nat)));
    assert(ceil_div(64, 1) == 64);
    assert(ts[1].id == 0);
    assert(numel64(ts[1].shape) == Some(64nat));
    assert(gguf_bytes(ts[1]) == ceil_div(64, 1) * 4);
    assert(gguf_bytes(ts[0]) == 17408);
    assert(gguf_bytes(ts[1]) == 256);
    assert(gguf_bytes(ts[2]) == 4608);
    assert(gguf_bytes(ts[3]) == 256);
    assert(gguf_end(ts, 0, 32) == 0);
    assert(gguf_start(ts, 0, 32) == 0);
    assert(gguf_end(ts, 1, 32) == 17408);
    assert(gguf_start(ts, 1, 32) == 17408);
    assert(gguf_end(ts, 2, 32) == 17664);
    assert(gguf_start(ts, 2, 32) == 17664);
    assert(gguf_end(ts, 3, 32) == 22272);
    assert(gguf_start(ts, 3, 32) == 22272);
    assert(gguf_end(ts, 4, 32) == 22528);
}

impl GgufBuilder {
    /// A small llama-flavored model: realistic keys, a 12-token vocabulary
    /// and four tensors (q8_0, q4_0 and f32).
    pub fn demo() -> (r: GgufBuilder)
        ensures
            r.alignment == 32,
            gguf_kvs(r.kvs@) == demo_kvs(),
            gguf_tensors(r.tensors@) == demo_tensors(),
            gguf_writable(gguf_tensors(r.tensors@), r.alignment as nat),
    {
        proof {
            lemma_demo_writable();
            reveal_strlit("general.alignment");
            reveal_strlit("general.file_type");
            reveal_strlit("general.quantization_version");
            reveal_strlit("llama.block_count");
            reveal_strlit("llama.context_length");
            reveal_strlit("llama.embedding_length");
            let key = "general.alignment"@;
            assert("general.file_type"@[8] != key[8]);
            assert("general.quantization_version"@.len() != key.len());
            assert("llama.block_count"@[0] != key[0]);
            assert("llama.context_length"@.len() != key.len());
            assert("llama.embedding_length"@.len() != key.len());
        }
        let mut tokens: Vec<String> = Vec::new();
        put_text(&mut tokens, "<unk>".to_owned());
        put_text(&mut tokens, "<s>".to_owned());
        put_text(&mut tokens, "</s>".to_owned());
        put_text(&mut tokens, "the".to_owned());
        put_text(&mut tokens, "ten".to_owned());
        put_text(&mut tokens, "sor".to_owned());
        put_text(&mut tokens, "peek".to_owned());
        put_text(&mut tokens, "of".to_owned());
        put_text(&mut tokens, "and".to_owned());
        put_text(&mut tokens, "to".to_owned());
        put_text(&mut tokens, "in".to_owned());
        put_text(&mut tokens, "a".to_owned());
        assert(texts(tokens@) =~= demo_tokens());
        let b: GgufBuilder = GgufBuilder::new().kv(
            "general.architecture",
            Gv::Str("llama".to_owned()),
        ).kv("general.name", Gv::Str("tinyllama-demo".to_owned())).kv(
            "general.file_type",
            Gv::U32(7),
        ).kv("general.quantization_version", Gv::U32(2)).kv("llama.block_count", Gv::U32(1)).kv(
            "llama.context_length",
            Gv::U32(512),
        ).kv("llama.embedding_length", Gv::U32(64)).kv(
            "llama.rope.freq_base",
            Gv::F32(0x461c_4000),
        )  // 10000
        .kv("tokenizer.ggml.model", Gv::Str("llama".to_owned())).kv(
            "tokenizer.ggml.tokens",
            Gv::AStr(tokens),
        ).kv("tokenizer.ggml.scores", Gv::AF32(repeat_u32(0, 12))).kv(
            "tokenizer.ggml.token_type",
            Gv::AI32(repeat_i32(1, 12)),
        );
        assert(gguf_kvs(b.kvs@) =~= demo_kvs());
        let r: GgufBuilder = b.tensor("token_embd.weight", &[64, 256], 8)  // q8_0
        .tensor("blk.0.attn_norm.weight", &[64], 0)  // f32
        .tensor("blk.0.ffn_down.weight", &[128, 64], 2)  // q4_0
        .tensor("output_norm.weight", &[64], 0);  // f32
        proof {
            let ts = gguf_tensors(r.tensors@);
            let want = demo_tensors();
            assert(ts.len() == 4);
            assert(ts[0].shape =~= want[0].shape);
            assert(ts[1].shape =~= want[1].shape);
            assert(ts[2].shape =~= want[2].shape);
            assert(ts[3].shape =~= want[3].shape);
            assert(ts =~= want);
        }
        r
    }

    pub fn new() -> (r: GgufBuilder)
        ensures
            r.alignment == 32,
            r.kvs@ == Seq::<(String, Gv)>::empty(),
            r.tensors@ == Seq::<(String, Vec<u64>, u32)>::empty(),
    {
        GgufBuilder { alignment: 32, kvs: Vec::new(), tensors: Vec::new() }
    }

    pub fn kv(self, key: &str, value: Gv) -> (r: GgufBuilder)
        ensures
            r.alignment == alignment_after(self.alignment, key@, value@),
            gguf_kvs(r.kvs@) == gguf_kvs(self.kvs@).push((key@, value@)),
            r.tensors == self.tensors,
    {
        let mut b: GgufBuilder = self;
        if same(key, "general.alignment") {
            match &value {
                Gv::U32(a) => {
                    if power_of_two(*a as u64) {
                        b.alignment = *a as u64;
                    }
                },
                _ => {},
            }
        }
        b.kvs.push((key.to_owned(), value));
        assert(gguf_kvs(b.kvs@) =~= gguf_kvs(self.kvs@).push((key@, value@)));
        b
    }

    pub fn tensor(self, name: &str, shape: &[u64], type_id: u32) -> (r: GgufBuilder)
        ensures
            r.alignment == self.alignment,
            r.kvs == self.kvs,
            gguf_tensors(r.tensors@) == gguf_tensors(self.tensors@).push(
                (GgufTensor { name: name@, shape: shape@, id: type_id }),
            ),
    {
        let mut b: GgufBuilder = self;
        let mut dims: Vec<u64> = Vec::new();
        let mut i: usize = 0;
        while i < shape.len()
            invariant
                i <= shape@.len(),
                dims@ == shape@.take(i as int),
            decreases shape@.len() - i,
        {
            dims.push(shape[i]);
            i = i + 1;
            assert(shape@.take(i as int) =~= shape@.take(i - 1).push(shape@[i - 1]));
        }
        assert(shape@.take(i as int) =~= shape@);
        b.tensors.push((name.to_owned(), dims, type_id));
        assert(gguf_tensors(b.tensors@) =~= gguf_tensors(self.tensors@).push(
            (GgufTensor { name: name@, shape: shape@, id: type_id }),
        ));
        b
    }

    pub fn build(&self) -> (r: Vec<u8>)
        requires
            gguf_writable(gguf_tensors(self.tensors@), self.alignment as nat),
        ensures
            r@ == gguf_file(
                gguf_kvs(self.kvs@),
                gguf_tensors(self.tensors@),
                self.alignment as nat,
            ),
    {
        self.build_with_alignment(self.alignment)
    }

    /// Build with an explicit physical alignment — used to model files whose
    /// declared `general.alignment` is invalid, where writers fall back to 32.
    pub fn build_with_alignment(&self, alignment: u64) -> (r: Vec<u8>)
        requires
            gguf_writable(gguf_tensors(self.tensors@), alignment as nat),
        ensures
            r@ == gguf_file(gguf_kvs(self.kvs@), gguf_tensors(self.tensors@), alignment as nat),
    {
        let ghost kvs = gguf_kvs(self.kvs@);
        let ghost ts = gguf_tensors(self.tensors@);
        let ghost a = alignment as nat;
        let mut out: Vec<u8> = Vec::new();
        out.push(0x47);
        out.push(0x47);
        out.push(0x55);
        out.push(0x46);
        put_le(&mut out, 3, 4);
        put_le(&mut out, self.tensors.len() as u64, 8);
        put_le(&mut out, self.kvs.len() as u64, 8);
        let ghost fixed = out@;
        assert(fixed =~= seq![0x47u8, 0x47, 0x55, 0x46] + le_bytes(3, 4) + le_bytes(ts.len(), 8)
            + le_bytes(kvs.len(), 8));
        let mut i: usize = 0;
        assert(out@ =~= fixed + gguf_metadata(kvs, 0));
        while i < self.kvs.len()
            invariant
                i <= self.kvs@.len(),
                kvs == gguf_kvs(self.kvs@),
                out@ == fixed + gguf_metadata(kvs, i as nat),
            decreases self.kvs@.len() - i,
        {
            write_gguf_string(&mut out, self.kvs[i].0.as_str());
            write_gguf_value(&mut out, &self.kvs[i].1);
            i = i + 1;
            assert(out@ =~= fixed + gguf_metadata(kvs, i as nat));
        }
        let ghost with_meta = out@;
        let mut end: u64 = 0;
        let mut k: usize = 0;
        assert(out@ =~= with_meta + gguf_infos(ts, 0, a));
        while k < self.tensors.len()
            invariant
                k <= self.tensors@.len(),
                ts == gguf_tensors(self.tensors@),
                a == alignment,
                gguf_writable(ts, a),
                end == gguf_end(ts, k as nat, a),
                out@ == with_meta + gguf_infos(ts, k as nat, a),
            decreases self.tensors@.len() - k,
        {
            proof {
                lemma_gguf_end_monotone(ts, k as nat, ts.len(), a);
                lemma_gguf_end_monotone(ts, (k + 1) as nat, ts.len(), a);
            }
            let start: u64 = next_multiple(end, alignment);
            self.put_info(&mut out, k, start);
            let bytes: u64 = self.bytes_of(k, start, Ghost(usize::MAX as nat));
            end = start + bytes;
            k = k + 1;
            assert(out@ =~= with_meta + gguf_infos(ts, k as nat, a));
        }
        let m: u64 = out.len() as u64 % alignment;
        let pad: u64 = if m == 0 {
            0
        } else {
            alignment - m
        };
        let ghost header = out@;
        assert(header =~= gguf_header(kvs, ts, a));
        put_zeros(&mut out, pad as usize);
        put_zeros(&mut out, end as usize);
        assert(out@ =~= gguf_file(kvs, ts, a));
        out
    }

    fn put_info(&self, out: &mut Vec<u8>, k: usize, start: u64)
        requires
            k < self.tensors@.len(),
        ensures
            final(out)@ == old(out)@ + gguf_info(
                gguf_tensors(self.tensors@)[k as int],
                start as nat,
            ),
    {
        let shape: &Vec<u64> = &self.tensors[k].1;
        write_gguf_string(out, self.tensors[k].0.as_str());
        put_le(out, shape.len() as u64, 4);
        let ghost before = out@;
        let mut i: usize = 0;
        assert(shape@.take(0) =~= seq![]);
        assert(out@ =~= before + gguf_dims(shape@.take(0)));
        while i < shape.len()
            invariant
                i <= shape@.len(),
                out@ == before + gguf_dims(shape@.take(i as int)),
            decreases shape@.len() - i,
        {
            assert(shape@.take(i + 1).drop_last() =~= shape@.take(i as int));
            put_le(out, shape[i], 8);
            i = i + 1;
            assert(out@ =~= before + gguf_dims(shape@.take(i as int)));
        }
        assert(shape@.take(i as int) =~= shape@);
        put_le(out, self.tensors[k].2 as u64, 4);
        put_le(out, start, 8);
        assert(out@ =~= old(out)@ + gguf_info(
            gguf_tensors(self.tensors@)[k as int],
            start as nat,
        ));
    }

    fn bytes_of(&self, k: usize, start: u64, Ghost(room): Ghost<nat>) -> (r: u64)
        requires
            k < self.tensors@.len(),
            numel64(self.tensors@[k as int].1@) is Some,
            start + gguf_bytes(gguf_tensors(self.tensors@)[k as int]) <= room <= u64::MAX,
        ensures
            r == gguf_bytes(gguf_tensors(self.tensors@)[k as int]),
    {
        match type_geometry(self.tensors[k].2) {
            Some((len, bytes)) => {
                let n: u64 = numel(self.tensors[k].1.as_slice());
                proof {
                    lemma_ceil_div(n as nat, len as nat);
                }
                let blocks: u64 = n / len + (if n % len == 0 {
                    0
                } else {
                    1
                });
                blocks * bytes
            },
            None => 0,
        }
    }
}

impl Default for GgufBuilder {
    fn default() -> (r: GgufBuilder)
        ensures
            r.alignment == 32,
            r.kvs@ == Seq::<(String, Gv)>::empty(),
            r.tensors@ == Seq::<(String, Vec<u64>, u32)>::empty(),
    {
        GgufBuilder::new()
    }
}

fn next_multiple(x: u64, a: u64) -> (r: u64)
    requires
        a > 0,
        ceil_div(x as nat, a as nat) * a <= u64::MAX,
    ensures
        r == ceil_div(x as nat, a as nat) * a as nat,
{
    proof {
        lemma_ceil_div(x as nat, a as nat);
    }
    let q: u64 = x / a + (if x % a == 0 {
        0
    } else {
        1
    });
    q * a
}

fn write_gguf_string(out: &mut Vec<u8>, s: &str)
    ensures
        final(out)@ == old(out)@ + gguf_string(s@),
{
    let b: &[u8] = s.as_bytes();
    put_le(out, b.len() as u64, 8);
    put_bytes(out, b);
    assert(out@ =~= old(out)@ + gguf_string(s@));
}

fn write_strings(out: &mut Vec<u8>, v: &Vec<String>)
    ensures
        final(out)@ == old(out)@ + gguf_strings(texts(v@)),
{
    let ghost ts = texts(v@);
    let mut i: usize = 0;
    assert(ts.take(0) =~= seq![]);
    assert(out@ =~= old(out)@ + gguf_strings(ts.take(0)));
    while i < v.len()
        invariant
            i <= v@.len(),
            ts == texts(v@),
            out@ == old(out)@ + gguf_strings(ts.take(i as int)),
        decreases v@.len() - i,
    {
        assert(ts.take(i + 1).drop_last() =~= ts.take(i as int));
        write_gguf_string(out, v[i].as_str());
        i = i + 1;
        assert(out@ =~= old(out)@ + gguf_strings(ts.take(i as int)));
    }
    assert(ts.take(i as int) =~= ts);
}

fn write_i32s(out: &mut Vec<u8>, v: &Vec<i32>)
    ensures
        final(out)@ == old(out)@ + gguf_i32s(v@),
{
    let mut i: usize = 0;
    assert(v@.take(0) =~= seq![]);
    assert(out@ =~= old(out)@ + gguf_i32s(v@.take(0)));
    while i < v.len()
        invariant
            i <= v@.len(),
            out@ == old(out)@ + gguf_i32s(v@.take(i as int)),
        decreases v@.len() - i,
    {
        assert(v@.take(i + 1).drop_last() =~= v@.take(i as int));
        put_signed(out, v[i] as i64, 4);
        i = i + 1;
        assert(out@ =~= old(out)@ + gguf_i32s(v@.take(i as int)));
    }
    assert(v@.take(i as int) =~= v@);
}

fn write_u32s(out: &mut Vec<u8>, v: &Vec<u32>)
    ensures
        final(out)@ == old(out)@ + gguf_u32s(v@),
{
    let mut i: usize = 0;
    assert(v@.take(0) =~= seq![]);
    assert(out@ =~= old(out)@ + gguf_u32s(v@.take(0)));
    while i < v.len()
        invariant
            i <= v@.len(),
            out@ == old(out)@ + gguf_u32s(v@.take(i as int)),
        decreases v@.len() - i,
    {
        assert(v@.take(i + 1).drop_last() =~= v@.take(i as int));
        put_le(out, v[i] as u64, 4);
        i = i + 1;
        assert(out@ =~= old(out)@ + gguf_u32s(v@.take(i as int)));
    }
    assert(v@.take(i as int) =~= v@);
}

fn put_array_head(out: &mut Vec<u8>, elem: u64, n: usize)
    ensures
        final(out)@ == old(out)@ + array_head(elem as nat, n as nat),
{
    put_le(out, 9, 4);
    put_le(out, elem, 4);
    put_le(out, n as u64, 8);
    assert(out@ =~= old(out)@ + array_head(elem as nat, n as nat));
}

/// Append a signed number in two's complement on `n` bytes.
fn put_signed(out: &mut Vec<u8>, x: i64, n: usize)
    requires
        1 <= n <= 8,
    ensures
        final(out)@ == old(out)@ + le_bytes(twos(x as int), n as nat),
{
    let u: u64 = if x < 0 {
        (x + 0x7fff_ffff_ffff_ffff + 1) as u64 + 0x8000_0000_0000_0000
    } else {
        x as u64
    };
    put_le(out, u, n);
}

fn write_gguf_value(out: &mut Vec<u8>, v: &Gv)
    ensures
        final(out)@ == old(out)@ + gguf_value(v@),
{
    match v {
        Gv::U8(x) => {
            put_le(out, 0, 4);
            put_le(out, *x as u64, 1);
        },
        Gv::I8(x) => {
            put_le(out, 1, 4);
            put_signed(out, *x as i64, 1);
        },
        Gv::U16(x) => {
            put_le(out, 2, 4);
            put_le(out, *x as u64, 2);
        },
        Gv::I16(x) => {
            put_le(out, 3, 4);
            put_signed(out, *x as i64, 2);
        },
        Gv::U32(x) => {
            put_le(out, 4, 4);
            put_le(out, *x as u64, 4);
        },
        Gv::I32(x) => {
            put_le(out, 5, 4);
            put_signed(out, *x as i64, 4);
        },
        Gv::F32(x) => {
            put_le(out, 6, 4);
            put_le(out, *x as u64, 4);
        },
        Gv::Bool(x) => {
            put_le(out, 7, 4);
            put_le(
                out,
                if *x {
                    1
                } else {
                    0
                },
                1,
            );
        },
        Gv::Str(x) => {
            put_le(out, 8, 4);
            write_gguf_string(out, x.as_str());
        },
        Gv::U64(x) => {
            put_le(out, 10, 4);
            put_le(out, *x, 8);
        },
        Gv::I64(x) => {
            put_le(out, 11, 4);
            put_signed(out, *x, 8);
        },
        Gv::F64(x) => {
            put_le(out, 12, 4);
            put_le(out, *x, 8);
        },
        Gv::AStr(items) => {
            put_array_head(out, 8, items.len());
            write_strings(out, items);
        },
        Gv::AI32(items) => {
            put_array_head(out, 5, items.len());
            write_i32s(out, items);
        },
        Gv::AF32(items) => {
            put_array_head(out, 6, items.len());
            write_u32s(out, items);
        },
    }
    assert(out@ =~= old(out)@ + gguf_value(v@));
}

} // verus!
