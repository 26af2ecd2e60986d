//! What is refused, and why.

use vstd::prelude::*;
use vstd::utf8::*;
use crate::bytes::le;
use crate::gguf;
use crate::inflate::{bits_at, block_at, decode_at, dynamic_at, huffman_from, length_step, stored_at};
use crate::json::{member, Doc};
use crate::npy;
use crate::npz;
use crate::npz::{Directory, MemberModel, Source};
use crate::report::ReportModel;
use crate::safetensors;
use crate::safetensors::{gathered, tensor_entry};
use crate::text::{dec, dec_int};

verus! {

// ---------------------------------------------------------------------------
// Compressed data
// ---------------------------------------------------------------------------

/// There is no fourth kind of block.
pub proof fn law_fourth_kind(b: Seq<u8>, p: int, out: Seq<u8>, max: nat)
    ensures
        block_at(b, p, 3, out, max) == Err::<(Seq<u8>, int), Seq<char>>("reserved block type 3"@),
{
}

/// The two lengths of a stored block must be complements of each other, and the
/// data must be there.
pub proof fn law_stored_lengths(b: Seq<u8>, s: int, out: Seq<u8>, max: nat)
    requires
        0 <= s,
        s + 4 <= b.len(),
    ensures
        le(b, s, 2) + le(b, s + 2, 2) != 0xffff ==> stored_at(b, 8 * s, out, max) == Err::<
            (Seq<u8>, int),
            Seq<char>,
        >("stored block LEN/NLEN mismatch"@),
        le(b, s, 2) + le(b, s + 2, 2) == 0xffff && s + 4 + le(b, s, 2) > b.len() ==> stored_at(
            b,
            8 * s,
            out,
            max,
        ) == Err::<(Seq<u8>, int), Seq<char>>("unexpected end of compressed data"@),
        le(b, s, 2) + le(b, s + 2, 2) == 0xffff && s + 4 + le(b, s, 2) <= b.len() ==> stored_at(
            b,
            8 * s,
            out,
            max,
        ) is Ok,
{
    assert((8 * s + 7) / 8 == s);
}

/// A block may not declare more codes than there are symbols: 286 for literals
/// and lengths, 30 for distances.
pub proof fn law_too_many_codes(b: Seq<u8>, p: int, l: nat, d: nat, c: nat)
    requires
        bits_at(b, p, 5) == Ok::<nat, Seq<char>>(l),
        bits_at(b, p + 5, 5) == Ok::<nat, Seq<char>>(d),
        bits_at(b, p + 10, 4) == Ok::<nat, Seq<char>>(c),
        l + 257 > 286 || d + 1 > 30,
    ensures
        dynamic_at(b, p) == Err::<(Seq<u8>, Seq<u8>, int), Seq<char>>(
            "dynamic header declares too many codes"@,
        ),
{
}

/// There is nothing to repeat at the start of a table, and no run goes beyond
/// its end.
pub proof fn law_bad_runs(b: Seq<u8>, q: int, total: nat, acc: Seq<u8>, v: nat)
    ensures
        length_step(b, q, 16, total, Seq::empty()) == Err::<(Seq<u8>, int), Seq<char>>(
            "repeat code with no previous length"@,
        ),
        acc.len() > 0 && bits_at(b, q, 2) == Ok::<nat, Seq<char>>(v) && acc.len() + 3 + v > total
            ==> length_step(b, q, 16, total, acc) == Err::<(Seq<u8>, int), Seq<char>>(
            "code-length run overflows the table"@,
        ),
        bits_at(b, q, 3) == Ok::<nat, Seq<char>>(v) && acc.len() + 3 + v > total ==> length_step(
            b,
            q,
            17,
            total,
            acc,
        ) == Err::<(Seq<u8>, int), Seq<char>>("code-length run overflows the table"@),
        bits_at(b, q, 7) == Ok::<nat, Seq<char>>(v) && acc.len() + 11 + v > total ==> length_step(
            b,
            q,
            18,
            total,
            acc,
        ) == Err::<(Seq<u8>, int), Seq<char>>("code-length run overflows the table"@),
{
}

/// Symbols beyond the last length, and beyond the last distance, mean nothing.
pub proof fn law_symbols_without_meaning(
    lit: Seq<u8>,
    dist: Seq<u8>,
    b: Seq<u8>,
    p: int,
    q: int,
    sym: nat,
    out: Seq<u8>,
    max: nat,
)
    requires
        decode_at(lit, b, p) == Ok::<(nat, int), Seq<char>>((sym, q)),
        sym > 285,
    ensures
        huffman_from(lit, dist, b, p, out, max) == Err::<(Seq<u8>, int), Seq<char>>(
            "invalid literal/length symbol"@,
        ),
{
}

/// A number that is cut off is not read.
pub proof fn law_bits_run_out(b: Seq<u8>, p: int, n: nat)
    ensures
        0 <= p && p + n <= 8 * b.len() ==> bits_at(b, p, n) is Ok,
        p + n > 8 * b.len() ==> bits_at(b, p, n) == Err::<nat, Seq<char>>(
            "unexpected end of compressed data"@,
        ),
{
}

// ---------------------------------------------------------------------------
// safetensors
// ---------------------------------------------------------------------------

/// The frame of a safetensors file: eight bytes of length, of at most 100 MiB,
/// and a header that is all there and an object.
pub proof fn law_safetensors_frame(b: Seq<u8>, flen: nat, path: Seq<char>)
    ensures
        b.len() < 8 ==> safetensors::parse_model(b, flen, path) == Err::<ReportModel, Seq<char>>(
            "file too small for a safetensors header"@,
        ),
        b.len() >= 8 && le(b, 0, 8) > 100 * 1024 * 1024 ==> safetensors::parse_model(b, flen, path)
            == Err::<ReportModel, Seq<char>>(
            "declared header length "@ + dec(le(b, 0, 8)) + " exceeds the 100 MB format cap"@,
        ),
        b.len() >= 8 && le(b, 0, 8) <= 100 * 1024 * 1024 && 8 + le(b, 0, 8) > flen
            ==> safetensors::parse_model(b, flen, path) == Err::<ReportModel, Seq<char>>(
            "declared header length "@ + dec(le(b, 0, 8)) + " exceeds the file itself ("@ + dec(
                flen,
            ) + " bytes)"@,
        ),
        safetensors::parse_model(b, flen, path) matches Ok(r) ==> r.header_bytes == 8 + le(b, 0, 8)
            && r.header_bytes <= flen && r.header_bytes <= b.len(),
{
}

/// An entry is refused for the reason `why`.
pub open spec fn refused(name: Seq<char>, v: Doc, why: Seq<char>) -> bool {
    tensor_entry(name, v) matches Err(e) && e == "tensor '"@ + name + why
}

/// What keeps an entry from being a tensor.
pub proof fn law_bad_entries(
    name: Seq<char>,
    v: Doc,
    dtype: Seq<char>,
    dims: Seq<Doc>,
    begin: int,
    end: int,
)
    ensures
        !(member(v, "dtype"@) matches Some(Doc::Str(_))) ==> refused(
            name,
            v,
            "': missing or non-string dtype"@,
        ),
        member(v, "dtype"@) == Some(Doc::Str(dtype)) && !(member(v, "shape"@) matches Some(
            Doc::Arr(_),
        )) ==> refused(name, v, "': missing or non-array shape"@),
        member(v, "dtype"@) == Some(Doc::Str(dtype)) && member(v, "shape"@) == Some(
            Doc::Arr(Seq::empty()),
        ) && !(member(v, "data_offsets"@) matches Some(Doc::Arr(_))) ==> refused(
            name,
            v,
            "': missing data_offsets"@,
        ),
        member(v, "dtype"@) == Some(Doc::Str(dtype)) && member(v, "shape"@) == Some(
            Doc::Arr(Seq::empty()),
        ) && member(v, "data_offsets"@) == Some(Doc::Arr(seq![Doc::Int(begin), Doc::Int(end)])) && (
        begin < 0 || end < begin || end > u64::MAX) ==> refused(
            name,
            v,
            "': invalid data_offsets ["@ + dec_int(begin) + ", "@ + dec_int(end) + "]"@,
        ),
{
    assert(Seq::<Doc>::empty() =~= seq![]);
    let why = "': invalid data_offsets ["@ + dec_int(begin) + ", "@ + dec_int(end) + "]"@;
    assert("tensor '"@ + name + why =~= "tensor '"@ + name + "': invalid data_offsets ["@ + dec_int(
        begin,
    ) + ", "@ + dec_int(end) + "]"@);
    let offsets = seq![Doc::Int(begin), Doc::Int(end)];
    assert(offsets.len() == 2 && offsets[0] == Doc::Int(begin) && offsets[1] == Doc::Int(end));
}

/// A dimension that is negative, too large or no integer spoils the shape,
/// wherever it stands.
pub proof fn law_bad_dimensions(name: Seq<char>, v: Doc, dtype: Seq<char>, dims: Seq<Doc>, i: int)
    requires
        member(v, "dtype"@) == Some(Doc::Str(dtype)),
        member(v, "shape"@) == Some(Doc::Arr(dims)),
        0 <= i < dims.len(),
        !(dims[i] matches Doc::Int(n) && 0 <= n <= u64::MAX),
    ensures
        refused(name, v, "': shape contains a non-integer or negative dimension"@),
{
    lemma_bad_dims(dims, i);
}

proof fn lemma_bad_dims(dims: Seq<Doc>, i: int)
    requires
        0 <= i < dims.len(),
        !(dims[i] matches Doc::Int(n) && 0 <= n <= u64::MAX),
    ensures
        safetensors::dims_of(dims) is None,
    decreases dims.len(),
{
    if i < dims.len() - 1 {
        lemma_bad_dims(dims.drop_last(), i);
    }
}

/// The metadata are the entry kept for them, if it is a map of strings; they
/// are no tensor, and where they are anything else that is noted.
pub proof fn law_metadata_entry(ms: Seq<(Seq<char>, Doc)>, v: Doc)
    ensures
        ({
            let g = gathered(ms);
            let h = gathered(ms.push(("__metadata__"@, v)));
            let strings = v matches Doc::Obj(xs) && forall|i: int|
                0 <= i < xs.len() ==> (#[trigger] xs[i]).1 is Str;
            &&& h.tensors == g.tensors
            &&& h.end == g.end
            &&& strings ==> h.metadata == v && h.problems == g.problems
            &&& !strings ==> h.metadata == g.metadata && h.problems == g.problems.push(
                "__metadata__ is not a string-to-string map"@,
            )
        }),
{
    assert(ms.push(("__metadata__"@, v)).drop_last() =~= ms);
}

/// An entry that is no tensor is a problem and nothing more.
pub proof fn law_bad_entry_is_noted(
    ms: Seq<(Seq<char>, Doc)>,
    name: Seq<char>,
    v: Doc,
    msg: Seq<char>,
)
    requires
        name != "__metadata__"@,
        tensor_entry(name, v) matches Err(e) && e == msg,
    ensures
        gathered(ms.push((name, v))).problems == gathered(ms).problems.push(msg),
        gathered(ms.push((name, v))).tensors == gathered(ms).tensors,
        gathered(ms.push((name, v))).end == gathered(ms).end,
        gathered(ms.push((name, v))).metadata == gathered(ms).metadata,
{
    assert(ms.push((name, v)).drop_last() =~= ms);
}

// ---------------------------------------------------------------------------
// GGUF
// ---------------------------------------------------------------------------

/// A number that the file does not hold is not read; one that it holds, but
/// that was not read from it, is a read that failed.
pub proof fn law_numbers_cut_off(b: Seq<u8>, flen: nat, pos: nat, n: nat)
    ensures
        pos + n > flen ==> gguf::number_at(b, flen, pos as int, n) == Err::<nat, Seq<char>>(
            "header needs "@ + dec(n) + " more bytes at offset "@ + dec(pos)
                + " but the file ends at "@ + dec(flen) + " — truncated header"@,
        ),
        pos + n <= flen && pos + n > b.len() ==> gguf::number_at(b, flen, pos as int, n) == Err::<
            nat,
            Seq<char>,
        >("read failed: failed to fill whole buffer"@),
        pos + n <= flen && pos + n <= b.len() ==> gguf::number_at(b, flen, pos as int, n) == Ok::<
            nat,
            Seq<char>,
        >(le(b, pos as int, n)),
{
}

/// A string may not be longer than the file.
pub proof fn law_strings_too_long(b: Seq<u8>, flen: nat, pos: nat)
    requires
        pos + 8 <= flen,
        pos + 8 <= b.len(),
        pos + 8 + le(b, pos as int, 8) > flen,
    ensures
        gguf::string_at(b, flen, pos as int) == Err::<(Seq<char>, bool, int), Seq<char>>(
            "string length "@ + dec(le(b, pos as int, 8)) + " at offset "@ + dec(pos)
                + " exceeds the rest of the file"@,
        ),
{
}

/// Strings that are not UTF-8 are shown as well as can be, and noted.
pub proof fn law_strings_not_utf8(
    b: Seq<u8>,
    flen: nat,
    pos: int,
    depth: int,
    limit: nat,
    probs: Seq<Seq<char>>,
)
    requires
        0 <= pos,
        pos + 8 + le(b, pos, 8) <= flen,
        pos + 8 + le(b, pos, 8) <= b.len(),
    ensures
        ({
            let n = le(b, pos, 8);
            let s = b.subrange(pos + 8, pos + 8 + n);
            gguf::value_at(b, flen, pos, 8, depth, limit, probs) matches Ok((v, end, ps)) && {
                &&& end == pos + 8 + n
                &&& valid_utf8(s) ==> v == Doc::Str(decode_utf8(s)) && ps == probs
                &&& !valid_utf8(s) ==> v is Str && ps == probs.push(
                    "string metadata value is not valid UTF-8"@,
                )
            }
        }),
{
}

/// Any byte but 0 is true; any but 0 and 1 is noted.
pub proof fn law_odd_booleans(
    b: Seq<u8>,
    flen: nat,
    pos: int,
    depth: int,
    limit: nat,
    probs: Seq<Seq<char>>,
)
    requires
        0 <= pos < b.len(),
        pos < flen,
        b[pos] > 1,
    ensures
        gguf::value_at(b, flen, pos, 7, depth, limit, probs) == Ok::<
            (Doc, int, Seq<Seq<char>>),
            Seq<char>,
        >(
            (
                Doc::Bool(true),
                pos + 1,
                probs.push(
                    "bool metadata value has byte "@ + dec(b[pos] as nat) + " (must be 0 or 1)"@,
                ),
            ),
        ),
{
    reveal_with_fuel(le, 2);
}

/// A tensor has at most eight dimensions.
pub proof fn law_too_many_dimensions(
    b: Seq<u8>,
    flen: nat,
    pos: int,
    p: int,
    name: Seq<char>,
    i: nat,
    probs: Seq<Seq<char>>,
)
    requires
        gguf::string_at(b, flen, pos) == Ok::<(Seq<char>, bool, int), Seq<char>>((name, true, p)),
        0 <= p,
        p + 4 <= flen,
        p + 4 <= b.len(),
        le(b, p, 4) > 8,
    ensures
        gguf::tensor_at(b, flen, pos, i, seq![], probs) matches Err(e) && e == "tensor '"@ + name
            + "' declares "@ + dec(le(b, p, 4)) + " dimensions (max "@ + dec(8)
            + ") — corrupt header"@,
{
}

// ---------------------------------------------------------------------------
// npy
// ---------------------------------------------------------------------------

/// The frame of an npy file: its mark, a version from 1 to 3, a header that is
/// all there and is text.
pub proof fn law_npy_frame(b: Seq<u8>)
    ensures
        b.len() < 10 ==> npy::header_model(b) == Err::<npy::NpyModel, Seq<char>>(
            "not an npy file (bad magic)"@,
        ),
        b.len() >= 10 && !(b[0] == 0x93 && b[1] == 0x4e && b[2] == 0x55 && b[3] == 0x4d && b[4]
            == 0x50 && b[5] == 0x59) ==> npy::header_model(b) == Err::<npy::NpyModel, Seq<char>>(
            "not an npy file (bad magic)"@,
        ),
        npy::header_model(b) matches Ok(h) ==> {
            &&& 1 <= b[6] <= 3
            &&& h.version == (b[6], b[7])
            &&& b[6] == 1 ==> h.header_total == 10 + le(b, 8, 2)
            &&& b[6] != 1 ==> h.header_total == 12 + le(b, 8, 4)
            &&& h.header_total <= b.len()
        },
{
    let m = npy::MAGIC@;
    assert(m =~= seq![0x93u8, 0x4e, 0x55, 0x4d, 0x50, 0x59]);
    if b.len() >= 10 && b.take(6) == m {
        assert(b.take(6)[0] == b[0] && b.take(6)[1] == b[1] && b.take(6)[2] == b[2] && b.take(6)[3]
            == b[3] && b.take(6)[4] == b[4] && b.take(6)[5] == b[5]);
    }
}

/// Each of the three keys must be there.
pub proof fn law_missing_keys(version: (u8, u8), total: nat, e: npy::Entries)
    ensures
        e.descr is None ==> npy::header_of(version, total, e) == Err::<npy::NpyModel, Seq<char>>(
            "npy header is missing 'descr'"@,
        ),
        e.descr is Some && e.fortran_order is None ==> npy::header_of(version, total, e) == Err::<
            npy::NpyModel,
            Seq<char>,
        >("npy header is missing 'fortran_order'"@),
        e.descr is Some && e.fortran_order is Some && e.shape is None ==> npy::header_of(
            version,
            total,
            e,
        ) == Err::<npy::NpyModel, Seq<char>>("npy header is missing 'shape'"@),
{
}

// ---------------------------------------------------------------------------
// npz
// ---------------------------------------------------------------------------

/// A directory must lie in the file, be no larger than 64 MiB and have room for
/// its entries, of 46 bytes each at least.
pub proof fn law_directory_must_fit(f: Source, flen: nat, path: Seq<char>, d: Directory)
    ensures
        d.size > 64 * 1024 * 1024 || d.offset + d.size > flen ==> npz::after_directory(
            f,
            flen,
            path,
            d,
        ) == Err::<ReportModel, Seq<char>>(
            "central directory ("@ + dec(d.size as nat) + " bytes at offset "@ + dec(
                d.offset as nat,
            ) + ") does not fit the file"@,
        ),
        d.size <= 64 * 1024 * 1024 && d.offset + d.size <= flen && 46 * d.entries > d.size
            ==> npz::after_directory(f, flen, path, d) == Err::<ReportModel, Seq<char>>(
            "central directory declares "@ + dec(d.entries as nat)
                + " entries, which cannot fit in "@ + dec(d.size as nat) + " bytes"@,
        ),
{
}

/// A member whose local record is not there is a problem of that member.
pub proof fn law_local_record_must_be_there(b: Seq<u8>, m: MemberModel)
    ensures
        m.local_offset + 30 > b.len() ==> npz::member_header(npz::in_memory(b), b.len(), m)
            == Err::<npy::NpyModel, Seq<char>>("local header offset is out of bounds"@),
        m.local_offset + 30 <= b.len() && !(b[m.local_offset as int] == 0x50
            && b[m.local_offset as int + 1] == 0x4b && b[m.local_offset as int + 2] == 3
            && b[m.local_offset as int + 3] == 4)
            ==> npz::member_header(npz::in_memory(b), b.len(), m) == Err::<
            npy::NpyModel,
            Seq<char>,
        >("local file header signature mismatch"@),
{
    if m.local_offset + 30 <= b.len() {
        let at = m.local_offset as int;
        let lh = b.subrange(at, at + 30);
        assert(npz::in_memory(b)(m.local_offset, 30) == Ok::<Seq<u8>, Seq<char>>(lh));
        reveal_with_fuel(le, 5);
        assert(lh[0] == b[at] && lh[1] == b[at + 1] && lh[2] == b[at + 2] && lh[3] == b[at + 3]);
        assert(le(lh, 0, 4) == lh[0] + 256 * (lh[1] + 256 * (lh[2] + 256 * lh[3])));
    }
}

/// Only arrays that are stored or deflated and not encrypted are looked into.
pub proof fn law_what_is_looked_into(m: MemberModel, stem: Seq<char>)
    ensures
        m.name == stem + ".npy"@ && (m.method == 0 || m.method == 8) && m.flags % 2 == 0
            ==> npz::wants_header(m),
        npz::wants_header(m) ==> (m.method == 0 || m.method == 8) && m.flags % 2 == 0
            && m.name.len() >= 4 && m.name.skip(m.name.len() - 4) == ".npy"@,
{
    reveal_strlit(".npy");
    if m.name == stem + ".npy"@ {
        assert(m.name.skip(m.name.len() - 4) =~= ".npy"@);
    }
}

} // verus!
