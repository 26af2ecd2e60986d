//! GGUF header parser (versions 2 and 3, little-endian). Reads the metadata
//! key/value section and the tensor-info table sequentially from the start
//! of the file — tensor data itself is never touched; its size and the
//! expected end of file are computed from the ggml type table.

use vstd::prelude::*;
use vstd::slice::slice_subrange;
use vstd::string::*;
use vstd::utf8::*;
use crate::bytes::{le, u16le, u32le, u64le};
use crate::float::{widen, widened};
use crate::json::{docs, first_member, lemma_view_arr, lemma_view_obj, members_of, written, Doc, Json};
use crate::report::{empty_report, min_nat, numel_of, put_member, put_text, saturating_product, tensor_model, tensors_of, texts, PeekError, Report, ReportModel, Tensor, TensorModel};
use crate::text::{dec, lossy, put_dec, same, text_in, utf8_text};

verus! {

pub const DEFAULT_ALIGNMENT: u64 = 32;

pub const MAX_DIMS: u32 = 8;

pub const MAX_ARRAY_DEPTH: usize = 4;

/// How much of a file is tried first.
pub const FIRST_PREFIX: u64 = 65536;

/// The message of a read that runs past the bytes at hand although the file
/// goes on.
pub const SHORT_READ: &'static str = "read failed: failed to fill whole buffer";

// ---------------------------------------------------------------------------
// Type tables
// ---------------------------------------------------------------------------

/// ggml tensor types by id: name, elements per block, bytes per block.
/// Ids 4, 5 and 31..=33, 36..=38 were removed from ggml and are absent here;
/// files using them get an "unknown type" problem, which is accurate enough
/// for an inspector.
pub open spec fn ggml_type(id: u32) -> Option<(Seq<char>, nat, nat)> {
    match id {
        0 => Some(("f32"@, 1, 4)),
        1 => Some(("f16"@, 1, 2)),
        2 => Some(("q4_0"@, 32, 18)),
        3 => Some(("q4_1"@, 32, 20)),
        6 => Some(("q5_0"@, 32, 22)),
        7 => Some(("q5_1"@, 32, 24)),
        8 => Some(("q8_0"@, 32, 34)),
        9 => Some(("q8_1"@, 32, 36)),
        10 => Some(("q2_k"@, 256, 84)),
        11 => Some(("q3_k"@, 256, 110)),
        12 => Some(("q4_k"@, 256, 144)),
        13 => Some(("q5_k"@, 256, 176)),
        14 => Some(("q6_k"@, 256, 210)),
        15 => Some(("q8_k"@, 256, 292)),
        16 => Some(("iq2_xxs"@, 256, 66)),
        17 => Some(("iq2_xs"@, 256, 74)),
        18 => Some(("iq3_xxs"@, 256, 98)),
        19 => Some(("iq1_s"@, 256, 50)),
        20 => Some(("iq4_nl"@, 32, 18)),
        21 => Some(("iq3_s"@, 256, 110)),
        22 => Some(("iq2_s"@, 256, 82)),
        23 => Some(("iq4_xs"@, 256, 136)),
        24 => Some(("i8"@, 1, 1)),
        25 => Some(("i16"@, 1, 2)),
        26 => Some(("i32"@, 1, 4)),
        27 => Some(("i64"@, 1, 8)),
        28 => Some(("f64"@, 1, 8)),
        29 => Some(("iq1_m"@, 256, 56)),
        30 => Some(("bf16"@, 1, 2)),
        34 => Some(("tq1_0"@, 256, 54)),
        35 => Some(("tq2_0"@, 256, 66)),
        39 => Some(("mxfp4"@, 32, 17)),
        _ => None,
    }
}

fn find_ggml_type(id: u32) -> (r: Option<(&'static str, u64, u64)>)
    ensures
        ggml_type(id) == match r {
            Some((name, len, bytes)) => Some((name@, len as nat, bytes as nat)),
            None => None,
        },
        r matches Some((name, len, bytes)) ==> 1 <= len <= 256 && bytes <= 292,
{
    match id {
        0 => Some(("f32", 1, 4)),
        1 => Some(("f16", 1, 2)),
        2 => Some(("q4_0", 32, 18)),
        3 => Some(("q4_1", 32, 20)),
        6 => Some(("q5_0", 32, 22)),
        7 => Some(("q5_1", 32, 24)),
        8 => Some(("q8_0", 32, 34)),
        9 => Some(("q8_1", 32, 36)),
        10 => Some(("q2_k", 256, 84)),
        11 => Some(("q3_k", 256, 110)),
        12 => Some(("q4_k", 256, 144)),
        13 => Some(("q5_k", 256, 176)),
        14 => Some(("q6_k", 256, 210)),
        15 => Some(("q8_k", 256, 292)),
        16 => Some(("iq2_xxs", 256, 66)),
        17 => Some(("iq2_xs", 256, 74)),
        18 => Some(("iq3_xxs", 256, 98)),
        19 => Some(("iq1_s", 256, 50)),
        20 => Some(("iq4_nl", 32, 18)),
        21 => Some(("iq3_s", 256, 110)),
        22 => Some(("iq2_s", 256, 82)),
        23 => Some(("iq4_xs", 256, 136)),
        24 => Some(("i8", 1, 1)),
        25 => Some(("i16", 1, 2)),
        26 => Some(("i32", 1, 4)),
        27 => Some(("i64", 1, 8)),
        28 => Some(("f64", 1, 8)),
        29 => Some(("iq1_m", 256, 56)),
        30 => Some(("bf16", 1, 2)),
        34 => Some(("tq1_0", 256, 54)),
        35 => Some(("tq2_0", 256, 66)),
        39 => Some(("mxfp4", 32, 17)),
        _ => None,
    }
}

/// Block geometry (elements, bytes) for a type id — shared with the fixture
/// builder so written and parsed sizes always agree.
pub(crate) fn type_geometry(id: u32) -> (r: Option<(u64, u64)>)
    ensures
        match r {
            Some((len, bytes)) => ggml_type(id) matches Some((_, l, b)) && l == len && b == bytes
                && 1 <= len <= 256 && bytes <= 292,
            None => ggml_type(id) is None,
        },
{
    match find_ggml_type(id) {
        Some((_, len, bytes)) => Some((len, bytes)),
        None => None,
    }
}

pub const T_U8: u32 = 0;

pub const T_I8: u32 = 1;

pub const T_U16: u32 = 2;

pub const T_I16: u32 = 3;

pub const T_U32: u32 = 4;

pub const T_I32: u32 = 5;

pub const T_F32: u32 = 6;

pub const T_BOOL: u32 = 7;

pub const T_STRING: u32 = 8;

pub const T_ARRAY: u32 = 9;

pub const T_U64: u32 = 10;

pub const T_I64: u32 = 11;

pub const T_F64: u32 = 12;

/// Metadata value types by the id stored on disk.
pub open spec fn value_name(ty: u32) -> Seq<char> {
    match ty {
        0 => "u8"@,
        1 => "i8"@,
        2 => "u16"@,
        3 => "i16"@,
        4 => "u32"@,
        5 => "i32"@,
        6 => "f32"@,
        7 => "bool"@,
        8 => "string"@,
        9 => "array"@,
        10 => "u64"@,
        11 => "i64"@,
        12 => "f64"@,
        _ => "unknown"@,
    }
}

fn find_value_name(ty: u32) -> (r: &'static str)
    ensures
        r@ == value_name(ty),
{
    match ty {
        0 => "u8",
        1 => "i8",
        2 => "u16",
        3 => "i16",
        4 => "u32",
        5 => "i32",
        6 => "f32",
        7 => "bool",
        8 => "string",
        9 => "array",
        10 => "u64",
        11 => "i64",
        12 => "f64",
        _ => "unknown",
    }
}

/// Smallest possible on-disk footprint of one value of `ty`, used to reject
/// implausible counts before allocating anything.
pub open spec fn min_value_size(ty: u32) -> nat {
    if ty == T_U16 || ty == T_I16 {
        2
    } else if ty == T_U32 || ty == T_I32 || ty == T_F32 {
        4
    } else if ty == T_STRING || ty == T_U64 || ty == T_I64 || ty == T_F64 {
        8
    } else if ty == T_ARRAY {
        12
    } else {
        1
    }
}

fn find_min_value_size(ty: u32) -> (r: u64)
    ensures
        r == min_value_size(ty),
        1 <= r <= 12,
{
    if ty == T_U16 || ty == T_I16 {
        2
    } else if ty == T_U32 || ty == T_I32 || ty == T_F32 {
        4
    } else if ty == T_STRING || ty == T_U64 || ty == T_I64 || ty == T_F64 {
        8
    } else if ty == T_ARRAY {
        12
    } else {
        1
    }
}

// ---------------------------------------------------------------------------
// Layout: reading from a position
// ---------------------------------------------------------------------------

/// Why `n` bytes cannot be read at `pos`, if they cannot: the file ends
/// earlier, or only a prefix of it is at hand.
pub open spec fn shortage(b: Seq<u8>, flen: nat, pos: int, n: int) -> Option<Seq<char>> {
    if pos + n > flen {
        Some(
            "header needs "@ + dec(n as nat) + " more bytes at offset "@ + dec(pos as nat)
                + " but the file ends at "@ + dec(flen) + " — truncated header"@,
        )
    } else if pos + n > b.len() {
        Some(SHORT_READ@)
    } else {
        None
    }
}

/// The `n`-byte little-endian number at `pos`.
pub open spec fn number_at(b: Seq<u8>, flen: nat, pos: int, n: nat) -> Result<nat, Seq<char>> {
    match shortage(b, flen, pos, n as int) {
        Some(e) => Err(e),
        None => Ok(le(b, pos, n)),
    }
}

/// A length-prefixed string: its text, whether its bytes were valid UTF-8,
/// and where it ends.
pub open spec fn string_at(b: Seq<u8>, flen: nat, pos: int) -> Result<
    (Seq<char>, bool, int),
    Seq<char>,
> {
    match number_at(b, flen, pos, 8) {
        Err(e) => Err(e),
        Ok(len) => if pos + 8 + len > flen {
            Err(
                "string length "@ + dec(len) + " at offset "@ + dec(pos as nat)
                    + " exceeds the rest of the file"@,
            )
        } else {
            match shortage(b, flen, pos + 8, len as int) {
                Some(e) => Err(e),
                None => {
                    let bytes = b.subrange(pos + 8, pos + 8 + len);
                    Ok((text_in(bytes), valid_utf8(bytes), pos + 8 + len))
                },
            }
        },
    }
}

/// Two's complement: the signed reading of an unsigned number below `2 * half`.
pub open spec fn signed(n: nat, half: nat) -> int {
    if n < half {
        n as int
    } else {
        n - 2 * half
    }
}

/// How a summarized array is shown.
pub open spec fn array_summary(elem: u32, count: nat, first: Seq<Doc>) -> Doc {
    Doc::Obj(
        seq![
            (
                "$array"@,
                Doc::Obj(
                    seq![
                        ("elem"@, Doc::Str(value_name(elem))),
                        ("len"@, Doc::Int(count as int)),
                        ("first"@, Doc::Arr(first)),
                    ],
                ),
            ),
        ],
    )
}

/// A metadata value of type `ty` at `pos`: the value, where it ends, and the
/// problems noted so far.
pub open spec fn value_at(
    b: Seq<u8>,
    flen: nat,
    pos: int,
    ty: u32,
    depth: int,
    limit: nat,
    probs: Seq<Seq<char>>,
) -> Result<(Doc, int, Seq<Seq<char>>), Seq<char>>
    decreases MAX_ARRAY_DEPTH - depth, 0nat,
{
    if ty == T_STRING {
        match string_at(b, flen, pos) {
            Err(e) => Err(e),
            Ok((s, clean, end)) => Ok(
                (
                    Doc::Str(s),
                    end,
                    if clean {
                        probs
                    } else {
                        probs.push("string metadata value is not valid UTF-8"@)
                    },
                ),
            ),
        }
    } else if ty == T_ARRAY {
        if depth >= MAX_ARRAY_DEPTH {
            Err("metadata arrays nested too deeply"@)
        } else {
            match number_at(b, flen, pos, 4) {
                Err(e) => Err(e),
                Ok(elem) => match number_at(b, flen, pos + 4, 8) {
                    Err(e) => Err(e),
                    Ok(count) => if pos + 12 + count * min_value_size(elem as u32) > flen {
                        Err(
                            "array declares "@ + dec(count)
                                + " elements, which cannot fit in the rest of the file"@,
                        )
                    } else {
                        match elements_from(
                            b,
                            flen,
                            pos + 12,
                            elem as u32,
                            count,
                            depth + 1,
                            limit,
                            seq![],
                            probs,
                        ) {
                            Err(e) => Err(e),
                            Ok((items, end, ps)) => Ok(
                                (
                                    if count > limit {
                                        array_summary(elem as u32, count, items)
                                    } else {
                                        Doc::Arr(items)
                                    },
                                    end,
                                    ps,
                                ),
                            ),
                        }
                    },
                },
            }
        }
    } else if ty > T_F64 {
        Err("unknown metadata value type "@ + dec(ty as nat))
    } else {
        let n = min_value_size(ty);
        match number_at(b, flen, pos, n) {
            Err(e) => Err(e),
            Ok(v) => {
                let value = if ty == T_I8 {
                    Doc::Int(signed(v, 0x80))
                } else if ty == T_I16 {
                    Doc::Int(signed(v, 0x8000))
                } else if ty == T_I32 {
                    Doc::Int(signed(v, 0x8000_0000))
                } else if ty == T_I64 {
                    Doc::Int(signed(v, 0x8000_0000_0000_0000))
                } else if ty == T_F32 {
                    Doc::Float(widened(v as u32))
                } else if ty == T_F64 {
                    Doc::Float(v as u64)
                } else if ty == T_BOOL {
                    Doc::Bool(v != 0)
                } else {
                    Doc::Int(v as int)
                };
                Ok(
                    (
                        value,
                        pos + n,
                        if ty == T_BOOL && v > 1 {
                            probs.push(
                                "bool metadata value has byte "@ + dec(v) + " (must be 0 or 1)"@,
                            )
                        } else {
                            probs
                        },
                    ),
                )
            },
        }
    }
}

/// `k` more array elements at `pos`; only the first `limit` of the array are
/// kept.
pub open spec fn elements_from(
    b: Seq<u8>,
    flen: nat,
    pos: int,
    elem: u32,
    k: nat,
    depth: int,
    limit: nat,
    items: Seq<Doc>,
    probs: Seq<Seq<char>>,
) -> Result<(Seq<Doc>, int, Seq<Seq<char>>), Seq<char>>
    decreases MAX_ARRAY_DEPTH - depth, 1 + k,
{
    if k == 0 {
        Ok((items, pos, probs))
    } else {
        match value_at(b, flen, pos, elem, depth, limit, probs) {
            Err(e) => Err(e),
            Ok((v, end, ps)) => elements_from(
                b,
                flen,
                end,
                elem,
                (k - 1) as nat,
                depth,
                limit,
                if items.len() < limit {
                    items.push(v)
                } else {
                    items
                },
                ps,
            ),
        }
    }
}

// ---------------------------------------------------------------------------
// Reader
// ---------------------------------------------------------------------------

struct Rd<'a> {
    b: &'a [u8],
    consumed: usize,
    file_len: u64,
}

impl<'a> Rd<'a> {
    spec fn inv(&self) -> bool {
        self.consumed <= self.b@.len() <= usize::MAX && self.consumed <= self.file_len
    }

    spec fn advanced(&self, from: &Rd<'a>, pos: int) -> bool {
        self.inv() && self.b == from.b && self.file_len == from.file_len && self.consumed == pos
    }

    fn remaining(&self) -> (r: u64)
        requires
            self.inv(),
        ensures
            r == self.file_len - self.consumed,
    {
        self.file_len - self.consumed as u64
    }

    /// Step over `n` bytes; the result is where they start.
    fn take(&mut self, n: u64) -> (r: Result<usize, PeekError>)
        requires
            old(self).inv(),
        ensures
            match r {
                Ok(start) => start == old(self).consumed && final(self).advanced(
                    old(self),
                    old(self).consumed + n,
                ) && shortage(
                    old(self).b@,
                    old(self).file_len as nat,
                    old(self).consumed as int,
                    n as int,
                ) is None,
                Err(e) => shortage(
                    old(self).b@,
                    old(self).file_len as nat,
                    old(self).consumed as int,
                    n as int,
                ) == Some(e.0@),
            },
    {
        if n > self.remaining() {
            let mut s: String = "header needs ".to_owned();
            put_dec(&mut s, n as u128);
            s.append(" more bytes at offset ");
            put_dec(&mut s, self.consumed as u128);
            s.append(" but the file ends at ");
            put_dec(&mut s, self.file_len as u128);
            s.append(" — truncated header");
            return Err(PeekError(s));
        }
        if n > (self.b.len() - self.consumed) as u64 {
            return Err(PeekError(SHORT_READ.to_owned()));
        }
        let start: usize = self.consumed;
        self.consumed = start + n as usize;
        Ok(start)
    }

    fn u32(&mut self) -> (r: Result<u32, PeekError>)
        requires
            old(self).inv(),
        ensures
            number_at(old(self).b@, old(self).file_len as nat, old(self).consumed as int, 4)
                == match r {
                Ok(v) => Ok::<nat, Seq<char>>(v as nat),
                Err(e) => Err(e.0@),
            },
            r is Ok ==> final(self).advanced(old(self), old(self).consumed + 4),
    {
        match self.take(4) {
            Ok(start) => Ok(u32le(self.b, start)),
            Err(e) => Err(e),
        }
    }

    fn u64(&mut self) -> (r: Result<u64, PeekError>)
        requires
            old(self).inv(),
        ensures
            number_at(old(self).b@, old(self).file_len as nat, old(self).consumed as int, 8)
                == match r {
                Ok(v) => Ok::<nat, Seq<char>>(v as nat),
                Err(e) => Err(e.0@),
            },
            r is Ok ==> final(self).advanced(old(self), old(self).consumed + 8),
    {
        match self.take(8) {
            Ok(start) => Ok(u64le(self.b, start)),
            Err(e) => Err(e),
        }
    }

    fn string(&mut self) -> (r: Result<(String, bool), PeekError>)
        requires
            old(self).inv(),
        ensures
            match r {
                Ok((s, clean)) => final(self).inv() && final(self).b == old(self).b && final(self).file_len == old(self).file_len && string_at(
                    old(self).b@,
                    old(self).file_len as nat,
                    old(self).consumed as int,
                ) == Ok::<(Seq<char>, bool, int), Seq<char>>(
                    (s@, clean, final(self).consumed as int),
                ),
                Err(e) => string_at(
                    old(self).b@,
                    old(self).file_len as nat,
                    old(self).consumed as int,
                ) == Err::<(Seq<char>, bool, int), Seq<char>>(e.0@),
            },
    {
        let len: u64 = match self.u64() {
            Ok(n) => n,
            Err(e) => {
                return Err(e);
            },
        };
        if len > self.remaining() {
            let mut s: String = "string length ".to_owned();
            put_dec(&mut s, len as u128);
            s.append(" at offset ");
            put_dec(&mut s, (self.consumed - 8) as u128);
            s.append(" exceeds the rest of the file");
            return Err(PeekError(s));
        }
        let start: usize = match self.take(len) {
            Ok(p) => p,
            Err(e) => {
                return Err(e);
            },
        };
        let bytes: &[u8] = slice_subrange(self.b, start, start + len as usize);
        match utf8_text(bytes) {
            Some(s) => {
                proof {
                    encode_utf8_decode_utf8(s@);
                }
                Ok((s.to_owned(), true))
            },
            None => Ok((lossy(bytes), false)),
        }
    }
}

/// What reading a value returned, as values and positions.
spec fn value_read(r: Result<Json, PeekError>, rd: &Rd, probs: Seq<String>) -> Result<
    (Doc, int, Seq<Seq<char>>),
    Seq<char>,
> {
    match r {
        Ok(v) => Ok((v@, rd.consumed as int, texts(probs))),
        Err(e) => Err(e.0@),
    }
}

fn read_scalar(rd: &mut Rd, ty: u32, problems: &mut Vec<String>) -> (r: Result<Json, PeekError>)
    requires
        old(rd).inv(),
        ty <= T_F64,
        ty != T_STRING,
        ty != T_ARRAY,
    ensures
        value_read(r, final(rd), final(problems)@) == value_at(
            old(rd).b@,
            old(rd).file_len as nat,
            old(rd).consumed as int,
            ty,
            0,
            0,
            texts(old(problems)@),
        ),
        r is Ok ==> final(rd).inv() && final(rd).b == old(rd).b && final(rd).file_len == old(rd).file_len,
{
    reveal_with_fuel(le, 2);
    let n: u64 = find_min_value_size(ty);
    let start: usize = match rd.take(n) {
        Ok(p) => p,
        Err(e) => {
            return Err(e);
        },
    };
    if n == 1 {
        let v: u8 = rd.b[start];
        if ty == T_BOOL {
            if v > 1 {
                let mut s: String = "bool metadata value has byte ".to_owned();
                put_dec(&mut s, v as u128);
                s.append(" (must be 0 or 1)");
                put_text(problems, s);
            }
            Ok(Json::Bool(v != 0))
        } else if ty == T_I8 && v >= 0x80 {
            Ok(Json::Int(v as i128 - 0x100))
        } else {
            Ok(Json::Int(v as i128))
        }
    } else if n == 2 {
        let v: u16 = u16le(rd.b, start);
        if ty == T_I16 && v >= 0x8000 {
            Ok(Json::Int(v as i128 - 0x1_0000))
        } else {
            Ok(Json::Int(v as i128))
        }
    } else if n == 4 {
        let v: u32 = u32le(rd.b, start);
        if ty == T_F32 {
            Ok(Json::Float(widen(v)))
        } else if ty == T_I32 && v >= 0x8000_0000 {
            Ok(Json::Int(v as i128 - 0x1_0000_0000))
        } else {
            Ok(Json::Int(v as i128))
        }
    } else {
        let v: u64 = u64le(rd.b, start);
        if ty == T_F64 {
            Ok(Json::Float(v))
        } else if ty == T_I64 && v >= 0x8000_0000_0000_0000 {
            Ok(Json::Int(v as i128 - 0x1_0000_0000_0000_0000))
        } else {
            Ok(Json::Int(v as i128))
        }
    }
}

fn read_elements(
    rd: &mut Rd,
    elem: u32,
    count: u64,
    depth: usize,
    limit: usize,
    problems: &mut Vec<String>,
) -> (r: Result<Vec<Json>, PeekError>)
    requires
        old(rd).inv(),
        depth <= MAX_ARRAY_DEPTH,
    ensures
        elements_from(
            old(rd).b@,
            old(rd).file_len as nat,
            old(rd).consumed as int,
            elem,
            count as nat,
            depth as int,
            limit as nat,
            seq![],
            texts(old(problems)@),
        ) == match r {
            Ok(items) => Ok::<(Seq<Doc>, int, Seq<Seq<char>>), Seq<char>>(
                (docs(items@), final(rd).consumed as int, texts(final(problems)@)),
            ),
            Err(e) => Err(e.0@),
        },
        r is Ok ==> final(rd).advanced(old(rd), final(rd).consumed as int),
    decreases MAX_ARRAY_DEPTH - depth, 1int,
{
    let mut items: Vec<Json> = Vec::new();
    let mut k: u64 = count;
    assert(docs(items@) =~= seq![]);
    while k > 0
        invariant
            rd.inv(),
            rd.b == old(rd).b,
            rd.file_len == old(rd).file_len,
            depth <= MAX_ARRAY_DEPTH,
            elements_from(
                rd.b@,
                rd.file_len as nat,
                rd.consumed as int,
                elem,
                k as nat,
                depth as int,
                limit as nat,
                docs(items@),
                texts(problems@),
            ) == elements_from(
                old(rd).b@,
                old(rd).file_len as nat,
                old(rd).consumed as int,
                elem,
                count as nat,
                depth as int,
                limit as nat,
                seq![],
                texts(old(problems)@),
            ),
        decreases k,
    {
        let ghost before = items@;
        let v: Json = match read_value(rd, elem, depth, limit, problems) {
            Ok(v) => v,
            Err(e) => {
                return Err(e);
            },
        };
        if items.len() < limit {
            items.push(v);
            assert(docs(items@) =~= docs(before).push(v@));
        }
        k = k - 1;
    }
    Ok(items)
}

/// Large arrays (tokenizer vocabularies…) are summarized so the report stays
/// readable; `--full-arrays` lifts the limit.
fn summarize(elem: u32, count: u64, items: Vec<Json>) -> (r: Json)
    ensures
        r@ == array_summary(elem, count as nat, docs(items@)),
{
    let mut inner: Vec<(String, Json)> = Vec::new();
    proof {
        lemma_view_arr(items);
    }
    put_member(&mut inner, "elem", Json::Str(find_value_name(elem).to_owned()));
    put_member(&mut inner, "len", Json::Int(count as i128));
    put_member(&mut inner, "first", Json::Arr(items));
    let mut outer: Vec<(String, Json)> = Vec::new();
    let ghost want = array_summary(elem, count as nat, docs(items@));
    proof {
        lemma_view_obj(inner);
        assert(members_of(inner@) =~= want->Obj_0[0].1->Obj_0);
    }
    put_member(&mut outer, "$array", Json::Obj(inner));
    proof {
        lemma_view_obj(outer);
        assert(members_of(outer@) =~= want->Obj_0);
    }
    Json::Obj(outer)
}

fn read_value(
    rd: &mut Rd,
    ty: u32,
    depth: usize,
    limit: usize,
    problems: &mut Vec<String>,
) -> (r: Result<Json, PeekError>)
    requires
        old(rd).inv(),
        depth <= MAX_ARRAY_DEPTH,
    ensures
        value_read(r, final(rd), final(problems)@) == value_at(
            old(rd).b@,
            old(rd).file_len as nat,
            old(rd).consumed as int,
            ty,
            depth as int,
            limit as nat,
            texts(old(problems)@),
        ),
        r is Ok ==> final(rd).inv() && final(rd).b == old(rd).b && final(rd).file_len == old(rd).file_len,
    decreases MAX_ARRAY_DEPTH - depth, 0int,
{
    if ty == T_STRING {
        match rd.string() {
            Ok((s, clean)) => {
                if !clean {
                    put_text(problems, "string metadata value is not valid UTF-8".to_owned());
                }
                Ok(Json::Str(s))
            },
            Err(e) => Err(e),
        }
    } else if ty == T_ARRAY {
        if depth >= MAX_ARRAY_DEPTH {
            return Err(PeekError("metadata arrays nested too deeply".to_owned()));
        }
        let elem: u32 = match rd.u32() {
            Ok(n) => n,
            Err(e) => {
                return Err(e);
            },
        };
        let count: u64 = match rd.u64() {
            Ok(n) => n,
            Err(e) => {
                return Err(e);
            },
        };
        let size: u64 = find_min_value_size(elem);
        assert(count * size <= u64::MAX * 12) by (nonlinear_arith)
            requires
                count <= u64::MAX,
                size <= 12,
        ;
        let need: u128 = count as u128 * size as u128;
        if need > rd.remaining() as u128 {
            let mut s: String = "array declares ".to_owned();
            put_dec(&mut s, count as u128);
            s.append(" elements, which cannot fit in the rest of the file");
            return Err(PeekError(s));
        }
        let items: Vec<Json> = match read_elements(rd, elem, count, depth + 1, limit, problems) {
            Ok(v) => v,
            Err(e) => {
                return Err(e);
            },
        };
        if count > limit as u64 {
            Ok(summarize(elem, count, items))
        } else {
            proof {
                lemma_view_arr(items);
            }
            Ok(Json::Arr(items))
        }
    } else if ty > T_F64 {
        let mut s: String = "unknown metadata value type ".to_owned();
        put_dec(&mut s, ty as u128);
        Err(PeekError(s))
    } else {
        read_scalar(rd, ty, problems)
    }
}

// ---------------------------------------------------------------------------
// Layout: the sections of the header
// ---------------------------------------------------------------------------

pub open spec fn has_key(meta: Seq<(Seq<char>, Doc)>, key: Seq<char>) -> bool {
    exists|i: int| 0 <= i < meta.len() && (#[trigger] meta[i]).0 == key
}

/// One metadata entry at `pos`, appended to what was read before it.
pub open spec fn entry_at(
    b: Seq<u8>,
    flen: nat,
    pos: int,
    limit: nat,
    meta: Seq<(Seq<char>, Doc)>,
    probs: Seq<Seq<char>>,
) -> Result<(int, Seq<(Seq<char>, Doc)>, Seq<Seq<char>>), Seq<char>> {
    match string_at(b, flen, pos) {
        Err(e) => Err(e),
        Ok((key, clean, p)) => {
            let unclean = if clean {
                probs
            } else {
                probs.push("metadata key '"@ + key + "' is not valid UTF-8"@)
            };
            let noted = if has_key(meta, key) {
                unclean.push("duplicate metadata key '"@ + key + "'"@)
            } else {
                unclean
            };
            match number_at(b, flen, p, 4) {
                Err(e) => Err(e),
                Ok(ty) => match value_at(b, flen, p + 4, ty as u32, 0, limit, noted) {
                    Err(e) => Err(e),
                    Ok((v, end, ps)) => Ok((end, meta.push((key, v)), ps)),
                },
            }
        },
    }
}

/// `k` more metadata entries at `pos`.
pub open spec fn metadata_from(
    b: Seq<u8>,
    flen: nat,
    pos: int,
    k: nat,
    limit: nat,
    meta: Seq<(Seq<char>, Doc)>,
    probs: Seq<Seq<char>>,
) -> Result<(int, Seq<(Seq<char>, Doc)>, Seq<Seq<char>>), Seq<char>>
    decreases k,
{
    if k == 0 {
        Ok((pos, meta, probs))
    } else {
        match entry_at(b, flen, pos, limit, meta, probs) {
            Err(e) => Err(e),
            Ok((end, m, ps)) => metadata_from(b, flen, end, (k - 1) as nat, limit, m, ps),
        }
    }
}

pub open spec fn is_power_of_two(n: nat) -> bool
    decreases n,
{
    n == 1 || (n > 1 && n % 2 == 0 && is_power_of_two(n / 2))
}

/// Whether a metadata value can serve as the data alignment.
pub open spec fn good_alignment(v: Doc) -> bool {
    v matches Doc::Int(n) && 0 < n <= u64::MAX && is_power_of_two(n as nat)
}

/// The data alignment the metadata asks for.
pub open spec fn alignment_of(meta: Seq<(Seq<char>, Doc)>) -> nat {
    match first_member(meta, "general.alignment"@, 0) {
        Some(v) => if good_alignment(v) {
            v->Int_0 as nat
        } else {
            DEFAULT_ALIGNMENT as nat
        },
        None => DEFAULT_ALIGNMENT as nat,
    }
}

/// The problems noted once the alignment is known.
pub open spec fn alignment_problems(
    meta: Seq<(Seq<char>, Doc)>,
    probs: Seq<Seq<char>>,
) -> Seq<Seq<char>> {
    match first_member(meta, "general.alignment"@, 0) {
        Some(v) => if good_alignment(v) {
            probs
        } else {
            probs.push(
                "general.alignment is "@ + written(v, None)
                    + " — not a positive power of two; using the default 32"@,
            )
        },
        None => probs,
    }
}

/// `k` more dimensions at `pos`.
pub open spec fn dims_from(b: Seq<u8>, flen: nat, pos: int, k: nat, shape: Seq<u64>) -> Result<
    (Seq<u64>, int),
    Seq<char>,
>
    decreases k,
{
    if k == 0 {
        Ok((shape, pos))
    } else {
        match number_at(b, flen, pos, 8) {
            Err(e) => Err(e),
            Ok(d) => dims_from(b, flen, pos + 8, (k - 1) as nat, shape.push(d as u64)),
        }
    }
}

pub open spec fn ceil_div(n: nat, d: nat) -> nat {
    if d == 0 {
        0
    } else {
        ((n + d - 1) as nat) / d
    }
}

/// Bytes a tensor of that shape takes in blocks of `len` elements and `bytes`
/// bytes, held at the largest `u64`.
pub open spec fn block_bytes(shape: Seq<u64>, len: nat, bytes: nat) -> nat {
    min_nat(ceil_div(numel_of(shape), len) * bytes, u64::MAX as nat)
}

pub open spec fn first_dim(shape: Seq<u64>) -> nat {
    if shape.len() == 0 {
        1
    } else {
        shape[0] as nat
    }
}

/// The tensor a table entry describes.
pub open spec fn described_tensor(
    name: Seq<char>,
    shape: Seq<u64>,
    id: u32,
    offset: nat,
) -> TensorModel {
    match ggml_type(id) {
        Some((tname, len, bytes)) => tensor_model(
            name,
            tname,
            shape,
            offset,
            block_bytes(shape, len, bytes),
        ),
        None => tensor_model(name, "unknown("@ + dec(id as nat) + ")"@, shape, offset, 0),
    }
}

/// The problems a table entry adds.
pub open spec fn type_problems(
    name: Seq<char>,
    shape: Seq<u64>,
    id: u32,
    probs: Seq<Seq<char>>,
) -> Seq<Seq<char>> {
    match ggml_type(id) {
        Some((tname, len, bytes)) => if len > 1 && first_dim(shape) % len != 0 {
            probs.push(
                "tensor '"@ + name + "': first dimension "@ + dec(first_dim(shape))
                    + " is not divisible by the "@ + tname + " block length "@ + dec(len),
            )
        } else {
            probs
        },
        None => probs.push("tensor '"@ + name + "': unknown ggml type id "@ + dec(id as nat)),
    }
}

pub open spec fn max_nat(a: nat, b: nat) -> nat {
    if a >= b {
        a
    } else {
        b
    }
}

/// Entry `i` of the tensor table at `pos`, appended to what was read before.
pub open spec fn tensor_at(
    b: Seq<u8>,
    flen: nat,
    pos: int,
    i: nat,
    ts: Seq<TensorModel>,
    probs: Seq<Seq<char>>,
) -> Result<(int, Seq<TensorModel>, Seq<Seq<char>>), Seq<char>> {
    match string_at(b, flen, pos) {
        Err(e) => Err(e),
        Ok((name, clean, p)) => {
            let noted = if clean {
                probs
            } else {
                probs.push("tensor #"@ + dec(i) + " name is not valid UTF-8"@)
            };
            match number_at(b, flen, p, 4) {
                Err(e) => Err(e),
                Ok(n) => if n > MAX_DIMS {
                    Err(
                        "tensor '"@ + name + "' declares "@ + dec(n) + " dimensions (max "@ + dec(
                            MAX_DIMS as nat,
                        ) + ") — corrupt header"@,
                    )
                } else {
                    match dims_from(b, flen, p + 4, n, seq![]) {
                        Err(e) => Err(e),
                        Ok((shape, q)) => match number_at(b, flen, q, 4) {
                            Err(e) => Err(e),
                            Ok(id) => match number_at(b, flen, q + 4, 8) {
                                Err(e) => Err(e),
                                Ok(offset) => Ok(
                                    (
                                        q + 12,
                                        ts.push(described_tensor(name, shape, id as u32, offset)),
                                        type_problems(name, shape, id as u32, noted),
                                    ),
                                ),
                            },
                        },
                    }
                },
            }
        },
    }
}

/// The tensor table from entry `i` of `count` on.
pub open spec fn tensors_from(
    b: Seq<u8>,
    flen: nat,
    pos: int,
    i: nat,
    count: nat,
    ts: Seq<TensorModel>,
    probs: Seq<Seq<char>>,
) -> Result<(int, Seq<TensorModel>, Seq<Seq<char>>), Seq<char>>
    decreases count - i,
{
    if i >= count {
        Ok((pos, ts, probs))
    } else {
        match tensor_at(b, flen, pos, i, ts, probs) {
            Err(e) => Err(e),
            Ok((end, t, ps)) => tensors_from(b, flen, end, i + 1, count, t, ps),
        }
    }
}

/// The end of the furthest tensor, held at the largest `u64`.
pub open spec fn data_end(ts: Seq<TensorModel>) -> nat
    decreases ts.len(),
{
    if ts.len() == 0 {
        0
    } else {
        max_nat(
            data_end(ts.drop_last()),
            min_nat(ts.last().offset + ts.last().bytes, u64::MAX as nat),
        )
    }
}

/// The next multiple of `a` at or after `x`, held at the largest `u64`.
pub open spec fn aligned(x: nat, a: nat) -> nat {
    min_nat(ceil_div(x, a) * a, u64::MAX as nat)
}

pub open spec fn plural(n: nat) -> Seq<char> {
    if n == 1 {
        ""@
    } else {
        "s"@
    }
}

/// The problems that the size of the file adds.
pub open spec fn size_problems(
    flen: nat,
    start: nat,
    end: nat,
    alignment: nat,
    probs: Seq<Seq<char>>,
) -> Seq<Seq<char>> {
    let expected = min_nat(start + end, u64::MAX as nat);
    if flen < expected {
        probs.push(
            "tensor data needs "@ + dec(end) + " bytes but only "@ + dec(
                if flen < start {
                    0
                } else {
                    (flen - start) as nat
                },
            ) + " are present ("@ + dec((expected - flen) as nat) + " missing) — truncated file"@,
        )
    } else if flen - expected >= alignment {
        probs.push(
            dec((flen - expected) as nat) + " trailing byte"@ + plural((flen - expected) as nat)
                + " after the last tensor"@,
        )
    } else {
        probs
    }
}

/// The detail object of a report.
pub open spec fn details_of(
    version: nat,
    alignment: nat,
    start: nat,
    meta: Seq<(Seq<char>, Doc)>,
) -> Doc {
    let fixed = seq![
        ("version"@, Doc::Int(version as int)),
        ("alignment"@, Doc::Int(alignment as int)),
        ("data_start"@, Doc::Int(start as int)),
    ];
    match first_member(meta, "general.architecture"@, 0) {
        Some(v) => Doc::Obj(fixed.push(("architecture"@, v))),
        None => Doc::Obj(fixed),
    }
}

/// The report on a header that ends at `pos`.
pub open spec fn report_of(
    path: Seq<char>,
    flen: nat,
    version: nat,
    pos: nat,
    meta: Seq<(Seq<char>, Doc)>,
    ts: Seq<TensorModel>,
    probs: Seq<Seq<char>>,
) -> ReportModel {
    let alignment = alignment_of(meta);
    let start = aligned(pos, alignment);
    ReportModel {
        header_bytes: min_nat(start, flen),
        data_bytes: data_end(ts),
        metadata: Doc::Obj(meta),
        details: details_of(version, alignment, start, meta),
        tensors: ts,
        problems: size_problems(flen, start, data_end(ts), alignment, probs),
        ..empty_report(path, "gguf"@, flen)
    }
}

/// The fixed-size start of the header: version, tensor count, key count.
pub open spec fn head_of(b: Seq<u8>, flen: nat) -> Result<(nat, nat, nat), Seq<char>> {
    match shortage(b, flen, 0, 4) {
        Some(e) => Err(e),
        None => if b.take(4) != seq![0x47u8, 0x47, 0x55, 0x46] {
            Err("not a GGUF file (bad magic)"@)
        } else {
            match number_at(b, flen, 4, 4) {
                Err(e) => Err(e),
                Ok(version) => if version == 1 {
                    Err("GGUF v1 is obsolete and unsupported"@)
                } else if !(2 <= version <= 3) {
                    if version % 0x100_0000 == 0 && 1 <= version / 0x100_0000 <= 16 {
                        Err(
                            "this looks like a big-endian GGUF file, which tensorpeek does not support"@,
                        )
                    } else {
                        Err("unsupported GGUF version "@ + dec(version))
                    }
                } else {
                    match number_at(b, flen, 8, 8) {
                        Err(e) => Err(e),
                        Ok(tensors) => match number_at(b, flen, 16, 8) {
                            Err(e) => Err(e),
                            Ok(keys) => if 24 + 24 * tensors + 13 * keys <= flen {
                                Ok((version, tensors, keys))
                            } else {
                                Err(
                                    "header declares "@ + dec(keys) + " metadata keys and "@ + dec(
                                        tensors,
                                    ) + " tensors, which cannot fit in a "@ + dec(flen)
                                        + "-byte file"@,
                                )
                            },
                        },
                    }
                },
            }
        },
    }
}

/// What a file of `flen` bytes whose first bytes are `b` contains.
pub open spec fn parse_model(b: Seq<u8>, flen: nat, path: Seq<char>, limit: nat) -> Result<
    ReportModel,
    Seq<char>,
> {
    match head_of(b, flen) {
        Err(e) => Err(e),
        Ok((version, tensors, keys)) => match metadata_from(
            b,
            flen,
            24,
            keys,
            limit,
            seq![],
            seq![],
        ) {
            Err(e) => Err(e),
            Ok((p, meta, probs)) => match tensors_from(
                b,
                flen,
                p,
                0,
                tensors,
                seq![],
                alignment_problems(meta, probs),
            ) {
                Err(e) => Err(e),
                Ok((end, ts, ps)) => Ok(
                    report_of(path, flen, version, end as nat, meta, ts, ps),
                ),
            },
        },
    }
}

// ---------------------------------------------------------------------------
// Parser
// ---------------------------------------------------------------------------

fn contains_key(meta: &Vec<(String, Json)>, key: &str) -> (r: bool)
    ensures
        r == has_key(members_of(meta@), key@),
{
    let mut i: usize = 0;
    while i < meta.len()
        invariant
            i <= meta@.len(),
            forall|k: int| 0 <= k < i ==> (#[trigger] members_of(meta@)[k]).0 != key@,
        decreases meta@.len() - i,
    {
        if same(meta[i].0.as_str(), key) {
            assert(members_of(meta@)[i as int].0 == key@);
            return true;
        }
        i = i + 1;
    }
    false
}

fn find_key(meta: &Vec<(String, Json)>, key: &str) -> (r: Option<usize>)
    ensures
        match r {
            Some(i) => i < meta@.len() && first_member(members_of(meta@), key@, 0) == Some(
                meta@[i as int].1@,
            ),
            None => first_member(members_of(meta@), key@, 0) is None,
        },
{
    let mut i: usize = 0;
    while i < meta.len()
        invariant
            i <= meta@.len(),
            first_member(members_of(meta@), key@, i as int) == first_member(
                members_of(meta@),
                key@,
                0,
            ),
        decreases meta@.len() - i,
    {
        if same(meta[i].0.as_str(), key) {
            return Some(i);
        }
        i = i + 1;
    }
    None
}

fn read_entry(
    rd: &mut Rd,
    limit: usize,
    meta: &mut Vec<(String, Json)>,
    problems: &mut Vec<String>,
) -> (r: Result<(), PeekError>)
    requires
        old(rd).inv(),
    ensures
        entry_at(
            old(rd).b@,
            old(rd).file_len as nat,
            old(rd).consumed as int,
            limit as nat,
            members_of(old(meta)@),
            texts(old(problems)@),
        ) == match r {
            Ok(_) => Ok::<(int, Seq<(Seq<char>, Doc)>, Seq<Seq<char>>), Seq<char>>(
                (final(rd).consumed as int, members_of(final(meta)@), texts(final(problems)@)),
            ),
            Err(e) => Err(e.0@),
        },
        r is Ok ==> final(rd).advanced(old(rd), final(rd).consumed as int),
{
    let (key, clean) = match rd.string() {
        Ok(k) => k,
        Err(e) => {
            return Err(e);
        },
    };
    if !clean {
        let mut s: String = "metadata key '".to_owned();
        s.append(key.as_str());
        s.append("' is not valid UTF-8");
        put_text(problems, s);
    }
    if contains_key(meta, key.as_str()) {
        let mut s: String = "duplicate metadata key '".to_owned();
        s.append(key.as_str());
        s.append("'");
        put_text(problems, s);
    }
    let ty: u32 = match rd.u32() {
        Ok(n) => n,
        Err(e) => {
            return Err(e);
        },
    };
    match read_value(rd, ty, 0, limit, problems) {
        Ok(v) => {
            put_member(meta, key.as_str(), v);
            Ok(())
        },
        Err(e) => Err(e),
    }
}

pub fn power_of_two(n: u64) -> (r: bool)
    ensures
        r == is_power_of_two(n as nat),
{
    let mut m: u64 = n;
    while m > 1 && m % 2 == 0
        invariant
            is_power_of_two(m as nat) == is_power_of_two(n as nat),
        decreases m,
    {
        m = m / 2;
    }
    m == 1
}

fn choose_alignment(meta: &Vec<(String, Json)>, problems: &mut Vec<String>) -> (r: u64)
    ensures
        r == alignment_of(members_of(meta@)),
        r > 0,
        texts(final(problems)@) == alignment_problems(
            members_of(meta@),
            texts(old(problems)@),
        ),
{
    match find_key(meta, "general.alignment") {
        None => DEFAULT_ALIGNMENT,
        Some(i) => {
            let v: &Json = &meta[i].1;
            match v.as_int() {
                Some(a) => {
                    if a > 0 && a <= 0xffff_ffff_ffff_ffff && power_of_two(a as u64) {
                        return a as u64;
                    }
                },
                None => {},
            }
            let mut s: String = "general.alignment is ".to_owned();
            s.append(v.compact().as_str());
            s.append(" — not a positive power of two; using the default 32");
            put_text(problems, s);
            DEFAULT_ALIGNMENT
        },
    }
}

/// `n / d`, rounded up.
fn div_up(n: u128, d: u64) -> (r: u128)
    requires
        d > 0,
    ensures
        r == ceil_div(n as nat, d as nat),
        r <= n,
{
    let q: u128 = n / d as u128;
    let m: u128 = n % d as u128;
    proof {
        lemma_ceil_div(n as nat, d as nat);
    }
    if m == 0 {
        q
    } else {
        q + 1
    }
}

pub proof fn lemma_ceil_div(n: nat, d: nat)
    requires
        d > 0,
    ensures
        ceil_div(n, d) == n / d + (if n % d == 0 {
            0nat
        } else {
            1nat
        }),
        ceil_div(n, d) <= n,
        ceil_div(n, d) * d >= n,
        ceil_div(n, d) * d < n + d,
        ceil_div(n, d) * d % d == 0,
{
    let q = n / d;
    let m = n % d;
    vstd::arithmetic::div_mod::lemma_fundamental_div_mod(n as int, d as int);
    if m == 0 {
        vstd::arithmetic::div_mod::lemma_fundamental_div_mod_converse(
            n + d - 1,
            d as int,
            q as int,
            d - 1,
        );
    } else {
        assert(n + d - 1 == (q + 1) * d + (m - 1)) by (nonlinear_arith)
            requires
                n == d * q + m,
        ;
        vstd::arithmetic::div_mod::lemma_fundamental_div_mod_converse(
            n + d - 1,
            d as int,
            q as int + 1,
            m - 1,
        );
    }
    let c = ceil_div(n, d);
    assert(q * d <= n && (m == 0 ==> q * d == n) && (m != 0 ==> (q + 1) * d > n && (q + 1) * d < n
        + d)) by (nonlinear_arith)
        requires
            n == d * q + m,
            0 <= m < d,
    ;
    assert(q <= n) by (nonlinear_arith)
        requires
            n == d * q + m,
            0 <= m,
            d > 0,
    ;
    assert(m != 0 ==> q + 1 <= n) by (nonlinear_arith)
        requires
            n == d * q + m,
            0 <= m,
            d > 0,
    ;
    vstd::arithmetic::div_mod::lemma_mod_multiples_basic(c as int, d as int);
}

fn read_dims(rd: &mut Rd, n: u32) -> (r: Result<Vec<u64>, PeekError>)
    requires
        old(rd).inv(),
    ensures
        dims_from(
            old(rd).b@,
            old(rd).file_len as nat,
            old(rd).consumed as int,
            n as nat,
            seq![],
        ) == match r {
            Ok(shape) => Ok::<(Seq<u64>, int), Seq<char>>((shape@, final(rd).consumed as int)),
            Err(e) => Err(e.0@),
        },
        r is Ok ==> final(rd).advanced(old(rd), final(rd).consumed as int),
{
    let mut shape: Vec<u64> = Vec::new();
    let mut k: u32 = n;
    while k > 0
        invariant
            rd.inv(),
            rd.b == old(rd).b,
            rd.file_len == old(rd).file_len,
            dims_from(rd.b@, rd.file_len as nat, rd.consumed as int, k as nat, shape@)
                == dims_from(
                old(rd).b@,
                old(rd).file_len as nat,
                old(rd).consumed as int,
                n as nat,
                seq![],
            ),
        decreases k,
    {
        match rd.u64() {
            Ok(d) => shape.push(d),
            Err(e) => {
                return Err(e);
            },
        }
        k = k - 1;
    }
    Ok(shape)
}

/// The report entry for a table entry, and its problems.
fn describe(
    name: &str,
    shape: Vec<u64>,
    id: u32,
    offset: u64,
    problems: &mut Vec<String>,
) -> (r: Tensor)
    ensures
        r@ == described_tensor(name@, shape@, id, offset as nat),
        texts(final(problems)@) == type_problems(name@, shape@, id, texts(old(problems)@)),
{
    match find_ggml_type(id) {
        Some((tname, len, bytes)) => {
            let ne0: u64 = if shape.len() == 0 {
                1
            } else {
                shape[0]
            };
            if len > 1 && ne0 % len != 0 {
                let mut s: String = "tensor '".to_owned();
                s.append(name);
                s.append("': first dimension ");
                put_dec(&mut s, ne0 as u128);
                s.append(" is not divisible by the ");
                s.append(tname);
                s.append(" block length ");
                put_dec(&mut s, len as u128);
                put_text(problems, s);
            }
            let numel: u128 = saturating_product(shape.as_slice());
            let blocks: u128 = div_up(numel, len);
            let size: u64 = match blocks.checked_mul(bytes as u128) {
                Some(n) => if n <= 0xffff_ffff_ffff_ffff {
                    n as u64
                } else {
                    u64::MAX
                },
                None => u64::MAX,
            };
            Tensor::new(name, tname, shape, offset, size)
        },
        None => {
            let mut s: String = "tensor '".to_owned();
            s.append(name);
            s.append("': unknown ggml type id ");
            put_dec(&mut s, id as u128);
            put_text(problems, s);
            let mut dtype: String = "unknown(".to_owned();
            put_dec(&mut dtype, id as u128);
            dtype.append(")");
            Tensor::new(name, dtype.as_str(), shape, offset, 0)
        },
    }
}

fn read_tensor(rd: &mut Rd, i: u64, tensors: &mut Vec<Tensor>, problems: &mut Vec<String>) -> (r:
    Result<(), PeekError>)
    requires
        old(rd).inv(),
    ensures
        tensor_at(
            old(rd).b@,
            old(rd).file_len as nat,
            old(rd).consumed as int,
            i as nat,
            tensors_of(old(tensors)@),
            texts(old(problems)@),
        ) == match r {
            Ok(_) => Ok::<(int, Seq<TensorModel>, Seq<Seq<char>>), Seq<char>>(
                (final(rd).consumed as int, tensors_of(final(tensors)@), texts(final(problems)@)),
            ),
            Err(e) => Err(e.0@),
        },
        r is Ok ==> final(rd).advanced(old(rd), final(rd).consumed as int),
{
    let (name, clean) = match rd.string() {
        Ok(k) => k,
        Err(e) => {
            return Err(e);
        },
    };
    if !clean {
        let mut s: String = "tensor #".to_owned();
        put_dec(&mut s, i as u128);
        s.append(" name is not valid UTF-8");
        put_text(problems, s);
    }
    let n_dims: u32 = match rd.u32() {
        Ok(n) => n,
        Err(e) => {
            return Err(e);
        },
    };
    if n_dims > MAX_DIMS {
        let mut s: String = "tensor '".to_owned();
        s.append(name.as_str());
        s.append("' declares ");
        put_dec(&mut s, n_dims as u128);
        s.append(" dimensions (max ");
        put_dec(&mut s, MAX_DIMS as u128);
        s.append(") — corrupt header");
        return Err(PeekError(s));
    }
    let shape: Vec<u64> = match read_dims(rd, n_dims) {
        Ok(s) => s,
        Err(e) => {
            return Err(e);
        },
    };
    let id: u32 = match rd.u32() {
        Ok(n) => n,
        Err(e) => {
            return Err(e);
        },
    };
    let offset: u64 = match rd.u64() {
        Ok(n) => n,
        Err(e) => {
            return Err(e);
        },
    };
    let t: Tensor = describe(name.as_str(), shape, id, offset, problems);
    tensors.push(t);
    assert(tensors_of(tensors@) =~= tensors_of(old(tensors)@).push(t@));
    Ok(())
}

fn furthest(tensors: &Vec<Tensor>) -> (r: u64)
    ensures
        r == data_end(tensors_of(tensors@)),
{
    let mut end: u64 = 0;
    let mut i: usize = 0;
    let ghost ts = tensors_of(tensors@);
    assert(ts.take(0) =~= seq![]);
    while i < tensors.len()
        invariant
            i <= tensors@.len(),
            ts == tensors_of(tensors@),
            end == data_end(ts.take(i as int)),
        decreases tensors@.len() - i,
    {
        assert(ts.take(i + 1).drop_last() =~= ts.take(i as int));
        let e: u64 = tensors[i].offset.saturating_add(tensors[i].bytes);
        if e > end {
            end = e;
        }
        i = i + 1;
    }
    assert(ts.take(i as int) =~= ts);
    end
}

fn align_up(x: u64, a: u64) -> (r: u64)
    requires
        a > 0,
    ensures
        r == aligned(x as nat, a as nat),
{
    let q: u128 = div_up(x as u128, a);
    proof {
        lemma_ceil_div(x as nat, a as nat);
    }
    let n: u128 = q * a as u128;
    if n <= 0xffff_ffff_ffff_ffff {
        n as u64
    } else {
        u64::MAX
    }
}

fn note_size(file_len: u64, start: u64, end: u64, alignment: u64, problems: &mut Vec<String>)
    ensures
        texts(final(problems)@) == size_problems(
            file_len as nat,
            start as nat,
            end as nat,
            alignment as nat,
            texts(old(problems)@),
        ),
{
    let expected: u64 = start.saturating_add(end);
    if file_len < expected {
        let mut s: String = "tensor data needs ".to_owned();
        put_dec(&mut s, end as u128);
        s.append(" bytes but only ");
        put_dec(&mut s, file_len.saturating_sub(start) as u128);
        s.append(" are present (");
        put_dec(&mut s, (expected - file_len) as u128);
        s.append(" missing) — truncated file");
        put_text(problems, s);
    } else if file_len - expected >= alignment {
        let extra: u64 = file_len - expected;
        let mut s: String = String::new();
        put_dec(&mut s, extra as u128);
        s.append(" trailing byte");
        s.append(
            if extra == 1 {
                ""
            } else {
                "s"
            },
        );
        s.append(" after the last tensor");
        assert(s@ =~= dec(extra as nat) + " trailing byte"@ + plural(extra as nat)
            + " after the last tensor"@);
        put_text(problems, s);
    }
}

fn read_head(rd: &mut Rd) -> (r: Result<(u32, u64, u64), PeekError>)
    requires
        old(rd).inv(),
        old(rd).consumed == 0,
    ensures
        head_of(old(rd).b@, old(rd).file_len as nat) == match r {
            Ok((v, t, k)) => Ok::<(nat, nat, nat), Seq<char>>((v as nat, t as nat, k as nat)),
            Err(e) => Err(e.0@),
        },
        r is Ok ==> final(rd).advanced(old(rd), 24),
{
    let start: usize = match rd.take(4) {
        Ok(p) => p,
        Err(e) => {
            return Err(e);
        },
    };
    assert(rd.b@.take(4) =~= seq![rd.b@[0], rd.b@[1], rd.b@[2], rd.b@[3]]);
    if !(rd.b[0] == 0x47 && rd.b[1] == 0x47 && rd.b[2] == 0x55 && rd.b[3] == 0x46) {
        proof {
            let want = seq![0x47u8, 0x47, 0x55, 0x46];
            assert(want[0] == 0x47 && want[1] == 0x47 && want[2] == 0x55 && want[3] == 0x46);
            assert(rd.b@.take(4)[0] == rd.b@[0] && rd.b@.take(4)[1] == rd.b@[1] && rd.b@.take(4)[2]
                == rd.b@[2] && rd.b@.take(4)[3] == rd.b@[3]);
        }
        return Err(PeekError("not a GGUF file (bad magic)".to_owned()));
    }
    let version: u32 = match rd.u32() {
        Ok(n) => n,
        Err(e) => {
            return Err(e);
        },
    };
    if version == 1 {
        return Err(PeekError("GGUF v1 is obsolete and unsupported".to_owned()));
    }
    if !(2 <= version && version <= 3) {
        if version % 0x100_0000 == 0 && 1 <= version / 0x100_0000 && version / 0x100_0000 <= 16 {
            return Err(
                PeekError(
                    "this looks like a big-endian GGUF file, which tensorpeek does not support".to_owned(),
                ),
            );
        }
        let mut s: String = "unsupported GGUF version ".to_owned();
        put_dec(&mut s, version as u128);
        return Err(PeekError(s));
    }
    let tensors: u64 = match rd.u64() {
        Ok(n) => n,
        Err(e) => {
            return Err(e);
        },
    };
    let keys: u64 = match rd.u64() {
        Ok(n) => n,
        Err(e) => {
            return Err(e);
        },
    };
    // Minimal on-disk sizes: a KV is at least key-length + type + 1 byte,
    // a tensor info at least name-length + n_dims + type + offset.
    let need: u128 = tensors as u128 * 24 + keys as u128 * 13;
    if need > rd.remaining() as u128 {
        let mut s: String = "header declares ".to_owned();
        put_dec(&mut s, keys as u128);
        s.append(" metadata keys and ");
        put_dec(&mut s, tensors as u128);
        s.append(" tensors, which cannot fit in a ");
        put_dec(&mut s, rd.file_len as u128);
        s.append("-byte file");
        return Err(PeekError(s));
    }
    Ok((version, tensors, keys))
}

/// Parse a GGUF header. `data` holds the file from its start, as much of it
/// as is at hand; `array_limit` bounds how many elements of each metadata
/// array land in the report (`usize::MAX` = keep everything).
pub fn parse(data: &[u8], file_len: u64, path: &str, array_limit: usize) -> (r: Result<
    Report,
    PeekError,
>)
    ensures
        parse_model(data@, file_len as nat, path@, array_limit as nat) == match r {
            Ok(report) => Ok::<ReportModel, Seq<char>>(report@),
            Err(e) => Err(e.0@),
        },
{
    let n: usize = data.len();
    let mut rd = Rd { b: data, consumed: 0, file_len };
    assert(rd.inv() && n == data@.len());
    let (version, tensor_count, kv_count) = match read_head(&mut rd) {
        Ok(h) => h,
        Err(e) => {
            return Err(e);
        },
    };
    let mut problems: Vec<String> = Vec::new();
    let mut meta: Vec<(String, Json)> = Vec::new();
    let ghost flen = file_len as nat;
    let ghost limit = array_limit as nat;
    let ghost all_meta = metadata_from(data@, flen, 24, kv_count as nat, limit, seq![], seq![]);
    let ghost target = parse_model(data@, flen, path@, limit);
    assert(members_of(meta@) =~= seq![]);
    assert(texts(problems@) =~= seq![]);
    let mut k: u64 = kv_count;
    while k > 0
        invariant
            rd.inv(),
            rd.b == data,
            rd.file_len == file_len,
            flen == file_len,
            limit == array_limit,
            metadata_from(
                data@,
                flen,
                rd.consumed as int,
                k as nat,
                limit,
                members_of(meta@),
                texts(problems@),
            ) == all_meta,
            target == parse_model(data@, file_len as nat, path@, array_limit as nat),
            all_meta matches Err(e) ==> target == Err::<ReportModel, Seq<char>>(e),
        decreases k,
    {
        match read_entry(&mut rd, array_limit, &mut meta, &mut problems) {
            Ok(_) => {},
            Err(e) => {
                return Err(e);
            },
        }
        k = k - 1;
    }
    let alignment: u64 = choose_alignment(&meta, &mut problems);
    let mut tensors: Vec<Tensor> = Vec::new();
    assert(tensors_of(tensors@) =~= seq![]);
    let ghost meta_model = members_of(meta@);
    let ghost all_tensors = tensors_from(
        data@,
        flen,
        rd.consumed as int,
        0,
        tensor_count as nat,
        seq![],
        texts(problems@),
    );
    let mut i: u64 = 0;
    while i < tensor_count
        invariant
            i <= tensor_count,
            rd.inv(),
            rd.b == data,
            rd.file_len == file_len,
            flen == file_len,
            tensors_from(
                data@,
                flen,
                rd.consumed as int,
                i as nat,
                tensor_count as nat,
                tensors_of(tensors@),
                texts(problems@),
            ) == all_tensors,
            target == parse_model(data@, file_len as nat, path@, array_limit as nat),
            all_tensors matches Err(e) ==> target == Err::<ReportModel, Seq<char>>(e),
        decreases tensor_count - i,
    {
        match read_tensor(&mut rd, i, &mut tensors, &mut problems) {
            Ok(_) => {},
            Err(e) => {
                return Err(e);
            },
        }
        i = i + 1;
    }
    let end: u64 = furthest(&tensors);
    let start: u64 = align_up(rd.consumed as u64, alignment);
    let ghost probs = texts(problems@);
    note_size(file_len, start, end, alignment, &mut problems);
    let mut details: Vec<(String, Json)> = Vec::new();
    put_member(&mut details, "version", Json::Int(version as i128));
    put_member(&mut details, "alignment", Json::Int(alignment as i128));
    put_member(&mut details, "data_start", Json::Int(start as i128));
    match find_key(&meta, "general.architecture") {
        Some(i) => put_member(&mut details, "architecture", meta[i].1.clone()),
        None => {},
    }
    let mut report: Report = Report::new(path, "gguf", file_len);
    report.header_bytes = if start < file_len {
        start
    } else {
        file_len
    };
    report.data_bytes = end;
    proof {
        lemma_view_obj(details);
        lemma_view_obj(meta);
        assert(members_of(details@) =~= details_of(
            version as nat,
            alignment as nat,
            start as nat,
            meta_model,
        )->Obj_0);
    }
    report.details = Json::Obj(details);
    report.metadata = Json::Obj(meta);
    report.tensors = tensors;
    report.problems = problems;
    proof {
        assert(report@ =~= report_of(
            path@,
            flen,
            version as nat,
            rd.consumed as nat,
            meta_model,
            tensors_of(tensors@),
            probs,
        ));
    }
    Ok(report)
}

/// How many bytes of the file to try next, after a parse of its first `have`
/// bytes came to `r`: nothing when `r` is the answer, and otherwise twice as
/// many, but no more than there are. So no more than twice the header is ever
/// read, or the first prefix.
pub fn next_prefix(r: &Result<Report, PeekError>, have: u64, file_len: u64) -> (n: Option<u64>)
    ensures
        n is Some <==> have < file_len && (r matches Err(e) && e.0@ == SHORT_READ@),
        n matches Some(m) ==> have < m && m == min_nat(
            if have == 0 {
                FIRST_PREFIX as nat
            } else {
                (2 * have) as nat
            },
            file_len as nat,
        ),
{
    if have >= file_len {
        return None;
    }
    match r {
        Ok(_) => None,
        Err(e) => {
            if !same(e.0.as_str(), SHORT_READ) {
                None
            } else if have == 0 {
                if file_len < FIRST_PREFIX {
                    Some(file_len)
                } else {
                    Some(FIRST_PREFIX)
                }
            } else if have <= file_len / 2 {
                Some(2 * have)
            } else {
                Some(file_len)
            }
        },
    }
}

} // verus!
