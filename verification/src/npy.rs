//! NumPy `.npy` header parser. An npy file is `\x93NUMPY`, a two-byte
//! version, a little-endian header length (u16 for format 1.0, u32 for
//! 2.0/3.0) and a Python dict literal like
//! `{'descr': '<f4', 'fortran_order': False, 'shape': (2, 3), }`.
//! The dict is parsed with a small purpose-built literal parser — no Python
//! required — including structured (record) dtypes.

use vstd::prelude::*;
use vstd::slice::slice_subrange;
use vstd::string::*;
use vstd::utf8::*;
use crate::ascii::{APOSTROPHE, BACKSLASH, COLON, COMMA, LBRACE, LBRACKET, LPAREN, MINUS, NEWLINE, QUOTE, RBRACE, RBRACKET, RETURN, RPAREN, SPACE, TAB};
use crate::bytes::{le, u16le, u32le};
use crate::float::{digit_bytes_value, is_digit_byte};
use crate::json::{byte_is, digits_end, docs, exact_int, lemma_digits_end, lemma_skip_ws, lemma_view_arr, lemma_view_obj, members_of, skip_ws, Doc, Json};
use crate::report::{empty_report, numel_of, put_member, put_text, saturating_product, tensor_model, tensors_of, texts, PeekError, Report, ReportModel, Tensor};
use crate::text::{bytes_start_with, chars_of, dec, parse_unsigned, put_dec, read_unsigned, same, same_bytes, starts_with, utf8_text};

verus! {

pub const MAGIC: [u8; 6] = [0x93, 0x4e, 0x55, 0x4d, 0x50, 0x59];

/// How many bytes of prefix can ever be needed: magic + version + u32 length
/// + a maximal dict. Real headers are < 200 bytes; structured ones a few KB.
pub const MAX_PREFIX: usize = 6 + 2 + 4 + 65536;

/// A Python literal.
#[derive(Debug, PartialEq)]
pub enum Py {
    Str(String),
    Bool(bool),
    Int(i64),
    /// A tuple or list; the bool is true for tuples.
    Items(Vec<Py>, bool),
}

/// The mathematical value of a [`Py`].
pub enum PyModel {
    Str(Seq<char>),
    Bool(bool),
    Int(int),
    Items(Seq<PyModel>, bool),
}

impl View for Py {
    type V = PyModel;

    open spec fn view(&self) -> PyModel {
        py_model(*self)
    }
}

pub open spec fn py_model(v: Py) -> PyModel
    decreases v,
{
    match v {
        Py::Str(s) => PyModel::Str(s@),
        Py::Bool(b) => PyModel::Bool(b),
        Py::Int(n) => PyModel::Int(n as int),
        Py::Items(items, tuple) => PyModel::Items(
            Seq::new(
                items@.len(),
                |i: int|
                    if 0 <= i < items@.len() {
                        py_model(items@[i])
                    } else {
                        PyModel::Bool(false)
                    },
            ),
            tuple,
        ),
    }
}

pub open spec fn py_models(items: Seq<Py>) -> Seq<PyModel> {
    Seq::new(items.len(), |i: int| items[i]@)
}

pub open spec fn pairs_of(pairs: Seq<(String, Py)>) -> Seq<(Seq<char>, PyModel)> {
    Seq::new(pairs.len(), |i: int| (pairs[i].0@, pairs[i].1@))
}

pub proof fn lemma_view_seq(items: Vec<Py>, tuple: bool)
    ensures
        Py::Items(items, tuple)@ == PyModel::Items(py_models(items@), tuple),
{
    assert(Py::Items(items, tuple)@->Items_0 =~= py_models(items@));
}

impl Clone for Py {
    fn clone(&self) -> (r: Py)
        ensures
            r@ == self@,
    {
        self.copy()
    }
}

impl Py {
    fn copy(&self) -> (r: Py)
        ensures
            r@ == self@,
        decreases self,
    {
        match self {
            Py::Str(s) => Py::Str(s.clone()),
            Py::Bool(b) => Py::Bool(*b),
            Py::Int(n) => Py::Int(*n),
            Py::Items(items, tuple) => {
                let mut out: Vec<Py> = Vec::new();
                for i in 0..items.len()
                    invariant
                        self == Py::Items(*items, *tuple),
                        out@.len() == i,
                        forall|k: int| 0 <= k < i ==> (#[trigger] out@[k])@ == items@[k]@,
                {
                    assert(decreases_to!(self => self->Items_0));
                    assert(decreases_to!(items => items@));
                    assert(decreases_to!(items@ => items@[i as int]));
                    out.push(items[i].copy());
                }
                proof {
                    lemma_view_seq(*items, *tuple);
                    lemma_view_seq(out, *tuple);
                    assert(py_models(out@) =~= py_models(items@));
                }
                Py::Items(out, *tuple)
            },
        }
    }
}

// ---------------------------------------------------------------------------
// Grammar of the header dict
// ---------------------------------------------------------------------------

pub open spec fn at_byte(msg: Seq<char>, pos: int) -> Seq<char> {
    msg + " (at header byte "@ + dec(pos as nat) + ")"@
}

/// The bytes of the rest of a string literal from `pos` on, after the bytes
/// `acc`. Only the two quotes and the backslash can be escaped; other escapes
/// are passed through verbatim (dtype descrs never need them).
pub open spec fn py_bytes_from(b: Seq<u8>, pos: int, quote: u8, acc: Seq<u8>) -> Result<
    (Seq<u8>, int),
    Seq<char>,
>
    decreases b.len() - pos,
{
    if !(0 <= pos < b.len()) {
        Err(at_byte("unterminated string"@, pos))
    } else if b[pos] == quote {
        Ok((acc, pos + 1))
    } else if b[pos] == BACKSLASH {
        if pos + 1 >= b.len() {
            Err(at_byte("unterminated escape"@, pos + 1))
        } else {
            let c = b[pos + 1];
            py_bytes_from(
                b,
                pos + 2,
                quote,
                if c == BACKSLASH || c == APOSTROPHE || c == QUOTE {
                    acc.push(c)
                } else {
                    acc.push(BACKSLASH).push(c)
                },
            )
        }
    } else {
        py_bytes_from(b, pos + 1, quote, acc.push(b[pos]))
    }
}

/// An ASCII byte of a text stands between two characters.
pub proof fn lemma_ascii_boundary(x: Seq<u8>, c: u8, y: Seq<u8>)
    requires
        valid_utf8(x.push(c) + y),
        c <= 0x7f,
    ensures
        valid_utf8(x),
        valid_utf8(y),
        valid_utf8(x + y),
{
    let w = x.push(c) + y;
    let n = x.len() as int;
    assert(w[n] == c);
    is_char_boundary_iff_not_is_continuation_byte(w, n);
    valid_utf8_split(w, n);
    assert(w.subrange(0, n) =~= x);
    let rest = w.subrange(n, w.len() as int);
    assert(rest =~= seq![c] + y);
    assert(rest[0] == c);
    assert(valid_utf8(y)) by {
        assert(pop_first_scalar(rest) =~= y);
    }
    valid_utf8_concat(x, y);
}

/// In a dict that is text, the bytes of a literal are text too.
pub proof fn lemma_py_bytes_valid(b: Seq<u8>, pos: int, quote: u8, acc: Seq<u8>)
    requires
        0 <= pos <= b.len(),
        quote <= 0x7f,
        valid_utf8(acc + b.skip(pos)),
    ensures
        py_bytes_from(b, pos, quote, acc) matches Ok((raw, _)) ==> valid_utf8(raw),
    decreases b.len() - pos,
{
    if pos < b.len() {
        let c = b[pos];
        let rest = b.skip(pos + 1);
        assert(acc + b.skip(pos) =~= acc.push(c) + rest);
        if c == quote {
            lemma_ascii_boundary(acc, c, rest);
        } else if c == BACKSLASH {
            if pos + 1 < b.len() {
                let d = b[pos + 1];
                let after = b.skip(pos + 2);
                assert(rest =~= seq![d] + after);
                if d == BACKSLASH || d == APOSTROPHE || d == QUOTE {
                    lemma_ascii_boundary(acc, c, rest);
                    assert(acc + rest =~= acc.push(d) + after);
                    lemma_py_bytes_valid(b, pos + 2, quote, acc.push(d));
                } else {
                    assert(acc.push(c) + rest =~= acc.push(BACKSLASH).push(d) + after);
                    lemma_py_bytes_valid(b, pos + 2, quote, acc.push(BACKSLASH).push(d));
                }
            }
        } else {
            lemma_py_bytes_valid(b, pos + 1, quote, acc.push(c));
        }
    }
}

/// In a dict that is text, every literal is text.
pub proof fn lemma_literal_valid(b: Seq<u8>, pos: int)
    requires
        valid_utf8(b),
        0 <= pos < b.len(),
        b[pos] <= 0x7f,
    ensures
        py_bytes_from(b, pos + 1, b[pos], seq![]) matches Ok((raw, _)) ==> valid_utf8(raw),
{
    let rest = b.skip(pos + 1);
    assert(b =~= b.take(pos).push(b[pos]) + rest);
    lemma_ascii_boundary(b.take(pos), b[pos], rest);
    assert(seq![] + rest =~= rest);
    lemma_py_bytes_valid(b, pos + 1, b[pos], seq![]);
}

/// An integer literal: an optional minus sign and digits.
pub open spec fn py_int_at(b: Seq<u8>, pos: int) -> Result<(PyModel, int), Seq<char>> {
    let first = if byte_is(b, pos, MINUS) {
        pos + 1
    } else {
        pos
    };
    let end = digits_end(b, first);
    let m = digit_bytes_value(b.subrange(first, end)) as int;
    let n = if first > pos {
        -m
    } else {
        m
    };
    if end == first || !(i64::MIN <= n <= i64::MAX) {
        Err(at_byte("invalid integer"@, end))
    } else {
        Ok((PyModel::Int(n), end))
    }
}

pub open spec fn true_literal() -> Seq<u8> {
    seq![0x54u8, 0x72, 0x75, 0x65]
}

pub open spec fn false_literal() -> Seq<u8> {
    seq![0x46u8, 0x61, 0x6c, 0x73, 0x65]
}

/// The value at `pos`, white space before it skipped, and where it ends.
pub open spec fn py_value_at(b: Seq<u8>, pos: int) -> Result<(PyModel, int), Seq<char>>
    decreases b.len() - pos, 1int,
{
    let p = skip_ws(b, pos);
    proof {
        lemma_skip_ws(b, pos);
    }
    if !(0 <= p < b.len()) {
        Err(at_byte("unsupported literal in header dict"@, p))
    } else if b[p] == APOSTROPHE || b[p] == QUOTE {
        match py_bytes_from(b, p + 1, b[p], seq![]) {
            Ok((raw, end)) => Ok((PyModel::Str(decode_utf8(raw)), end)),
            Err(e) => Err(e),
        }
    } else if b[p] == LPAREN {
        py_items_from(b, p + 1, RPAREN, true, seq![])
    } else if b[p] == LBRACKET {
        py_items_from(b, p + 1, RBRACKET, false, seq![])
    } else if starts_with(b.skip(p), true_literal()) {
        Ok((PyModel::Bool(true), p + 4))
    } else if starts_with(b.skip(p), false_literal()) {
        Ok((PyModel::Bool(false), p + 5))
    } else if is_digit_byte(b[p]) || b[p] == MINUS {
        py_int_at(b, p)
    } else {
        Err(at_byte("unsupported literal in header dict"@, p))
    }
}

/// The items of a tuple or list from `pos` on, after the items `acc`. The
/// scan stops if it ever failed to move forward, which no input makes it do.
pub open spec fn py_items_from(b: Seq<u8>, pos: int, close: u8, tuple: bool, acc: Seq<PyModel>) -> Result<
    (PyModel, int),
    Seq<char>,
>
    decreases b.len() - pos, 2int,
{
    let p = skip_ws(b, pos);
    proof {
        lemma_skip_ws(b, pos);
    }
    if byte_is(b, p, close) {
        Ok((PyModel::Items(acc, tuple), p + 1))
    } else {
        match py_value_at(b, p) {
            Err(e) => Err(e),
            Ok((v, end)) => {
                let next = skip_ws(b, end);
                if byte_is(b, next, COMMA) && next >= pos {
                    py_items_from(b, next + 1, close, tuple, acc.push(v))
                } else if byte_is(b, next, close) {
                    Ok((PyModel::Items(acc.push(v), tuple), next + 1))
                } else {
                    Err(at_byte("expected ',' or a closing bracket"@, next))
                }
            },
        }
    }
}

/// The entries of the header dict from `pos` on, after the entries `acc`.
pub open spec fn pairs_from(b: Seq<u8>, pos: int, acc: Seq<(Seq<char>, PyModel)>) -> Result<
    Seq<(Seq<char>, PyModel)>,
    Seq<char>,
>
    decreases b.len() - pos,
{
    let k = skip_ws(b, pos);
    if byte_is(b, k, RBRACE) {
        Ok(acc)
    } else {
        match py_value_at(b, k) {
            Err(e) => Err(e),
            Ok((PyModel::Str(key), key_end)) => {
                let colon = skip_ws(b, key_end);
                if !byte_is(b, colon, COLON) {
                    Err(at_byte("expected ':' in header dict"@, colon))
                } else {
                    let start = skip_ws(b, colon + 1);
                    match py_value_at(b, start) {
                        Err(e) => Err(e),
                        Ok((v, end)) => {
                            let next = skip_ws(b, end);
                            if byte_is(b, next, COMMA) {
                                proof {
                                    if 0 <= pos {
                                        lemma_skip_ws(b, pos);
                                        lemma_py_value_progress(b, k);
                                        lemma_skip_ws(b, key_end);
                                        lemma_skip_ws(b, colon + 1);
                                        lemma_py_value_progress(b, start);
                                        lemma_skip_ws(b, end);
                                    }
                                }
                                pairs_from(b, next + 1, acc.push((key, v)))
                            } else if byte_is(b, next, RBRACE) {
                                Ok(acc.push((key, v)))
                            } else {
                                Err(at_byte("expected ',' or '}' in header dict"@, next))
                            }
                        },
                    }
                }
            },
            Ok((_, end)) => Err(at_byte("dict key is not a string"@, end)),
        }
    }
}

/// A top-level dict with string keys; trailing padding is ignored.
pub open spec fn dict_of(b: Seq<u8>) -> Result<Seq<(Seq<char>, PyModel)>, Seq<char>> {
    let p = skip_ws(b, 0);
    if !byte_is(b, p, LBRACE) {
        Err(at_byte("npy header does not start with '{'"@, p))
    } else {
        pairs_from(b, p + 1, seq![])
    }
}

proof fn lemma_py_bytes_progress(b: Seq<u8>, pos: int, quote: u8, acc: Seq<u8>)
    requires
        0 <= pos,
    ensures
        py_bytes_from(b, pos, quote, acc) matches Ok((_, p)) ==> pos < p <= b.len(),
    decreases b.len() - pos,
{
    if pos < b.len() && b[pos] != quote {
        if b[pos] == BACKSLASH {
            if pos + 1 < b.len() {
                let c = b[pos + 1];
                lemma_py_bytes_progress(
                    b,
                    pos + 2,
                    quote,
                    if c == BACKSLASH || c == APOSTROPHE || c == QUOTE {
                        acc.push(c)
                    } else {
                        acc.push(BACKSLASH).push(c)
                    },
                );
            }
        } else {
            lemma_py_bytes_progress(b, pos + 1, quote, acc.push(b[pos]));
        }
    }
}

/// A value ends after it starts and inside the input.
pub proof fn lemma_py_value_progress(b: Seq<u8>, pos: int)
    requires
        0 <= pos,
    ensures
        py_value_at(b, pos) matches Ok((_, p)) ==> pos < p <= b.len(),
    decreases b.len() - pos, 1int,
{
    let p = skip_ws(b, pos);
    lemma_skip_ws(b, pos);
    if p < b.len() {
        if b[p] == APOSTROPHE || b[p] == QUOTE {
            lemma_py_bytes_progress(b, p + 1, b[p], seq![]);
        } else if b[p] == LPAREN {
            lemma_py_items_progress(b, p + 1, RPAREN, true, seq![]);
        } else if b[p] == LBRACKET {
            lemma_py_items_progress(b, p + 1, RBRACKET, false, seq![]);
        } else {
            let first = if byte_is(b, p, MINUS) {
                p + 1
            } else {
                p
            };
            lemma_digits_end(b, first);
        }
    }
}

proof fn lemma_py_items_progress(
    b: Seq<u8>,
    pos: int,
    close: u8,
    tuple: bool,
    acc: Seq<PyModel>,
)
    requires
        0 <= pos,
    ensures
        py_items_from(b, pos, close, tuple, acc) matches Ok((_, p)) ==> pos < p <= b.len(),
    decreases b.len() - pos, 2int,
{
    let p = skip_ws(b, pos);
    lemma_skip_ws(b, pos);
    if !byte_is(b, p, close) {
        lemma_py_value_progress(b, p);
        if let Ok((v, end)) = py_value_at(b, p) {
            lemma_skip_ws(b, end);
            let next = skip_ws(b, end);
            if byte_is(b, next, COMMA) {
                lemma_py_items_progress(b, next + 1, close, tuple, acc.push(v));
            }
        }
    }
}

// ---------------------------------------------------------------------------
// descr interpretation
// ---------------------------------------------------------------------------

/// The dtype name for a kind character and a size.
pub open spec fn dtype_of(kind: char, size: nat) -> Option<Seq<char>> {
    if kind == 'f' && size == 2 {
        Some("f16"@)
    } else if kind == 'f' && size == 4 {
        Some("f32"@)
    } else if kind == 'f' && size == 8 {
        Some("f64"@)
    } else if kind == 'f' && size == 16 {
        Some("f128"@)
    } else if kind == 'i' && size == 1 {
        Some("i8"@)
    } else if kind == 'i' && size == 2 {
        Some("i16"@)
    } else if kind == 'i' && size == 4 {
        Some("i32"@)
    } else if kind == 'i' && size == 8 {
        Some("i64"@)
    } else if kind == 'u' && size == 1 {
        Some("u8"@)
    } else if kind == 'u' && size == 2 {
        Some("u16"@)
    } else if kind == 'u' && size == 4 {
        Some("u32"@)
    } else if kind == 'u' && size == 8 {
        Some("u64"@)
    } else if kind == 'b' && size == 1 {
        Some("bool"@)
    } else if kind == 'c' && size == 8 {
        Some("complex64"@)
    } else if kind == 'c' && size == 16 {
        Some("complex128"@)
    } else if kind == 'c' && size == 32 {
        Some("complex256"@)
    } else if kind == 'm' && size == 8 {
        Some("timedelta64"@)
    } else if kind == 'M' && size == 8 {
        Some("datetime64"@)
    } else if kind == 'S' || kind == 'a' {
        Some("bytes"@ + dec(size))
    } else if kind == 'U' {
        Some("str"@ + dec(size))
    } else if kind == 'V' {
        Some("void"@ + dec(size))
    } else {
        None
    }
}

/// The byte order a leading character stands for, if it stands for one.
pub open spec fn order_of(c: char) -> Option<Seq<char>> {
    if c == '<' {
        Some("little"@)
    } else if c == '>' {
        Some("big"@)
    } else if c == '=' {
        Some("native"@)
    } else if c == '|' {
        Some("none"@)
    } else {
        None
    }
}

/// Where the first `[` at or after `from` stands, or the end.
pub open spec fn bracket_from(s: Seq<char>, from: int) -> int
    decreases s.len() - from,
{
    if !(0 <= from < s.len()) || s[from] == '[' {
        from
    } else {
        bracket_from(s, from + 1)
    }
}

/// A simple descr string like `<f4`, `>i8`, `|b1`, `<U16`, `<M8[ns]`: the
/// dtype, the bytes per element and the byte order. `U` stores UCS-4, four
/// bytes per character; datetimes carry a unit suffix in brackets.
pub open spec fn descr_of(s: Seq<char>) -> Option<(Seq<char>, nat, Seq<char>)> {
    let from: int = if s.len() > 0 && order_of(s[0]) is Some {
        1
    } else {
        0
    };
    let order = if from == 1 {
        order_of(s[0])->0
    } else {
        "native"@
    };
    if from >= s.len() {
        None
    } else {
        let kind = s[from];
        match read_unsigned(
            s.subrange(from + 1, bracket_from(s, from + 1)),
            u64::MAX as nat,
        ) {
            None => None,
            Some(size) => match dtype_of(kind, size) {
                None => None,
                Some(dtype) => {
                    let itemsize = if kind == 'U' {
                        size * 4
                    } else {
                        size
                    };
                    if itemsize > u64::MAX {
                        None
                    } else {
                        Some(
                            (
                                dtype,
                                itemsize,
                                if itemsize <= 1 {
                                    "none"@
                                } else {
                                    order
                                },
                            ),
                        )
                    }
                },
            },
        }
    }
}

/// The number of elements of a subarray, unless it exceeds `u64`.
pub open spec fn repeat_of(dims: Seq<PyModel>) -> Option<nat>
    decreases dims.len(),
{
    if dims.len() == 0 {
        Some(1)
    } else {
        match (repeat_of(dims.drop_last()), dims.last()) {
            (Some(r), PyModel::Int(n)) => if n >= 0 && r * n <= u64::MAX {
                Some((r * n) as nat)
            } else {
                None
            },
            _ => None,
        }
    }
}

/// How often a field's element repeats, by the optional third part.
pub open spec fn field_repeat(parts: Seq<PyModel>) -> Option<nat> {
    if parts.len() < 3 {
        Some(1)
    } else {
        match parts[2] {
            PyModel::Int(n) => if n >= 0 {
                Some(n as nat)
            } else {
                None
            },
            PyModel::Items(dims, _) => repeat_of(dims),
            _ => None,
        }
    }
}

/// Bytes the field `v` takes: name, type, and an optional subarray shape.
pub open spec fn field_size(v: PyModel) -> Option<nat>
    decreases v, 0int, 0nat,
{
    match v {
        PyModel::Items(parts, _) => if parts.len() < 2 || parts.len() > 3 {
            None
        } else {
            let elem = match parts[1] {
                PyModel::Str(s) => match descr_of(s) {
                    Some((_, size, _)) => Some(size),
                    None => None,
                },
                PyModel::Items(fields, _) => fields_size(parts[1], fields.len()),
                _ => None,
            };
            match (elem, field_repeat(parts)) {
                (Some(size), Some(n)) => if size * n <= u64::MAX {
                    Some(size * n)
                } else {
                    None
                },
                _ => None,
            }
        },
        _ => None,
    }
}

/// Bytes the first `n` fields of the structured descr `v` take, unless that
/// exceeds `u64`.
pub open spec fn fields_size(v: PyModel, n: nat) -> Option<nat>
    decreases v, 1int, n,
{
    match v {
        PyModel::Items(fields, _) => if n == 0 {
            Some(0)
        } else if n > fields.len() {
            None
        } else {
            match (fields_size(v, (n - 1) as nat), field_size(fields[n - 1])) {
                (Some(total), Some(size)) => if total + size <= u64::MAX {
                    Some(total + size)
                } else {
                    None
                },
                _ => None,
            }
        },
        _ => None,
    }
}

/// What a descr means: dtype name, bytes per element, byte order, and the
/// problem it gives rise to.
pub open spec fn meaning_of(descr: PyModel) -> (
    Seq<char>,
    Option<nat>,
    Seq<char>,
    Seq<Seq<char>>,
) {
    match descr {
        PyModel::Str(s) => match descr_of(s) {
            Some((dtype, size, order)) => (dtype, Some(size), order, seq![]),
            None => (s, None, "none"@, seq!["unknown dtype descr '"@ + s + "'"@]),
        },
        PyModel::Items(fields, _) => match fields_size(descr, fields.len()) {
            Some(size) => ("struct"@, Some(size), "none"@, seq![]),
            None => (
                "struct"@,
                None,
                "none"@,
                seq!["structured descr could not be fully interpreted"@],
            ),
        },
        _ => (
            "unknown"@,
            None,
            "none"@,
            seq!["descr is neither a string nor a field list"@],
        ),
    }
}

/// A literal as JSON.
pub open spec fn py_doc(v: PyModel) -> Doc
    decreases v,
{
    match v {
        PyModel::Str(s) => Doc::Str(s),
        PyModel::Bool(b) => Doc::Bool(b),
        PyModel::Int(n) => Doc::Int(n),
        PyModel::Items(items, _) => Doc::Arr(
            Seq::new(
                items.len(),
                |i: int|
                    if 0 <= i < items.len() {
                        py_doc(items[i])
                    } else {
                        Doc::Null
                    },
            ),
        ),
    }
}

// ---------------------------------------------------------------------------
// The header
// ---------------------------------------------------------------------------

/// What has been gathered from the entries of the header dict.
#[verifier::ext_equal]
pub struct Entries {
    pub descr: Option<PyModel>,
    pub fortran_order: Option<bool>,
    pub shape: Option<PyModel>,
    pub problems: Seq<Seq<char>>,
}

pub open spec fn entry_step(e: Entries, key: Seq<char>, v: PyModel) -> Result<Entries, Seq<char>> {
    if key == "descr"@ {
        Ok(Entries { descr: Some(v), ..e })
    } else if key == "fortran_order"@ {
        match v {
            PyModel::Bool(b) => Ok(Entries { fortran_order: Some(b), ..e }),
            _ => Err("fortran_order is not a boolean"@),
        }
    } else if key == "shape"@ {
        Ok(Entries { shape: Some(v), ..e })
    } else {
        Ok(
            Entries {
                problems: e.problems.push("unexpected npy header key '"@ + key + "'"@),
                ..e
            },
        )
    }
}

pub open spec fn no_entries() -> Entries {
    Entries { descr: None, fortran_order: None, shape: None, problems: seq![] }
}

/// The dict entries in order, from `i` on.
pub open spec fn entries_from(pairs: Seq<(Seq<char>, PyModel)>, i: int, e: Entries) -> Result<
    Entries,
    Seq<char>,
>
    decreases pairs.len() - i,
{
    if !(0 <= i < pairs.len()) {
        Ok(e)
    } else {
        match entry_step(e, pairs[i].0, pairs[i].1) {
            Err(msg) => Err(msg),
            Ok(next) => entries_from(pairs, i + 1, next),
        }
    }
}

/// The dimensions, when every one is a non-negative integer.
pub open spec fn dims_of(items: Seq<PyModel>) -> Option<Seq<u64>>
    decreases items.len(),
{
    if items.len() == 0 {
        Some(seq![])
    } else {
        match (dims_of(items.drop_last()), items.last()) {
            (Some(shape), PyModel::Int(n)) => if n >= 0 {
                Some(shape.push(n as u64))
            } else {
                None
            },
            _ => None,
        }
    }
}

/// The mathematical value of an [`NpyHeader`].
#[verifier::ext_equal]
pub struct NpyModel {
    pub version: (u8, u8),
    pub header_total: nat,
    pub descr: Doc,
    pub dtype: Seq<char>,
    pub itemsize: Option<nat>,
    pub byte_order: Seq<char>,
    pub fortran_order: bool,
    pub shape: Seq<u64>,
    pub problems: Seq<Seq<char>>,
}

/// The header made of the entries of its dict.
pub open spec fn header_of(version: (u8, u8), total: nat, e: Entries) -> Result<
    NpyModel,
    Seq<char>,
> {
    match (e.descr, e.fortran_order, e.shape) {
        (None, _, _) => Err("npy header is missing 'descr'"@),
        (Some(_), None, _) => Err("npy header is missing 'fortran_order'"@),
        (Some(_), Some(_), None) => Err("npy header is missing 'shape'"@),
        (Some(descr), Some(fortran), Some(PyModel::Items(dims, _))) => match dims_of(dims) {
            None => Err("npy shape contains a non-integer dimension"@),
            Some(shape) => {
                let (dtype, itemsize, order, probs) = meaning_of(descr);
                Ok(
                    NpyModel {
                        version,
                        header_total: total,
                        descr: py_doc(descr),
                        dtype,
                        itemsize,
                        byte_order: order,
                        fortran_order: fortran,
                        shape,
                        problems: e.problems + probs,
                    },
                )
            },
        },
        _ => Err("npy shape is not a tuple"@),
    }
}

/// The header that the bytes `b` start with; `b` must contain it whole.
pub open spec fn header_model(b: Seq<u8>) -> Result<NpyModel, Seq<char>> {
    if b.len() < 10 || b.take(6) != MAGIC@ {
        Err("not an npy file (bad magic)"@)
    } else if !(1 <= b[6] <= 3) {
        Err("unsupported npy format version "@ + dec(b[6] as nat) + "."@ + dec(b[7] as nat))
    } else if b[6] != 1 && b.len() < 12 {
        Err("file ends inside the npy header length"@)
    } else {
        let start: int = if b[6] == 1 {
            10
        } else {
            12
        };
        let n = le(b, 8, (start - 8) as nat) as int;
        if start + n > b.len() {
            Err(
                "declared header length "@ + dec(n as nat)
                    + " runs past the available bytes — truncated header"@,
            )
        } else if !valid_utf8(b.subrange(start, start + n)) {
            Err("npy header dict is not valid ASCII/UTF-8"@)
        } else {
            match dict_of(b.subrange(start, start + n)) {
                Err(e) => Err(e),
                Ok(pairs) => match entries_from(pairs, 0, no_entries()) {
                    Err(e) => Err(e),
                    Ok(e) => header_of((b[6], b[7]), (start + n) as nat, e),
                },
            }
        }
    }
}

/// Expected size of the data section, when the itemsize is known.
pub open spec fn data_size(shape: Seq<u64>, itemsize: Option<nat>) -> Option<nat> {
    match itemsize {
        None => None,
        Some(size) => if numel_of(shape) * size <= u64::MAX {
            Some(numel_of(shape) * size)
        } else {
            None
        },
    }
}

pub open spec fn sat_sub(a: nat, b: nat) -> nat {
    if a < b {
        0
    } else {
        (a - b) as nat
    }
}

/// The problems that the size of the file adds.
pub open spec fn size_problems(
    present: nat,
    expect: Option<nat>,
    probs: Seq<Seq<char>>,
) -> Seq<Seq<char>> {
    match expect {
        None => probs,
        Some(n) => if present < n {
            probs.push(
                "array data needs "@ + dec(n) + " bytes but only "@ + dec(present)
                    + " are present ("@ + dec((n - present) as nat)
                    + " missing) — truncated file"@,
            )
        } else if present > n {
            probs.push(
                dec((present - n) as nat) + " trailing byte"@ + (if present - n == 1 {
                    ""@
                } else {
                    "s"@
                }) + " after the array data"@,
            )
        } else {
            probs
        },
    }
}

/// The report on a file of `flen` bytes with the header `h`. The single array
/// in an npy file has no name; the report uses "".
pub open spec fn report_of(path: Seq<char>, flen: nat, h: NpyModel) -> ReportModel {
    let present = sat_sub(flen, h.header_total);
    let expect = data_size(h.shape, h.itemsize);
    let bytes = match expect {
        Some(n) => n,
        None => present,
    };
    ReportModel {
        header_bytes: h.header_total,
        data_bytes: bytes,
        details: Doc::Obj(
            seq![
                (
                    "version"@,
                    Doc::Str(dec(h.version.0 as nat) + "."@ + dec(h.version.1 as nat)),
                ),
                ("descr"@, h.descr),
                ("byte_order"@, Doc::Str(h.byte_order)),
                ("fortran_order"@, Doc::Bool(h.fortran_order)),
                (
                    "itemsize"@,
                    match h.itemsize {
                        Some(n) => Doc::Int(n as int),
                        None => Doc::Null,
                    },
                ),
            ],
        ),
        tensors: seq![tensor_model(""@, h.dtype, h.shape, 0, bytes)],
        problems: size_problems(present, expect, h.problems),
        ..empty_report(path, "npy"@, flen)
    }
}

/// The part of a file that can hold its header.
pub open spec fn prefix_of(b: Seq<u8>) -> Seq<u8> {
    if b.len() <= MAX_PREFIX {
        b
    } else {
        b.take(MAX_PREFIX as int)
    }
}

/// What a file of `flen` bytes whose first bytes are `b` contains.
pub open spec fn parse_model(b: Seq<u8>, flen: nat, path: Seq<char>) -> Result<
    ReportModel,
    Seq<char>,
> {
    match header_model(prefix_of(b)) {
        Err(e) => Err(e),
        Ok(h) => Ok(report_of(path, flen, h)),
    }
}

// ---------------------------------------------------------------------------
// Literal parser (dicts, strings, bools, ints, tuples, lists)
// ---------------------------------------------------------------------------

struct PyParser<'a> {
    b: &'a [u8],
    pos: usize,
}

/// What a parsing step returned, as values and positions.
pub open spec fn py_parsed(r: Result<Py, PeekError>, end: int) -> Result<
    (PyModel, int),
    Seq<char>,
> {
    match r {
        Ok(v) => Ok((v@, end)),
        Err(e) => Err(e.0@),
    }
}

impl<'a> PyParser<'a> {
    spec fn inv(&self) -> bool {
        self.pos <= self.b@.len() <= usize::MAX && valid_utf8(self.b@)
    }

    fn err(&self, msg: &str) -> (r: PeekError)
        ensures
            r.0@ == at_byte(msg@, self.pos as int),
    {
        let mut s: String = msg.to_owned();
        s.append(" (at header byte ");
        put_dec(&mut s, self.pos as u128);
        s.append(")");
        PeekError(s)
    }

    fn ws(&mut self)
        requires
            old(self).inv(),
        ensures
            final(self).inv(),
            final(self).b == old(self).b,
            final(self).pos == skip_ws(old(self).b@, old(self).pos as int),
            final(self).pos >= old(self).pos,
    {
        while self.pos < self.b.len()
            invariant
                self.inv(),
                self.b == old(self).b,
                self.pos >= old(self).pos,
                skip_ws(self.b@, self.pos as int) == skip_ws(old(self).b@, old(self).pos as int),
            decreases self.b@.len() - self.pos,
        {
            let c: u8 = self.b[self.pos];
            if !(c == SPACE || c == TAB || c == NEWLINE || c == RETURN) {
                return;
            }
            self.pos = self.pos + 1;
        }
    }

    fn eat(&mut self, c: u8) -> (r: bool)
        requires
            old(self).inv(),
        ensures
            final(self).inv(),
            final(self).b == old(self).b,
            r == byte_is(old(self).b@, old(self).pos as int, c),
            final(self).pos == old(self).pos + (if r { 1int } else { 0int }),
    {
        if self.pos < self.b.len() && self.b[self.pos] == c {
            self.pos = self.pos + 1;
            true
        } else {
            false
        }
    }

    fn value(&mut self) -> (r: Result<Py, PeekError>)
        requires
            old(self).inv(),
        ensures
            final(self).inv(),
            final(self).b == old(self).b,
            py_parsed(r, final(self).pos as int) == py_value_at(old(self).b@, old(self).pos as int),
            r is Ok ==> final(self).pos > old(self).pos,
        decreases old(self).b@.len() - old(self).pos, 1int,
    {
        let ghost b = self.b@;
        proof {
            lemma_py_value_progress(b, self.pos as int);
        }
        self.ws();
        if self.pos >= self.b.len() {
            return Err(self.err("unsupported literal in header dict"));
        }
        let c: u8 = self.b[self.pos];
        if c == APOSTROPHE || c == QUOTE {
            self.string()
        } else if c == LPAREN {
            self.pos = self.pos + 1;
            self.seq(RPAREN, true)
        } else if c == LBRACKET {
            self.pos = self.pos + 1;
            self.seq(RBRACKET, false)
        } else if self.at_literal(&[0x54, 0x72, 0x75, 0x65]) {
            assert(starts_with(b.skip(self.pos as int), true_literal()));
            self.pos = self.pos + 4;
            Ok(Py::Bool(true))
        } else if self.at_literal(&[0x46, 0x61, 0x6c, 0x73, 0x65]) {
            assert(starts_with(b.skip(self.pos as int), false_literal()));
            self.pos = self.pos + 5;
            Ok(Py::Bool(false))
        } else if (48 <= c && c <= 57) || c == MINUS {
            self.integer()
        } else {
            Err(self.err("unsupported literal in header dict"))
        }
    }

    fn at_literal(&self, lit: &[u8]) -> (r: bool)
        requires
            self.inv(),
        ensures
            r == starts_with(self.b@.skip(self.pos as int), lit@),
            r ==> self.pos + lit@.len() <= self.b@.len(),
            lit@.len() == 4 && lit@[0] == 0x54 && lit@[1] == 0x72 && lit@[2] == 0x75 && lit@[3]
                == 0x65 ==> lit@ == true_literal(),
            lit@.len() == 5 && lit@[0] == 0x46 && lit@[1] == 0x61 && lit@[2] == 0x6c && lit@[3]
                == 0x73 && lit@[4] == 0x65 ==> lit@ == false_literal(),
    {
        proof {
            if lit@.len() == 4 && lit@[0] == 0x54 && lit@[1] == 0x72 && lit@[2] == 0x75 && lit@[3]
                == 0x65 {
                assert(lit@ =~= true_literal());
            }
            if lit@.len() == 5 && lit@[0] == 0x46 && lit@[1] == 0x61 && lit@[2] == 0x6c && lit@[3]
                == 0x73 && lit@[4] == 0x65 {
                assert(lit@ =~= false_literal());
            }
            assert(self.b@.subrange(self.pos as int, self.b@.len() as int) =~= self.b@.skip(
                self.pos as int,
            ));
        }
        bytes_start_with(slice_subrange(self.b, self.pos, self.b.len()), lit)
    }

    fn string(&mut self) -> (r: Result<Py, PeekError>)
        requires
            old(self).inv(),
            old(self).pos < old(self).b@.len(),
            old(self).b@[old(self).pos as int] <= 0x7f,
        ensures
            final(self).inv(),
            final(self).b == old(self).b,
            match py_bytes_from(
                old(self).b@,
                old(self).pos + 1,
                old(self).b@[old(self).pos as int],
                seq![],
            ) {
                Ok((raw, end)) => r matches Ok(Py::Str(s)) && s@ == decode_utf8(raw)
                    && final(self).pos == end,
                Err(msg) => r matches Err(e) && e.0@ == msg,
            },
    {
        let quote: u8 = self.b[self.pos];
        proof {
            lemma_literal_valid(self.b@, self.pos as int);
        }
        self.pos = self.pos + 1;
        let mut raw: Vec<u8> = Vec::new();
        let ghost b = self.b@;
        assert(raw@ =~= seq![]);
        loop
            invariant
                self.inv(),
                self.b == old(self).b,
                b == self.b@,
                quote == b[old(self).pos as int],
                py_bytes_from(b, self.pos as int, quote, raw@) == py_bytes_from(
                    old(self).b@,
                    old(self).pos + 1,
                    quote,
                    seq![],
                ),
                py_bytes_from(old(self).b@, old(self).pos + 1, quote, seq![]) matches Ok(
                    (text, _),
                ) ==> valid_utf8(text),
            decreases b.len() - self.pos,
        {
            if self.pos >= self.b.len() {
                return Err(self.err("unterminated string"));
            }
            let c: u8 = self.b[self.pos];
            if c == quote {
                self.pos = self.pos + 1;
                return Ok(Py::Str(decoded(raw.as_slice())));
            }
            if c == BACKSLASH {
                self.pos = self.pos + 1;
                if self.pos >= self.b.len() {
                    return Err(self.err("unterminated escape"));
                }
                let d: u8 = self.b[self.pos];
                if !(d == BACKSLASH || d == APOSTROPHE || d == QUOTE) {
                    raw.push(BACKSLASH);
                }
                raw.push(d);
            } else {
                raw.push(c);
            }
            self.pos = self.pos + 1;
        }
    }

    /// The items after the opening bracket.
    fn seq(&mut self, close: u8, is_tuple: bool) -> (r: Result<Py, PeekError>)
        requires
            old(self).inv(),
        ensures
            final(self).inv(),
            final(self).b == old(self).b,
            py_parsed(r, final(self).pos as int) == py_items_from(
                old(self).b@,
                old(self).pos as int,
                close,
                is_tuple,
                seq![],
            ),
        decreases old(self).b@.len() - old(self).pos, 2int,
    {
        let ghost b = self.b@;
        let mut items: Vec<Py> = Vec::new();
        assert(py_models(items@) =~= seq![]);
        loop
            invariant
                self.inv(),
                self.b == old(self).b,
                b == self.b@,
                self.pos >= old(self).pos,
                py_items_from(b, self.pos as int, close, is_tuple, py_models(items@))
                    == py_items_from(
                    old(self).b@,
                    old(self).pos as int,
                    close,
                    is_tuple,
                    seq![],
                ),
            decreases b.len() - self.pos,
        {
            let ghost acc = py_models(items@);
            self.ws();
            if self.eat(close) {
                proof {
                    lemma_view_seq(items, is_tuple);
                }
                return Ok(Py::Items(items, is_tuple));
            }
            let v: Py = match self.value() {
                Ok(v) => v,
                Err(e) => {
                    return Err(e);
                },
            };
            items.push(v);
            assert(py_models(items@) =~= acc.push(v@));
            self.ws();
            if self.eat(COMMA) {
                continue ;
            }
            if self.eat(close) {
                proof {
                    lemma_view_seq(items, is_tuple);
                }
                return Ok(Py::Items(items, is_tuple));
            }
            return Err(self.err("expected ',' or a closing bracket"));
        }
    }

    fn integer(&mut self) -> (r: Result<Py, PeekError>)
        requires
            old(self).inv(),
        ensures
            final(self).inv(),
            final(self).b == old(self).b,
            py_parsed(r, final(self).pos as int) == py_int_at(old(self).b@, old(self).pos as int),
    {
        let ghost b = self.b@;
        let neg: bool = self.eat(MINUS);
        let first: usize = self.pos;
        while self.pos < self.b.len() && 48 <= self.b[self.pos] && self.b[self.pos] <= 57
            invariant
                self.inv(),
                self.b == old(self).b,
                b == self.b@,
                first <= self.pos,
                digits_end(b, self.pos as int) == digits_end(b, first as int),
                forall|k: int| first <= k < self.pos ==> is_digit_byte(#[trigger] b[k]),
            decreases b.len() - self.pos,
        {
            self.pos = self.pos + 1;
        }
        if self.pos == first {
            return Err(self.err("invalid integer"));
        }
        match exact_int(neg, slice_subrange(self.b, first, self.pos)) {
            Some(n) => if -0x8000_0000_0000_0000 <= n && n <= 0x7fff_ffff_ffff_ffff {
                Ok(Py::Int(n as i64))
            } else {
                Err(self.err("invalid integer"))
            },
            None => Err(self.err("invalid integer")),
        }
    }
}

/// Valid UTF-8 as text.
fn decoded(b: &[u8]) -> (r: String)
    requires
        valid_utf8(b@),
    ensures
        r@ == decode_utf8(b@),
{
    match utf8_text(b) {
        Some(s) => {
            proof {
                encode_utf8_decode_utf8(s@);
            }
            s.to_owned()
        },
        None => String::new(),
    }
}

/// Parse a top-level dict with string keys; trailing padding is ignored.
fn parse_dict(b: &[u8]) -> (r: Result<Vec<(String, Py)>, PeekError>)
    requires
        valid_utf8(b@),
    ensures
        dict_of(b@) == match r {
            Ok(pairs) => Ok::<Seq<(Seq<char>, PyModel)>, Seq<char>>(pairs_of(pairs@)),
            Err(e) => Err(e.0@),
        },
{
    let n: usize = b.len();
    let mut p = PyParser { b, pos: 0 };
    assert(p.inv() && n == b@.len());
    p.ws();
    if !p.eat(LBRACE) {
        return Err(p.err("npy header does not start with '{'"));
    }
    let mut pairs: Vec<(String, Py)> = Vec::new();
    assert(pairs_of(pairs@) =~= seq![]);
    loop
        invariant
            p.inv(),
            p.b == b,
            pairs_from(b@, p.pos as int, pairs_of(pairs@)) == dict_of(b@),
        decreases b@.len() - p.pos,
    {
        let ghost acc = pairs_of(pairs@);
        p.ws();
        if p.eat(RBRACE) {
            return Ok(pairs);
        }
        let key: String = match p.value() {
            Ok(Py::Str(s)) => s,
            Ok(_) => {
                return Err(p.err("dict key is not a string"));
            },
            Err(e) => {
                return Err(e);
            },
        };
        p.ws();
        if !p.eat(COLON) {
            return Err(p.err("expected ':' in header dict"));
        }
        p.ws();
        let v: Py = match p.value() {
            Ok(v) => v,
            Err(e) => {
                return Err(e);
            },
        };
        pairs.push((key, v));
        assert(pairs_of(pairs@) =~= acc.push((key@, v@)));
        p.ws();
        if p.eat(COMMA) {
            continue ;
        }
        if p.eat(RBRACE) {
            return Ok(pairs);
        }
        return Err(p.err("expected ',' or '}' in header dict"));
    }
}

fn py_to_json(v: &Py) -> (r: Json)
    ensures
        r@ == py_doc(v@),
    decreases v,
{
    match v {
        Py::Str(s) => Json::Str(s.clone()),
        Py::Bool(b) => Json::Bool(*b),
        Py::Int(n) => Json::Int(*n as i128),
        Py::Items(items, tuple) => {
            let mut out: Vec<Json> = Vec::new();
            for i in 0..items.len()
                invariant
                    v == Py::Items(*items, *tuple),
                    out@.len() == i,
                    forall|k: int| 0 <= k < i ==> (#[trigger] out@[k])@ == py_doc(items@[k]@),
            {
                assert(decreases_to!(v => v->Items_0));
                assert(decreases_to!(items => items@));
                assert(decreases_to!(items@ => items@[i as int]));
                out.push(py_to_json(&items[i]));
            }
            proof {
                lemma_view_seq(*items, *tuple);
                lemma_view_arr(out);
                assert(docs(out@) =~= py_doc(v@)->Arr_0);
            }
            Json::Arr(out)
        },
    }
}

// ---------------------------------------------------------------------------
// descr decoding
// ---------------------------------------------------------------------------

fn dtype_name(kind: char, size: u64) -> (r: Option<String>)
    ensures
        dtype_of(kind, size as nat) == match r {
            Some(s) => Some(s@),
            None => None,
        },
{
    if kind == 'f' && size == 2 {
        Some("f16".to_owned())
    } else if kind == 'f' && size == 4 {
        Some("f32".to_owned())
    } else if kind == 'f' && size == 8 {
        Some("f64".to_owned())
    } else if kind == 'f' && size == 16 {
        Some("f128".to_owned())
    } else if kind == 'i' && size == 1 {
        Some("i8".to_owned())
    } else if kind == 'i' && size == 2 {
        Some("i16".to_owned())
    } else if kind == 'i' && size == 4 {
        Some("i32".to_owned())
    } else if kind == 'i' && size == 8 {
        Some("i64".to_owned())
    } else if kind == 'u' && size == 1 {
        Some("u8".to_owned())
    } else if kind == 'u' && size == 2 {
        Some("u16".to_owned())
    } else if kind == 'u' && size == 4 {
        Some("u32".to_owned())
    } else if kind == 'u' && size == 8 {
        Some("u64".to_owned())
    } else if kind == 'b' && size == 1 {
        Some("bool".to_owned())
    } else if kind == 'c' && size == 8 {
        Some("complex64".to_owned())
    } else if kind == 'c' && size == 16 {
        Some("complex128".to_owned())
    } else if kind == 'c' && size == 32 {
        Some("complex256".to_owned())
    } else if kind == 'm' && size == 8 {
        Some("timedelta64".to_owned())
    } else if kind == 'M' && size == 8 {
        Some("datetime64".to_owned())
    } else if kind == 'S' || kind == 'a' {
        Some(sized("bytes", size))
    } else if kind == 'U' {
        Some(sized("str", size))
    } else if kind == 'V' {
        Some(sized("void", size))
    } else {
        None
    }
}

fn sized(base: &str, size: u64) -> (r: String)
    ensures
        r@ == base@ + dec(size as nat),
{
    let mut s: String = base.to_owned();
    put_dec(&mut s, size as u128);
    s
}

fn byte_order(c: char) -> (r: Option<&'static str>)
    ensures
        order_of(c) == match r {
            Some(s) => Some(s@),
            None => None,
        },
{
    if c == '<' {
        Some("little")
    } else if c == '>' {
        Some("big")
    } else if c == '=' {
        Some("native")
    } else if c == '|' {
        Some("none")
    } else {
        None
    }
}

/// Decode a simple descr string like `<f4`, `>i8`, `|b1`, `<U16`, `<M8[ns]`.
/// Shared with the fixture builder, which needs itemsizes to lay out data.
pub fn parse_descr_str(s: &str) -> (r: Option<(String, u64, &'static str)>)
    ensures
        descr_of(s@) == match r {
            Some((dtype, size, order)) => Some((dtype@, size as nat, order@)),
            None => None,
        },
{
    let v: Vec<char> = chars_of(s);
    let n: usize = v.len();
    if n == 0 {
        return None;
    }
    let mut from: usize = 0;
    let mut order: &'static str = "native";
    match byte_order(v[0]) {
        Some(o) => {
            from = 1;
            order = o;
        },
        None => {},
    }
    if from >= n {
        return None;
    }
    let kind: char = v[from];
    let mut end: usize = from + 1;
    while end < n && v[end] != '['
        invariant
            from < end <= n,
            n == v@.len(),
            v@ == s@,
            bracket_from(s@, end as int) == bracket_from(s@, from + 1),
        decreases n - end,
    {
        end = end + 1;
    }
    let size: u64 = match parse_unsigned(v.as_slice(), from + 1, end, u64::MAX) {
        Some(x) => x,
        None => {
            return None;
        },
    };
    let dtype: String = match dtype_name(kind, size) {
        Some(d) => d,
        None => {
            return None;
        },
    };
    let itemsize: u64 = if kind == 'U' {
        match size.checked_mul(4) {
            Some(x) => x,
            None => {
                return None;
            },
        }
    } else {
        size
    };
    Some(
        (
            dtype,
            itemsize,
            if itemsize <= 1 {
                "none"
            } else {
                order
            },
        ),
    )
}

fn subarray_len(dims: &Vec<Py>) -> (r: Option<u64>)
    ensures
        repeat_of(py_models(dims@)) == match r {
            Some(n) => Some(n as nat),
            None => None,
        },
{
    let ghost ms = py_models(dims@);
    let mut n: u64 = 1;
    let mut i: usize = 0;
    assert(ms.take(0) =~= seq![]);
    while i < dims.len()
        invariant
            i <= dims@.len(),
            ms == py_models(dims@),
            repeat_of(ms.take(i as int)) == Some(n as nat),
        decreases dims@.len() - i,
    {
        assert(ms.take(i + 1).drop_last() =~= ms.take(i as int));
        let mut next: Option<u64> = None;
        match &dims[i] {
            Py::Int(d) => {
                if *d >= 0 {
                    next = n.checked_mul(*d as u64);
                }
            },
            _ => {},
        }
        match next {
            Some(m) => {
                n = m;
            },
            None => {
                proof {
                    lemma_repeat_prefix(ms, i + 1);
                }
                return None;
            },
        }
        i = i + 1;
    }
    assert(ms.take(i as int) =~= ms);
    Some(n)
}

proof fn lemma_repeat_prefix(ms: Seq<PyModel>, n: int)
    requires
        0 <= n <= ms.len(),
        repeat_of(ms.take(n)) is None,
    ensures
        repeat_of(ms) is None,
    decreases ms.len() - n,
{
    if n < ms.len() {
        assert(ms.take(n + 1).drop_last() =~= ms.take(n));
        lemma_repeat_prefix(ms, n + 1);
    } else {
        assert(ms.take(n) =~= ms);
    }
}

fn repeat_count(parts: &Vec<Py>) -> (r: Option<u64>)
    ensures
        field_repeat(py_models(parts@)) == match r {
            Some(n) => Some(n as nat),
            None => None,
        },
{
    if parts.len() < 3 {
        return Some(1);
    }
    match &parts[2] {
        Py::Int(n) => if *n >= 0 {
            Some(*n as u64)
        } else {
            None
        },
        Py::Items(dims, tuple) => {
            proof {
                lemma_view_seq(*dims, *tuple);
            }
            subarray_len(dims)
        },
        _ => None,
    }
}

/// Itemsize of one field of a structured descr.
fn field_itemsize(field: &Py) -> (r: Option<u64>)
    ensures
        field_size(field@) == match r {
            Some(n) => Some(n as nat),
            None => None,
        },
    decreases field, 0int,
{
    match field {
        Py::Items(parts, tuple) => {
            proof {
                lemma_view_seq(*parts, *tuple);
            }
            if parts.len() < 2 || parts.len() > 3 {
                return None;
            }
            // parts[0] is the name (or a (title, name) tuple) — size-irrelevant.
            let elem: u64 = match &parts[1] {
                Py::Str(s) => match parse_descr_str(s.as_str()) {
                    Some((_, size, _)) => size,
                    None => {
                        return None;
                    },
                },
                Py::Items(_, _) => {
                    assert(decreases_to!(field => field->Items_0));
                    assert(decreases_to!(parts => parts@));
                    assert(decreases_to!(parts@ => parts@[1]));
                    match struct_itemsize(&parts[1]) {
                        Some(size) => size,
                        None => {
                            return None;
                        },
                    }
                },
                _ => {
                    return None;
                },
            };
            match repeat_count(parts) {
                Some(n) => elem.checked_mul(n),
                None => None,
            }
        },
        _ => None,
    }
}

/// Itemsize of a structured descr: sum over fields of itemsize × subshape.
fn struct_itemsize(descr: &Py) -> (r: Option<u64>)
    requires
        descr is Items,
    ensures
        fields_size(descr@, descr@->Items_0.len()) == match r {
            Some(n) => Some(n as nat),
            None => None,
        },
    decreases descr, 1int,
{
    match descr {
        Py::Items(fields, tuple) => {
            proof {
                lemma_view_seq(*fields, *tuple);
            }
            let mut total: u64 = 0;
            let mut i: usize = 0;
            while i < fields.len()
                invariant
                    i <= fields@.len(),
                    descr == Py::Items(*fields, *tuple),
                    descr@ == PyModel::Items(py_models(fields@), *tuple),
                    fields_size(descr@, i as nat) == Some(total as nat),
                decreases fields@.len() - i,
            {
                assert(decreases_to!(descr => descr->Items_0));
                assert(decreases_to!(fields => fields@));
                assert(decreases_to!(fields@ => fields@[i as int]));
                let next: Option<u64> = match field_itemsize(&fields[i]) {
                    Some(size) => total.checked_add(size),
                    None => None,
                };
                match next {
                    Some(t) => {
                        total = t;
                    },
                    None => {
                        proof {
                            lemma_fields_prefix(descr@, (i + 1) as nat);
                        }
                        return None;
                    },
                }
                i = i + 1;
            }
            Some(total)
        },
        _ => None,
    }
}

proof fn lemma_fields_prefix(v: PyModel, n: nat)
    requires
        v is Items,
        n <= v->Items_0.len(),
        fields_size(v, n) is None,
    ensures
        fields_size(v, v->Items_0.len()) is None,
    decreases v->Items_0.len() - n,
{
    if n < v->Items_0.len() {
        lemma_fields_prefix(v, n + 1);
    }
}

fn interpret_descr(descr: &Py, problems: &mut Vec<String>) -> (r: (
    String,
    Option<u64>,
    &'static str,
))
    ensures
        meaning_of(descr@) == (
            r.0@,
            match r.1 {
                Some(n) => Some(n as nat),
                None => None,
            },
            r.2@,
            texts(final(problems)@).skip(old(problems)@.len() as int),
        ),
        texts(final(problems)@) == texts(old(problems)@) + meaning_of(descr@).3,
{
    let ghost before = texts(problems@);
    let mut note: Option<String> = None;
    let r: (String, Option<u64>, &'static str) = match descr {
        Py::Str(s) => match parse_descr_str(s.as_str()) {
            Some((dtype, itemsize, order)) => (dtype, Some(itemsize), order),
            None => {
                let mut m: String = "unknown dtype descr '".to_owned();
                m.append(s.as_str());
                m.append("'");
                note = Some(m);
                (s.clone(), None, "none")
            },
        },
        Py::Items(fields, tuple) => {
            proof {
                lemma_view_seq(*fields, *tuple);
            }
            match struct_itemsize(descr) {
                Some(size) => ("struct".to_owned(), Some(size), "none"),
                None => {
                    note = Some("structured descr could not be fully interpreted".to_owned());
                    ("struct".to_owned(), None, "none")
                },
            }
        },
        _ => {
            note = Some("descr is neither a string nor a field list".to_owned());
            ("unknown".to_owned(), None, "none")
        },
    };
    match note {
        Some(m) => {
            put_text(problems, m);
            assert(before.push(m@) =~= before + seq![m@]);
            assert(before.push(m@).skip(before.len() as int) =~= seq![m@]);
        },
        None => {
            assert(before =~= before + seq![]);
            assert(before.skip(before.len() as int) =~= seq![]);
        },
    }
    r
}

// ---------------------------------------------------------------------------
// Header and file
// ---------------------------------------------------------------------------

/// Everything found in one npy header. Shared with the npz parser, which
/// extracts the same header from each archive member.
#[derive(Debug)]
pub struct NpyHeader {
    /// Format version, e.g. (1, 0).
    pub version: (u8, u8),
    /// Total bytes from the magic through the end of the padded dict —
    /// i.e. the offset where array data begins.
    pub header_total: u64,
    /// The raw `descr` value rendered as JSON (a string, or nested arrays
    /// for structured dtypes).
    pub descr: Json,
    /// Canonical dtype name (`f32`, `i64`, `struct`, …).
    pub dtype: String,
    /// Bytes per element, when the descr is understood.
    pub itemsize: Option<u64>,
    /// `little`, `big`, `native` or `none` (for single-byte types).
    pub byte_order: &'static str,
    pub fortran_order: bool,
    pub shape: Vec<u64>,
    pub problems: Vec<String>,
}

impl View for NpyHeader {
    type V = NpyModel;

    open spec fn view(&self) -> NpyModel {
        NpyModel {
            version: self.version,
            header_total: self.header_total as nat,
            descr: self.descr@,
            dtype: self.dtype@,
            itemsize: match self.itemsize {
                Some(n) => Some(n as nat),
                None => None,
            },
            byte_order: self.byte_order@,
            fortran_order: self.fortran_order,
            shape: self.shape@,
            problems: texts(self.problems@),
        }
    }
}

impl NpyHeader {
    pub fn numel(&self) -> (r: u128)
        ensures
            r == numel_of(self@.shape),
    {
        saturating_product(self.shape.as_slice())
    }

    /// Expected size of the data section, when the itemsize is known.
    pub fn data_bytes(&self) -> (r: Option<u64>)
        ensures
            data_size(self@.shape, self@.itemsize) == match r {
                Some(n) => Some(n as nat),
                None => None,
            },
    {
        match self.itemsize {
            None => None,
            Some(size) => match self.numel().checked_mul(size as u128) {
                Some(n) => if n <= 0xffff_ffff_ffff_ffff {
                    Some(n as u64)
                } else {
                    None
                },
                None => None,
            },
        }
    }
}

fn read_dims(dims: &Vec<Py>) -> (r: Option<Vec<u64>>)
    ensures
        dims_of(py_models(dims@)) == match r {
            Some(shape) => Some(shape@),
            None => None,
        },
{
    let ghost ms = py_models(dims@);
    let mut shape: Vec<u64> = Vec::new();
    let mut i: usize = 0;
    assert(ms.take(0) =~= seq![]);
    while i < dims.len()
        invariant
            i <= dims@.len(),
            ms == py_models(dims@),
            dims_of(ms.take(i as int)) == Some(shape@),
        decreases dims@.len() - i,
    {
        assert(ms.take(i + 1).drop_last() =~= ms.take(i as int));
        let mut next: Option<u64> = None;
        match &dims[i] {
            Py::Int(d) => {
                if *d >= 0 {
                    next = Some(*d as u64);
                }
            },
            _ => {},
        }
        match next {
            Some(d) => shape.push(d),
            None => {
                proof {
                    lemma_dims_prefix(ms, i + 1);
                }
                return None;
            },
        }
        i = i + 1;
    }
    assert(ms.take(i as int) =~= ms);
    Some(shape)
}

proof fn lemma_dims_prefix(ms: Seq<PyModel>, n: int)
    requires
        0 <= n <= ms.len(),
        dims_of(ms.take(n)) is None,
    ensures
        dims_of(ms) is None,
    decreases ms.len() - n,
{
    if n < ms.len() {
        assert(ms.take(n + 1).drop_last() =~= ms.take(n));
        lemma_dims_prefix(ms, n + 1);
    } else {
        assert(ms.take(n) =~= ms);
    }
}

/// The header made of the entries of its dict.
fn header_from(version: (u8, u8), header_total: u64, pairs: &Vec<(String, Py)>) -> (r: Result<
    NpyHeader,
    PeekError,
>)
    ensures
        match entries_from(pairs_of(pairs@), 0, no_entries()) {
            Err(e) => r matches Err(x) && x.0@ == e,
            Ok(e) => header_of(version, header_total as nat, e) == match r {
                Ok(h) => Ok::<NpyModel, Seq<char>>(h@),
                Err(x) => Err(x.0@),
            },
        },
{
    let ghost ps = pairs_of(pairs@);
    let mut descr: Option<usize> = None;
    let mut fortran: Option<bool> = None;
    let mut shape: Option<usize> = None;
    let mut problems: Vec<String> = Vec::new();
    let ghost mut e = no_entries();
    let mut i: usize = 0;
    assert(texts(problems@) =~= seq![]);
    while i < pairs.len()
        invariant
            i <= pairs@.len(),
            ps == pairs_of(pairs@),
            entries_from(ps, i as int, e) == entries_from(ps, 0, no_entries()),
            e.problems == texts(problems@),
            e.fortran_order == fortran,
            match descr {
                Some(k) => k < pairs@.len() && e.descr == Some(pairs@[k as int].1@),
                None => e.descr is None,
            },
            match shape {
                Some(k) => k < pairs@.len() && e.shape == Some(pairs@[k as int].1@),
                None => e.shape is None,
            },
        decreases pairs@.len() - i,
    {
        let key: &str = pairs[i].0.as_str();
        let ghost step = entry_step(e, ps[i as int].0, ps[i as int].1);
        if same(key, "descr") {
            descr = Some(i);
        } else if same(key, "fortran_order") {
            match &pairs[i].1 {
                Py::Bool(x) => {
                    fortran = Some(*x);
                },
                _ => {
                    return Err(PeekError("fortran_order is not a boolean".to_owned()));
                },
            }
        } else if same(key, "shape") {
            shape = Some(i);
        } else {
            let mut s: String = "unexpected npy header key '".to_owned();
            s.append(key);
            s.append("'");
            put_text(&mut problems, s);
        }
        proof {
            e = step->Ok_0;
        }
        i = i + 1;
    }
    let descr_at: usize = match descr {
        Some(k) => k,
        None => {
            return Err(PeekError("npy header is missing 'descr'".to_owned()));
        },
    };
    let fortran_order: bool = match fortran {
        Some(b) => b,
        None => {
            return Err(PeekError("npy header is missing 'fortran_order'".to_owned()));
        },
    };
    let shape_at: usize = match shape {
        Some(k) => k,
        None => {
            return Err(PeekError("npy header is missing 'shape'".to_owned()));
        },
    };
    let shape: Vec<u64> = match &pairs[shape_at].1 {
        Py::Items(dims, tuple) => {
            proof {
                lemma_view_seq(*dims, *tuple);
            }
            match read_dims(dims) {
                Some(s) => s,
                None => {
                    return Err(PeekError("npy shape contains a non-integer dimension".to_owned()));
                },
            }
        },
        _ => {
            return Err(PeekError("npy shape is not a tuple".to_owned()));
        },
    };
    let descr: &Py = &pairs[descr_at].1;
    let (dtype, itemsize, byte_order) = interpret_descr(descr, &mut problems);
    Ok(
        NpyHeader {
            version,
            header_total,
            descr: py_to_json(descr),
            dtype,
            itemsize,
            byte_order,
            fortran_order,
            shape,
            problems,
        },
    )
}

/// Parse an npy header from a file prefix (must contain the whole header).
pub fn parse_header(b: &[u8]) -> (r: Result<NpyHeader, PeekError>)
    ensures
        header_model(b@) == match r {
            Ok(h) => Ok::<NpyModel, Seq<char>>(h@),
            Err(e) => Err(e.0@),
        },
{
    if b.len() < 10 {
        return Err(PeekError("not an npy file (bad magic)".to_owned()));
    }
    assert(b@.subrange(0, 6) =~= b@.take(6));
    if !same_bytes(slice_subrange(b, 0, 6), &MAGIC) {
        return Err(PeekError("not an npy file (bad magic)".to_owned()));
    }
    let version: (u8, u8) = (b[6], b[7]);
    if !(1 <= version.0 && version.0 <= 3) {
        let mut s: String = "unsupported npy format version ".to_owned();
        put_dec(&mut s, version.0 as u128);
        s.append(".");
        put_dec(&mut s, version.1 as u128);
        return Err(PeekError(s));
    }
    if version.0 != 1 && b.len() < 12 {
        return Err(PeekError("file ends inside the npy header length".to_owned()));
    }
    let start: usize = if version.0 == 1 {
        10
    } else {
        12
    };
    let header_len: u64 = if version.0 == 1 {
        u16le(b, 8) as u64
    } else {
        u32le(b, 8) as u64
    };
    if header_len > (b.len() - start) as u64 {
        let mut s: String = "declared header length ".to_owned();
        put_dec(&mut s, header_len as u128);
        s.append(" runs past the available bytes — truncated header");
        return Err(PeekError(s));
    }
    let dict: &[u8] = slice_subrange(b, start, start + header_len as usize);
    if utf8_text(dict).is_none() {
        return Err(PeekError("npy header dict is not valid ASCII/UTF-8".to_owned()));
    }
    let pairs: Vec<(String, Py)> = match parse_dict(dict) {
        Ok(p) => p,
        Err(e) => {
            return Err(e);
        },
    };
    header_from(version, start as u64 + header_len, &pairs)
}

fn note_size(present: u64, expect: Option<u64>, problems: &mut Vec<String>)
    ensures
        texts(final(problems)@) == size_problems(
            present as nat,
            match expect {
                Some(n) => Some(n as nat),
                None => None,
            },
            texts(old(problems)@),
        ),
{
    match expect {
        None => {},
        Some(n) => {
            if present < n {
                let mut s: String = "array data needs ".to_owned();
                put_dec(&mut s, n as u128);
                s.append(" bytes but only ");
                put_dec(&mut s, present as u128);
                s.append(" are present (");
                put_dec(&mut s, (n - present) as u128);
                s.append(" missing) — truncated file");
                put_text(problems, s);
            } else if present > n {
                let extra: u64 = present - n;
                let mut s: String = String::new();
                put_dec(&mut s, extra as u128);
                s.append(" trailing byte");
                if extra == 1 {
                    s.append("");
                } else {
                    s.append("s");
                }
                s.append(" after the array data");
                assert(s@ =~= dec(extra as nat) + " trailing byte"@ + (if extra == 1 {
                    ""@
                } else {
                    "s"@
                }) + " after the array data"@);
                put_text(problems, s);
            }
        },
    }
}

/// Parse an npy file. `data` holds it from its start, as much of it as is at
/// hand; no more than [`MAX_PREFIX`] bytes are looked at.
#[verifier::rlimit(50)]
pub fn parse(data: &[u8], file_len: u64, path: &str) -> (r: Result<Report, PeekError>)
    ensures
        parse_model(data@, file_len as nat, path@) == match r {
            Ok(report) => Ok::<ReportModel, Seq<char>>(report@),
            Err(e) => Err(e.0@),
        },
{
    let n: usize = if data.len() <= MAX_PREFIX {
        data.len()
    } else {
        MAX_PREFIX
    };
    assert(data@.subrange(0, n as int) =~= prefix_of(data@));
    let h: NpyHeader = match parse_header(slice_subrange(data, 0, n)) {
        Ok(h) => h,
        Err(e) => {
            return Err(e);
        },
    };
    let ghost hm = h@;
    let mut report: Report = Report::new(path, "npy", file_len);
    report.header_bytes = h.header_total;
    let present: u64 = file_len.saturating_sub(h.header_total);
    let expect: Option<u64> = h.data_bytes();
    let bytes: u64 = match expect {
        Some(n) => n,
        None => present,
    };
    report.data_bytes = bytes;
    let itemsize: Json = match h.itemsize {
        Some(n) => Json::Int(n as i128),
        None => Json::Null,
    };
    let mut version: String = String::new();
    put_dec(&mut version, h.version.0 as u128);
    version.append(".");
    put_dec(&mut version, h.version.1 as u128);
    assert(version@ =~= dec(h.version.0 as nat) + "."@ + dec(h.version.1 as nat));
    let mut details: Vec<(String, Json)> = Vec::new();
    put_member(&mut details, "version", Json::Str(version));
    put_member(&mut details, "descr", h.descr);
    put_member(&mut details, "byte_order", Json::Str(h.byte_order.to_owned()));
    put_member(&mut details, "fortran_order", Json::Bool(h.fortran_order));
    put_member(&mut details, "itemsize", itemsize);
    let ghost want = report_of(path@, file_len as nat, hm);
    proof {
        lemma_view_obj(details);
        assert(members_of(details@) =~= want.details->Obj_0);
    }
    report.details = Json::Obj(details);
    report.problems = h.problems;
    note_size(present, expect, &mut report.problems);
    report.tensors.push(Tensor::new("", h.dtype.as_str(), h.shape, 0, bytes));
    assert(tensors_of(report.tensors@) =~= want.tensors);
    assert(report@ =~= want);
    Ok(report)
}

} // verus!
