//! Minimal JSON value type with a parser and two serializers (pretty and
//! compact). Written against untrusted input: byte-position errors, a
//! nesting-depth cap, exact integer preservation up to i128, and full
//! `\uXXXX` escape handling including surrogate pairs. Object key order is
//! preserved (a `Vec`, not a map) so reports render deterministically and
//! safetensors headers round-trip in file order.

use vstd::prelude::*;
use vstd::string::*;
use vstd::std_specs::cmp::PartialEqSpecImpl;
use vstd::std_specs::convert::FromSpecImpl;
use vstd::utf8::*;
use vstd::slice::slice_subrange;
use crate::bytes::{copy_range, put_bytes};
use crate::ascii::{BACKSLASH, COLON, COMMA, DOT, LBRACE, LBRACKET, LOWER_B, LOWER_E, LOWER_F, LOWER_N, LOWER_R, LOWER_T, LOWER_U, MINUS, NEWLINE, PLUS, QUOTE, RBRACE, RBRACKET, RETURN, SLASH, SPACE, TAB, UPPER_E, ZERO};
use crate::float::{lemma_digit_bytes_prefix, decimal_double, digit_bytes_value, finite, from_decimal, is_digit_byte, is_finite, magnitude, INFINITY, SIGN};
use crate::shortest::{double_text, put_double};
use crate::text::{chars_of, dec, dec_int, put_dec, put_int, same, same_bytes, scalar, utf8_text};

verus! {

/// A parsed or programmatically built JSON value.
#[derive(Debug)]
pub enum Json {
    Null,
    Bool(bool),
    /// Integers are kept exact (offsets in safetensors headers must not be
    /// rounded through a double).
    Int(i128),
    /// A double-precision number, by its IEEE 754 bits.
    Float(u64),
    Str(String),
    Arr(Vec<Json>),
    Obj(Vec<(String, Json)>),
}

/// Parse failure with the byte offset where it happened.
#[derive(Debug, Clone, PartialEq)]
pub struct JsonError {
    pub msg: String,
    pub offset: usize,
}

/// The mathematical value of a [`Json`].
pub enum Doc {
    Null,
    Bool(bool),
    Int(int),
    Float(u64),
    Str(Seq<char>),
    Arr(Seq<Doc>),
    Obj(Seq<(Seq<char>, Doc)>),
}

impl View for Json {
    type V = Doc;

    open spec fn view(&self) -> Doc {
        doc(*self)
    }
}

pub open spec fn doc(j: Json) -> Doc
    decreases j,
{
    match j {
        Json::Null => Doc::Null,
        Json::Bool(b) => Doc::Bool(b),
        Json::Int(n) => Doc::Int(n as int),
        Json::Float(f) => Doc::Float(f),
        Json::Str(s) => Doc::Str(s@),
        Json::Arr(items) => Doc::Arr(
            Seq::new(
                items@.len(),
                |i: int|
                    if 0 <= i < items@.len() {
                        doc(items@[i])
                    } else {
                        Doc::Null
                    },
            ),
        ),
        Json::Obj(members) => Doc::Obj(
            Seq::new(
                members@.len(),
                |i: int|
                    if 0 <= i < members@.len() {
                        (members@[i].0@, doc(members@[i].1))
                    } else {
                        (seq![], Doc::Null)
                    },
            ),
        ),
    }
}

/// The values of a vector of documents.
pub open spec fn docs(items: Seq<Json>) -> Seq<Doc> {
    Seq::new(items.len(), |i: int| items[i]@)
}

/// The values of a vector of object members.
pub open spec fn members_of(ms: Seq<(String, Json)>) -> Seq<(Seq<char>, Doc)> {
    Seq::new(ms.len(), |i: int| (ms[i].0@, ms[i].1@))
}

pub proof fn lemma_view_arr(items: Vec<Json>)
    ensures
        Json::Arr(items)@ == Doc::Arr(docs(items@)),
{
    assert(Json::Arr(items)@->Arr_0 =~= docs(items@));
}

pub proof fn lemma_view_obj(ms: Vec<(String, Json)>)
    ensures
        Json::Obj(ms)@ == Doc::Obj(members_of(ms@)),
{
    assert(Json::Obj(ms)@->Obj_0 =~= members_of(ms@));
}

impl Clone for Json {
    fn clone(&self) -> (r: Json)
        ensures
            r@ == self@,
    {
        self.copy()
    }
}

impl Json {
    fn copy(&self) -> (r: Json)
        ensures
            r@ == self@,
        decreases self,
    {
        match self {
            Json::Null => Json::Null,
            Json::Bool(b) => Json::Bool(*b),
            Json::Int(n) => Json::Int(*n),
            Json::Float(f) => Json::Float(*f),
            Json::Str(s) => Json::Str(s.clone()),
            Json::Arr(items) => {
                let mut out: Vec<Json> = Vec::new();
                for i in 0..items.len()
                    invariant
                        self == Json::Arr(*items),
                        out@.len() == i,
                        forall|k: int| 0 <= k < i ==> (#[trigger] out@[k])@ == items@[k]@,
                {
                    assert(decreases_to!(self => self->Arr_0));
                    assert(decreases_to!(items => items@));
                    assert(decreases_to!(items@ => items@[i as int]));
                    out.push(items[i].copy());
                }
                proof {
                    lemma_view_arr(*items);
                    lemma_view_arr(out);
                    assert(docs(out@) =~= docs(items@));
                }
                Json::Arr(out)
            },
            Json::Obj(ms) => {
                let mut out: Vec<(String, Json)> = Vec::new();
                for i in 0..ms.len()
                    invariant
                        self == Json::Obj(*ms),
                        out@.len() == i,
                        forall|k: int|
                            0 <= k < i ==> (#[trigger] out@[k]).0@ == ms@[k].0@ && out@[k].1@
                                == ms@[k].1@,
                {
                    assert(decreases_to!(self => self->Obj_0));
                    assert(decreases_to!(ms => ms@));
                    assert(decreases_to!(ms@ => ms@[i as int]));
                    assert(decreases_to!(ms@[i as int] => ms@[i as int].1));
                    out.push((ms[i].0.clone(), ms[i].1.copy()));
                }
                proof {
                    lemma_view_obj(*ms);
                    lemma_view_obj(out);
                    assert(members_of(out@) =~= members_of(ms@));
                }
                Json::Obj(out)
            },
        }
    }
}

/// IEEE 754 equality of doubles: both zeros are equal, and no NaN equals
/// anything.
pub open spec fn same_float(a: u64, b: u64) -> bool {
    (magnitude(a) == 0 && magnitude(b) == 0) || (a == b && magnitude(a) <= INFINITY)
}

/// Equality of documents: that of their parts.
pub open spec fn same_doc(a: Doc, b: Doc) -> bool
    decreases a,
{
    match (a, b) {
        (Doc::Null, Doc::Null) => true,
        (Doc::Bool(x), Doc::Bool(y)) => x == y,
        (Doc::Int(x), Doc::Int(y)) => x == y,
        (Doc::Float(x), Doc::Float(y)) => same_float(x, y),
        (Doc::Str(x), Doc::Str(y)) => x == y,
        (Doc::Arr(x), Doc::Arr(y)) => x.len() == y.len() && forall|i: int|
            0 <= i < x.len() ==> same_doc(#[trigger] x[i], y[i]),
        (Doc::Obj(x), Doc::Obj(y)) => x.len() == y.len() && forall|i: int|
            0 <= i < x.len() ==> (#[trigger] x[i]).0 == y[i].0 && same_doc(x[i].1, y[i].1),
        _ => false,
    }
}

impl PartialEq for Json {
    fn eq(&self, other: &Json) -> (r: bool) {
        self.equals(other)
    }
}

impl PartialEqSpecImpl for Json {
    open spec fn obeys_eq_spec() -> bool {
        true
    }

    open spec fn eq_spec(&self, other: &Json) -> bool {
        same_doc(self@, other@)
    }
}

impl Json {
    fn equals(&self, other: &Json) -> (r: bool)
        ensures
            r == same_doc(self@, other@),
        decreases self,
    {
        match (self, other) {
            (Json::Null, Json::Null) => true,
            (Json::Bool(x), Json::Bool(y)) => *x == *y,
            (Json::Int(x), Json::Int(y)) => *x == *y,
            (Json::Float(x), Json::Float(y)) => {
                let a: u64 = *x % SIGN;
                let b: u64 = *y % SIGN;
                (a == 0 && b == 0) || (*x == *y && a <= INFINITY)
            },
            (Json::Str(x), Json::Str(y)) => same(x.as_str(), y.as_str()),
            (Json::Arr(x), Json::Arr(y)) => {
                proof {
                    lemma_view_arr(*x);
                    lemma_view_arr(*y);
                }
                if x.len() != y.len() {
                    return false;
                }
                let mut i: usize = 0;
                while i < x.len()
                    invariant
                        i <= x@.len(),
                        x@.len() == y@.len(),
                        self == Json::Arr(*x),
                        other == Json::Arr(*y),
                        self@ == Doc::Arr(docs(x@)),
                        other@ == Doc::Arr(docs(y@)),
                        forall|k: int|
                            0 <= k < i ==> same_doc(#[trigger] docs(x@)[k], docs(y@)[k]),
                    decreases x@.len() - i,
                {
                    assert(decreases_to!(self => self->Arr_0));
                    assert(decreases_to!(x => x@));
                    assert(decreases_to!(x@ => x@[i as int]));
                    if !x[i].equals(&y[i]) {
                        assert(!same_doc(docs(x@)[i as int], docs(y@)[i as int]));
                        return false;
                    }
                    i = i + 1;
                }
                true
            },
            (Json::Obj(x), Json::Obj(y)) => {
                proof {
                    lemma_view_obj(*x);
                    lemma_view_obj(*y);
                }
                if x.len() != y.len() {
                    return false;
                }
                let mut i: usize = 0;
                while i < x.len()
                    invariant
                        i <= x@.len(),
                        x@.len() == y@.len(),
                        self == Json::Obj(*x),
                        other == Json::Obj(*y),
                        self@ == Doc::Obj(members_of(x@)),
                        other@ == Doc::Obj(members_of(y@)),
                        forall|k: int|
                            0 <= k < i ==> (#[trigger] members_of(x@)[k]).0 == members_of(y@)[k].0
                                && same_doc(members_of(x@)[k].1, members_of(y@)[k].1),
                    decreases x@.len() - i,
                {
                    assert(decreases_to!(self => self->Obj_0));
                    assert(decreases_to!(x => x@));
                    assert(decreases_to!(x@ => x@[i as int]));
                    assert(decreases_to!(x@[i as int] => x@[i as int].1));
                    if !same(x[i].0.as_str(), y[i].0.as_str()) || !x[i].1.equals(&y[i].1) {
                        assert(members_of(x@)[i as int].0 != members_of(y@)[i as int].0
                            || !same_doc(
                            members_of(x@)[i as int].1,
                            members_of(y@)[i as int].1,
                        ));
                        return false;
                    }
                    i = i + 1;
                }
                true
            },
            _ => false,
        }
    }
}

impl From<&str> for Json {
    fn from(s: &str) -> (r: Json)
        ensures
            r@ == Doc::Str(s@),
    {
        Json::Str(s.to_owned())
    }
}

impl FromSpecImpl<&str> for Json {
    open spec fn obeys_from_spec() -> bool {
        false
    }

    open spec fn from_spec(s: &str) -> Json {
        arbitrary()
    }
}

impl From<u64> for Json {
    fn from(n: u64) -> (r: Json) {
        Json::Int(n as i128)
    }
}

impl FromSpecImpl<u64> for Json {
    open spec fn obeys_from_spec() -> bool {
        true
    }

    open spec fn from_spec(n: u64) -> Json {
        Json::Int(n as i128)
    }
}

// ---------------------------------------------------------------------------
// The grammar
// ---------------------------------------------------------------------------

/// Nesting beyond this depth is refused.
pub const MAX_DEPTH: usize = 128;

pub open spec fn is_ws(c: u8) -> bool {
    c == SPACE || c == TAB || c == NEWLINE || c == RETURN
}

/// The first position at or after `pos` that is not JSON white space.
pub open spec fn skip_ws(b: Seq<u8>, pos: int) -> int
    decreases b.len() - pos,
{
    if 0 <= pos < b.len() && is_ws(b[pos]) {
        skip_ws(b, pos + 1)
    } else {
        pos
    }
}

pub open spec fn byte_is(b: Seq<u8>, pos: int, c: u8) -> bool {
    0 <= pos < b.len() && b[pos] == c
}

pub open spec fn digit_at(b: Seq<u8>, pos: int) -> bool {
    0 <= pos < b.len() && is_digit_byte(b[pos])
}

/// The end of the run of digits that starts at `pos`.
pub open spec fn digits_end(b: Seq<u8>, pos: int) -> int
    decreases b.len() - pos,
{
    if digit_at(b, pos) {
        digits_end(b, pos + 1)
    } else {
        pos
    }
}

pub open spec fn hex_digit(c: u8) -> Option<nat> {
    if 48 <= c <= 57 {
        Some((c - 48) as nat)
    } else if 97 <= c <= 102 {
        Some((c - 87) as nat)
    } else if 65 <= c <= 70 {
        Some((c - 55) as nat)
    } else {
        None
    }
}

/// `k` more hexadecimal digits at `pos`, after digits worth `v`.
pub open spec fn hex_from(b: Seq<u8>, pos: int, k: nat, v: nat) -> Result<nat, (Seq<char>, int)>
    decreases k,
{
    if k == 0 {
        Ok(v)
    } else if !(0 <= pos < b.len()) {
        Err(("truncated \\u escape"@, pos))
    } else {
        match hex_digit(b[pos]) {
            None => Err(("bad hex digit"@, pos)),
            Some(d) => hex_from(b, pos + 1, (k - 1) as nat, v * 16 + d),
        }
    }
}

/// The character a one-letter escape stands for.
pub open spec fn simple_escape(e: u8) -> Option<char> {
    if e == QUOTE {
        Some('"')
    } else if e == BACKSLASH {
        Some('\\')
    } else if e == SLASH {
        Some('/')
    } else if e == LOWER_B {
        Some('\u{8}')
    } else if e == LOWER_F {
        Some('\u{c}')
    } else if e == LOWER_N {
        Some('\n')
    } else if e == LOWER_R {
        Some('\r')
    } else if e == LOWER_T {
        Some('\t')
    } else {
        None
    }
}

/// Bytes taken by the UTF-8 sequence that `first` begins.
pub open spec fn utf8_width(first: u8) -> Option<int> {
    if 0x20 <= first <= 0x7f {
        Some(1int)
    } else if 0xc2 <= first <= 0xdf {
        Some(2int)
    } else if 0xe0 <= first <= 0xef {
        Some(3int)
    } else if 0xf0 <= first <= 0xf4 {
        Some(4int)
    } else {
        None
    }
}

pub open spec fn is_high_surrogate(v: nat) -> bool {
    0xd800 <= v < 0xdc00
}

pub open spec fn is_low_surrogate(v: nat) -> bool {
    0xdc00 <= v < 0xe000
}

/// The code point a surrogate pair encodes.
pub open spec fn surrogate_pair(hi: nat, lo: nat) -> char {
    (0x10000 + (hi - 0xd800) * 1024 + (lo - 0xdc00)) as char
}

/// The character the escape sequence with its first letter at `pos` (just
/// after the backslash) stands for, and where the sequence ends.
pub open spec fn escape_at(b: Seq<u8>, pos: int) -> Result<(char, int), (Seq<char>, int)> {
    if !(0 <= pos < b.len()) {
        Err(("unterminated escape"@, pos))
    } else if simple_escape(b[pos]) is Some {
        Ok((simple_escape(b[pos])->0, pos + 1))
    } else if b[pos] == LOWER_U {
        match hex_from(b, pos + 1, 4, 0) {
            Err(e) => Err(e),
            Ok(hi) => if is_high_surrogate(hi) {
                if !byte_is(b, pos + 5, BACKSLASH) {
                    Err(("lone high surrogate"@, pos + 5))
                } else if !byte_is(b, pos + 6, LOWER_U) {
                    Err(("lone high surrogate"@, pos + 6))
                } else {
                    match hex_from(b, pos + 7, 4, 0) {
                        Err(e) => Err(e),
                        Ok(lo) => if !is_low_surrogate(lo) {
                            Err(("invalid low surrogate"@, pos + 11))
                        } else {
                            Ok((surrogate_pair(hi, lo), pos + 11))
                        },
                    }
                }
            } else if is_low_surrogate(hi) {
                Err(("lone low surrogate"@, pos + 5))
            } else {
                Ok((hi as char, pos + 5))
            },
        }
    } else {
        Err(("invalid escape"@, pos + 1))
    }
}

/// The rest of a string literal from `pos` on, after the characters `acc`.
pub open spec fn chars_from(b: Seq<u8>, pos: int, acc: Seq<char>) -> Result<
    (Seq<char>, int),
    (Seq<char>, int),
>
    decreases b.len() - pos,
{
    if !(0 <= pos < b.len()) {
        Err(("unterminated string"@, pos))
    } else if b[pos] == QUOTE {
        Ok((acc, pos + 1))
    } else if b[pos] == BACKSLASH {
        match escape_at(b, pos + 1) {
            Err(e) => Err(e),
            Ok((c, end)) => {
                proof {
                    lemma_escape_progress(b, pos + 1);
                }
                chars_from(b, end, acc.push(c))
            },
        }
    } else if b[pos] < 0x20 {
        Err(("raw control character in string"@, pos + 1))
    } else {
        match utf8_width(b[pos]) {
            None => Err(("invalid UTF-8"@, pos + 1)),
            Some(n) => if pos + n > b.len() {
                Err(("truncated UTF-8 sequence"@, pos + 1))
            } else if !valid_utf8(b.subrange(pos, pos + n)) {
                Err(("invalid UTF-8"@, pos + 1))
            } else {
                chars_from(b, pos + n, acc + decode_utf8(b.subrange(pos, pos + n)))
            },
        }
    }
}

/// Where the three parts of a number end: integer digits, fraction, exponent.
pub open spec fn number_span(b: Seq<u8>, pos: int) -> Result<(int, int, int), (Seq<char>, int)> {
    let first = if byte_is(b, pos, MINUS) {
        pos + 1
    } else {
        pos
    };
    if !digit_at(b, first) {
        Err(("expected digit"@, first))
    } else if b[first] == ZERO && digit_at(b, first + 1) {
        Err(("leading zero in number"@, first + 1))
    } else {
        let whole = digits_end(b, first);
        if byte_is(b, whole, DOT) && !digit_at(b, whole + 1) {
            Err(("expected digit after '.'"@, whole + 1))
        } else {
            let frac = if byte_is(b, whole, DOT) {
                digits_end(b, whole + 1)
            } else {
                whole
            };
            if byte_is(b, frac, LOWER_E) || byte_is(b, frac, UPPER_E) {
                let sign = if byte_is(b, frac + 1, PLUS) || byte_is(b, frac + 1, MINUS) {
                    frac + 2
                } else {
                    frac + 1
                };
                if !digit_at(b, sign) {
                    Err(("expected exponent digit"@, sign))
                } else {
                    Ok((whole, frac, digits_end(b, sign)))
                }
            } else {
                Ok((whole, frac, frac))
            }
        }
    }
}

/// The value of a number whose parts end at `whole`, `frac` and `end`: an
/// integer when there is neither fraction nor exponent and it fits i128,
/// otherwise the nearest double.
pub open spec fn number_value(b: Seq<u8>, pos: int, whole: int, frac: int, end: int) -> Doc {
    let neg = b[pos] == MINUS;
    let first = if neg {
        pos + 1
    } else {
        pos
    };
    let int_digits = b.subrange(first, whole);
    let m = digit_bytes_value(int_digits) as int;
    let n = if neg {
        -m
    } else {
        m
    };
    if end == whole && i128::MIN <= n <= i128::MAX {
        Doc::Int(n)
    } else {
        let frac_digits = if frac > whole {
            b.subrange(whole + 1, frac)
        } else {
            seq![]
        };
        let exp_neg = end > frac && b[frac + 1] == MINUS;
        let exp_start = if end > frac && (b[frac + 1] == MINUS || b[frac + 1] == PLUS) {
            frac + 2
        } else {
            frac + 1
        };
        let e = if end > frac {
            digit_bytes_value(b.subrange(exp_start, end)) as int
        } else {
            0
        };
        Doc::Float(
            decimal_double(
                neg,
                digit_bytes_value(int_digits + frac_digits),
                (if exp_neg {
                    -e
                } else {
                    e
                }) - frac_digits.len(),
            ),
        )
    }
}

pub open spec fn number_at(b: Seq<u8>, pos: int) -> Result<(Doc, int), (Seq<char>, int)> {
    match number_span(b, pos) {
        Ok((whole, frac, end)) => Ok((number_value(b, pos, whole, frac, end), end)),
        Err(e) => Err(e),
    }
}

pub open spec fn literal_at(b: Seq<u8>, pos: int, lit: Seq<u8>, v: Doc) -> Result<
    (Doc, int),
    (Seq<char>, int),
> {
    if pos + lit.len() <= b.len() && b.subrange(pos, pos + lit.len()) == lit {
        Ok((v, pos + lit.len()))
    } else {
        Err(("invalid literal"@, pos))
    }
}

/// The value that starts at `pos`, and where it ends.
pub open spec fn value_at(b: Seq<u8>, pos: int, depth: int) -> Result<
    (Doc, int),
    (Seq<char>, int),
>
    decreases b.len() - pos, 2int,
{
    if depth > MAX_DEPTH {
        Err(("nesting too deep"@, pos))
    } else if !(0 <= pos < b.len()) {
        Err(("unexpected end of input"@, pos))
    } else if b[pos] == LBRACE {
        let p = skip_ws(b, pos + 1);
        if byte_is(b, p, RBRACE) {
            Ok((Doc::Obj(seq![]), p + 1))
        } else {
            proof {
                lemma_skip_ws(b, pos + 1);
            }
            members_from(b, p, depth, seq![])
        }
    } else if b[pos] == LBRACKET {
        let p = skip_ws(b, pos + 1);
        if byte_is(b, p, RBRACKET) {
            Ok((Doc::Arr(seq![]), p + 1))
        } else {
            proof {
                lemma_skip_ws(b, pos + 1);
            }
            items_from(b, p, depth, seq![])
        }
    } else if b[pos] == QUOTE {
        match chars_from(b, pos + 1, seq![]) {
            Ok((s, p)) => Ok((Doc::Str(s), p)),
            Err(e) => Err(e),
        }
    } else if b[pos] == LOWER_T {
        literal_at(b, pos, seq![116u8, 114, 117, 101], Doc::Bool(true))
    } else if b[pos] == LOWER_F {
        literal_at(b, pos, seq![102u8, 97, 108, 115, 101], Doc::Bool(false))
    } else if b[pos] == LOWER_N {
        literal_at(b, pos, seq![110u8, 117, 108, 108], Doc::Null)
    } else if b[pos] == MINUS || is_digit_byte(b[pos]) {
        number_at(b, pos)
    } else {
        Err(("unexpected character"@, pos))
    }
}

/// The members of an object from `pos` on, after the members `acc`. The scan
/// stops if it ever failed to move forward, which no input makes it do.
pub open spec fn members_from(
    b: Seq<u8>,
    pos: int,
    depth: int,
    acc: Seq<(Seq<char>, Doc)>,
) -> Result<(Doc, int), (Seq<char>, int)>
    decreases b.len() - pos, 1int,
{
    let k = skip_ws(b, pos);
    if !byte_is(b, k, QUOTE) {
        Err(("expected string key"@, k))
    } else {
        match chars_from(b, k + 1, seq![]) {
            Err(e) => Err(e),
            Ok((key, key_end)) => {
                let colon = skip_ws(b, key_end);
                if !byte_is(b, colon, COLON) {
                    Err(("expected ':' after key"@, colon))
                } else {
                    let start = skip_ws(b, colon + 1);
                    proof {
                        lemma_skip_ws(b, pos);
                        lemma_chars_progress(b, k + 1, seq![]);
                        lemma_skip_ws(b, key_end);
                        lemma_skip_ws(b, colon + 1);
                    }
                    match value_at(b, start, depth + 1) {
                        Err(e) => Err(e),
                        Ok((v, end)) => {
                            let next = skip_ws(b, end);
                            if byte_is(b, next, COMMA) && next >= pos {
                                members_from(b, next + 1, depth, acc.push((key, v)))
                            } else if byte_is(b, next, RBRACE) {
                                Ok((Doc::Obj(acc.push((key, v))), next + 1))
                            } else {
                                Err(("expected ',' or '}' in object"@, next))
                            }
                        },
                    }
                }
            },
        }
    }
}

/// The elements of an array from `pos` on, after the elements `acc`.
pub open spec fn items_from(b: Seq<u8>, pos: int, depth: int, acc: Seq<Doc>) -> Result<
    (Doc, int),
    (Seq<char>, int),
>
    decreases b.len() - pos, 3int,
{
    let start = skip_ws(b, pos);
    proof {
        lemma_skip_ws(b, pos);
    }
    match value_at(b, start, depth + 1) {
        Err(e) => Err(e),
        Ok((v, end)) => {
            let next = skip_ws(b, end);
            if byte_is(b, next, COMMA) && next >= pos {
                items_from(b, next + 1, depth, acc.push(v))
            } else if byte_is(b, next, RBRACKET) {
                Ok((Doc::Arr(acc.push(v)), next + 1))
            } else {
                Err(("expected ',' or ']' in array"@, next))
            }
        },
    }
}

/// A whole document: one value with nothing but white space around it.
pub open spec fn parse_doc(b: Seq<u8>) -> Result<Doc, (Seq<char>, int)> {
    match value_at(b, skip_ws(b, 0), 0) {
        Err(e) => Err(e),
        Ok((v, end)) => {
            let p = skip_ws(b, end);
            if p != b.len() {
                Err(("trailing data after JSON document"@, p))
            } else {
                Ok(v)
            }
        },
    }
}

pub proof fn lemma_skip_ws(b: Seq<u8>, pos: int)
    ensures
        pos <= skip_ws(b, pos),
        pos <= b.len() ==> skip_ws(b, pos) <= b.len(),
    decreases b.len() - pos,
{
    if 0 <= pos < b.len() && is_ws(b[pos]) {
        lemma_skip_ws(b, pos + 1);
    }
}

pub proof fn lemma_hex_progress(b: Seq<u8>, pos: int, k: nat, v: nat)
    ensures
        hex_from(b, pos, k, v) is Ok && k > 0 ==> 0 <= pos && pos + k <= b.len(),
    decreases k,
{
    if k > 0 && 0 <= pos < b.len() {
        if let Some(d) = hex_digit(b[pos]) {
            lemma_hex_progress(b, pos + 1, (k - 1) as nat, v * 16 + d);
        }
    }
}

pub proof fn lemma_escape_progress(b: Seq<u8>, pos: int)
    ensures
        escape_at(b, pos) matches Ok((_, end)) ==> pos < end <= b.len(),
{
    lemma_hex_progress(b, pos + 1, 4, 0);
    lemma_hex_progress(b, pos + 7, 4, 0);
}

/// A string literal ends after it starts and inside the input.
pub proof fn lemma_chars_progress(b: Seq<u8>, pos: int, acc: Seq<char>)
    requires
        0 <= pos,
    ensures
        chars_from(b, pos, acc) matches Ok((_, p)) ==> pos < p <= b.len(),
    decreases b.len() - pos,
{
    if pos < b.len() && b[pos] != QUOTE {
        if b[pos] == BACKSLASH {
            lemma_escape_progress(b, pos + 1);
            if let Ok((c, end)) = escape_at(b, pos + 1) {
                lemma_chars_progress(b, end, acc.push(c));
            }
        } else if let Some(n) = utf8_width(b[pos]) {
            if pos + n <= b.len() {
                lemma_chars_progress(b, pos + n, acc + decode_utf8(b.subrange(pos, pos + n)));
            }
        }
    }
}

pub proof fn lemma_digits_end(b: Seq<u8>, pos: int)
    requires
        0 <= pos <= b.len(),
    ensures
        pos <= digits_end(b, pos) <= b.len(),
        digit_at(b, pos) ==> pos < digits_end(b, pos),
        !digit_at(b, digits_end(b, pos)),
        forall|k: int| pos <= k < digits_end(b, pos) ==> is_digit_byte(#[trigger] b[k]),
    decreases b.len() - pos,
{
    if digit_at(b, pos) {
        lemma_digits_end(b, pos + 1);
    }
}

/// A value ends after it starts and inside the input.
pub proof fn lemma_value_progress(b: Seq<u8>, pos: int, depth: int)
    requires
        0 <= pos,
    ensures
        value_at(b, pos, depth) matches Ok((_, p)) ==> pos < p <= b.len(),
    decreases b.len() - pos, 2int,
{
    if depth <= MAX_DEPTH && pos < b.len() {
        if b[pos] == LBRACE {
            lemma_skip_ws(b, pos + 1);
            lemma_members_progress(b, skip_ws(b, pos + 1), depth, seq![]);
        } else if b[pos] == LBRACKET {
            lemma_skip_ws(b, pos + 1);
            lemma_items_progress(b, skip_ws(b, pos + 1), depth, seq![]);
        } else if b[pos] == QUOTE {
            lemma_chars_progress(b, pos + 1, seq![]);
        } else if b[pos] == MINUS || is_digit_byte(b[pos]) {
            if number_span(b, pos) is Ok {
                lemma_number_digits(b, pos);
            }
        }
    }
}

/// Between its markers, a number consists of digits.
pub proof fn lemma_number_digits(b: Seq<u8>, pos: int)
    requires
        0 <= pos < b.len(),
        number_span(b, pos) is Ok,
    ensures
        ({
            let (whole, frac, end) = number_span(b, pos)->Ok_0;
            let first = if b[pos] == MINUS {
                pos + 1
            } else {
                pos
            };
            let exp = if end > frac && (b[frac + 1] == MINUS || b[frac + 1] == PLUS) {
                frac + 2
            } else {
                frac + 1
            };
            &&& first < whole <= frac <= end <= b.len()
            &&& frac > whole ==> whole + 1 < frac
            &&& end > frac ==> exp < end
            &&& forall|k: int| first <= k < whole ==> is_digit_byte(#[trigger] b[k])
            &&& forall|k: int| whole < k < frac ==> is_digit_byte(#[trigger] b[k])
            &&& forall|k: int| exp <= k < end ==> is_digit_byte(#[trigger] b[k])
        }),
{
    let first = if b[pos] == MINUS {
        pos + 1
    } else {
        pos
    };
    lemma_digits_end(b, first);
    let whole = digits_end(b, first);
    let frac = if byte_is(b, whole, DOT) {
        digits_end(b, whole + 1)
    } else {
        whole
    };
    if byte_is(b, whole, DOT) {
        lemma_digits_end(b, whole + 1);
    }
    if byte_is(b, frac, LOWER_E) || byte_is(b, frac, UPPER_E) {
        let sign = if byte_is(b, frac + 1, PLUS) || byte_is(b, frac + 1, MINUS) {
            frac + 2
        } else {
            frac + 1
        };
        lemma_digits_end(b, sign);
    }
}

pub proof fn lemma_members_progress(
    b: Seq<u8>,
    pos: int,
    depth: int,
    acc: Seq<(Seq<char>, Doc)>,
)
    requires
        0 <= pos,
    ensures
        members_from(b, pos, depth, acc) matches Ok((_, p)) ==> pos < p <= b.len(),
    decreases b.len() - pos, 1int,
{
    let k = skip_ws(b, pos);
    lemma_skip_ws(b, pos);
    if byte_is(b, k, QUOTE) {
        lemma_chars_progress(b, k + 1, seq![]);
        if let Ok((key, key_end)) = chars_from(b, k + 1, seq![]) {
            let colon = skip_ws(b, key_end);
            lemma_skip_ws(b, key_end);
            if byte_is(b, colon, COLON) {
                let start = skip_ws(b, colon + 1);
                lemma_skip_ws(b, colon + 1);
                lemma_value_progress(b, start, depth + 1);
                if let Ok((v, end)) = value_at(b, start, depth + 1) {
                    lemma_skip_ws(b, end);
                    let next = skip_ws(b, end);
                    if byte_is(b, next, COMMA) {
                        lemma_members_progress(b, next + 1, depth, acc.push((key, v)));
                    }
                }
            }
        }
    }
}

pub proof fn lemma_items_progress(b: Seq<u8>, pos: int, depth: int, acc: Seq<Doc>)
    requires
        0 <= pos,
    ensures
        items_from(b, pos, depth, acc) matches Ok((_, p)) ==> pos < p <= b.len(),
    decreases b.len() - pos, 3int,
{
    let start = skip_ws(b, pos);
    lemma_skip_ws(b, pos);
    lemma_value_progress(b, start, depth + 1);
    if let Ok((v, end)) = value_at(b, start, depth + 1) {
        lemma_skip_ws(b, end);
        let next = skip_ws(b, end);
        if byte_is(b, next, COMMA) {
            lemma_items_progress(b, next + 1, depth, acc.push(v));
        }
    }
}

// ---------------------------------------------------------------------------
// Parser
// ---------------------------------------------------------------------------

struct Parser<'a> {
    b: &'a [u8],
    pos: usize,
}

/// What a parsing step returned, as positions and values.
pub open spec fn parsed(r: Result<Json, JsonError>, end: int) -> Result<
    (Doc, int),
    (Seq<char>, int),
> {
    match r {
        Ok(v) => Ok((v@, end)),
        Err(e) => Err((e.msg@, e.offset as int)),
    }
}

impl<'a> Parser<'a> {
    spec fn inv(&self) -> bool {
        self.pos <= self.b@.len() <= usize::MAX
    }

    fn err(&self, msg: &str) -> (r: JsonError)
        ensures
            r.msg@ == msg@,
            r.offset == self.pos,
    {
        JsonError { msg: msg.to_owned(), offset: self.pos }
    }

    fn skip_ws(&mut self)
        requires
            old(self).inv(),
        ensures
            final(self).inv(),
            final(self).b == old(self).b,
            final(self).pos == skip_ws(old(self).b@, old(self).pos as int),
    {
        while self.pos < self.b.len()
            invariant
                self.inv(),
                self.b == old(self).b,
                skip_ws(self.b@, self.pos as int) == skip_ws(old(self).b@, old(self).pos as int),
            decreases self.b@.len() - self.pos,
        {
            let c: u8 = self.b[self.pos];
            if !(c == SPACE || c == TAB || c == NEWLINE || c == RETURN) {
                return;
            }
            self.pos = self.pos + 1;
        }
    }

    fn peek(&self) -> (r: Option<u8>)
        ensures
            r == if self.pos < self.b@.len() { Some(self.b@[self.pos as int]) } else { None },
    {
        if self.pos < self.b.len() {
            Some(self.b[self.pos])
        } else {
            None
        }
    }

    fn at_digit(&self) -> (r: bool)
        ensures
            r == digit_at(self.b@, self.pos as int),
    {
        self.pos < self.b.len() && 48 <= self.b[self.pos] && self.b[self.pos] <= 57
    }

    fn eat(&mut self, c: u8) -> (r: bool)
        requires
            old(self).inv(),
        ensures
            final(self).inv(),
            final(self).b == old(self).b,
            r == byte_is(old(self).b@, old(self).pos as int, c),
            final(self).pos == old(self).pos + (if r { 1int } else { 0int }),
    {
        if self.pos < self.b.len() && self.b[self.pos] == c {
            self.pos = self.pos + 1;
            true
        } else {
            false
        }
    }

    fn expect_lit(&mut self, lit: &[u8], v: Json) -> (r: Result<Json, JsonError>)
        requires
            old(self).inv(),
        ensures
            final(self).inv(),
            final(self).b == old(self).b,
            parsed(r, final(self).pos as int) == literal_at(
                old(self).b@,
                old(self).pos as int,
                lit@,
                v@,
            ),
    {
        let n: usize = lit.len();
        if self.b.len() - self.pos >= n && same_bytes(
            slice_subrange(self.b, self.pos, self.pos + n),
            lit,
        ) {
            self.pos = self.pos + n;
            Ok(v)
        } else {
            Err(self.err("invalid literal"))
        }
    }

    fn value(&mut self, depth: usize) -> (r: Result<Json, JsonError>)
        requires
            old(self).inv(),
            depth <= MAX_DEPTH + 1,
        ensures
            final(self).inv(),
            final(self).b == old(self).b,
            parsed(r, final(self).pos as int) == value_at(
                old(self).b@,
                old(self).pos as int,
                depth as int,
            ),
        decreases MAX_DEPTH + 1 - depth, 1int,
    {
        if depth > MAX_DEPTH {
            return Err(self.err("nesting too deep"));
        }
        let c: u8 = match self.peek() {
            None => {
                return Err(self.err("unexpected end of input"));
            },
            Some(c) => c,
        };
        if c == LBRACE {
            self.object(depth)
        } else if c == LBRACKET {
            self.array(depth)
        } else if c == QUOTE {
            match self.string() {
                Ok(s) => Ok(Json::Str(s)),
                Err(e) => Err(e),
            }
        } else if c == LOWER_T {
            let lit: [u8; 4] = [116, 114, 117, 101];
            assert(lit@ =~= seq![116u8, 114, 117, 101]);
            self.expect_lit(&lit, Json::Bool(true))
        } else if c == LOWER_F {
            let lit: [u8; 5] = [102, 97, 108, 115, 101];
            assert(lit@ =~= seq![102u8, 97, 108, 115, 101]);
            self.expect_lit(&lit, Json::Bool(false))
        } else if c == LOWER_N {
            let lit: [u8; 4] = [110, 117, 108, 108];
            assert(lit@ =~= seq![110u8, 117, 108, 108]);
            self.expect_lit(&lit, Json::Null)
        } else if c == MINUS || (48 <= c && c <= 57) {
            self.number()
        } else {
            Err(self.err("unexpected character"))
        }
    }

    fn object(&mut self, depth: usize) -> (r: Result<Json, JsonError>)
        requires
            old(self).inv(),
            depth <= MAX_DEPTH,
            byte_is(old(self).b@, old(self).pos as int, LBRACE),
        ensures
            final(self).inv(),
            final(self).b == old(self).b,
            parsed(r, final(self).pos as int) == value_at(
                old(self).b@,
                old(self).pos as int,
                depth as int,
            ),
        decreases MAX_DEPTH + 1 - depth, 0int,
    {
        let ghost b = self.b@;
        let ghost at = self.pos as int;
        self.pos = self.pos + 1;
        let mut members: Vec<(String, Json)> = Vec::new();
        self.skip_ws();
        if self.eat(RBRACE) {
            proof {
                lemma_view_obj(members);
                assert(members_of(members@) =~= seq![]);
            }
            return Ok(Json::Obj(members));
        }
        assert(members_of(members@) =~= seq![]);
        loop
            invariant
                self.inv(),
                self.b == old(self).b,
                b == self.b@,
                depth <= MAX_DEPTH,
                value_at(b, at, depth as int) == members_from(
                    b,
                    self.pos as int,
                    depth as int,
                    members_of(members@),
                ),
                at == old(self).pos,
            decreases b.len() - self.pos,
        {
            let ghost start = self.pos as int;
            let ghost acc = members_of(members@);
            proof {
                lemma_skip_ws(b, start);
            }
            self.skip_ws();
            let ghost k = self.pos as int;
            match self.peek() {
                Some(QUOTE) => {},
                _ => {
                    return Err(self.err("expected string key"));
                },
            }
            proof {
                lemma_chars_progress(b, k + 1, seq![]);
            }
            let key: String = match self.string() {
                Ok(s) => s,
                Err(e) => {
                    return Err(e);
                },
            };
            proof {
                lemma_skip_ws(b, self.pos as int);
            }
            self.skip_ws();
            if !self.eat(COLON) {
                return Err(self.err("expected ':' after key"));
            }
            proof {
                lemma_skip_ws(b, self.pos as int);
            }
            self.skip_ws();
            let ghost vpos = self.pos as int;
            proof {
                lemma_value_progress(b, vpos, depth + 1);
            }
            let v: Json = match self.value(depth + 1) {
                Ok(v) => v,
                Err(e) => {
                    return Err(e);
                },
            };
            proof {
                lemma_skip_ws(b, self.pos as int);
            }
            members.push((key, v));
            assert(members_of(members@) =~= acc.push((key@, v@)));
            self.skip_ws();
            if self.eat(COMMA) {
                continue ;
            }
            if self.eat(RBRACE) {
                proof {
                    lemma_view_obj(members);
                }
                return Ok(Json::Obj(members));
            }
            return Err(self.err("expected ',' or '}' in object"));
        }
    }

    fn array(&mut self, depth: usize) -> (r: Result<Json, JsonError>)
        requires
            old(self).inv(),
            depth <= MAX_DEPTH,
            byte_is(old(self).b@, old(self).pos as int, LBRACKET),
        ensures
            final(self).inv(),
            final(self).b == old(self).b,
            parsed(r, final(self).pos as int) == value_at(
                old(self).b@,
                old(self).pos as int,
                depth as int,
            ),
        decreases MAX_DEPTH + 1 - depth, 0int,
    {
        let ghost b = self.b@;
        let ghost at = self.pos as int;
        self.pos = self.pos + 1;
        let mut items: Vec<Json> = Vec::new();
        self.skip_ws();
        if self.eat(RBRACKET) {
            proof {
                lemma_view_arr(items);
                assert(docs(items@) =~= seq![]);
            }
            return Ok(Json::Arr(items));
        }
        assert(docs(items@) =~= seq![]);
        loop
            invariant
                self.inv(),
                self.b == old(self).b,
                b == self.b@,
                depth <= MAX_DEPTH,
                value_at(b, at, depth as int) == items_from(
                    b,
                    self.pos as int,
                    depth as int,
                    docs(items@),
                ),
                at == old(self).pos,
            decreases b.len() - self.pos,
        {
            let ghost acc = docs(items@);
            proof {
                lemma_skip_ws(b, self.pos as int);
            }
            self.skip_ws();
            proof {
                lemma_value_progress(b, self.pos as int, depth + 1);
            }
            let v: Json = match self.value(depth + 1) {
                Ok(v) => v,
                Err(e) => {
                    return Err(e);
                },
            };
            proof {
                lemma_skip_ws(b, self.pos as int);
            }
            items.push(v);
            assert(docs(items@) =~= acc.push(v@));
            self.skip_ws();
            if self.eat(COMMA) {
                continue ;
            }
            if self.eat(RBRACKET) {
                proof {
                    lemma_view_arr(items);
                }
                return Ok(Json::Arr(items));
            }
            return Err(self.err("expected ',' or ']' in array"));
        }
    }

    fn string(&mut self) -> (r: Result<String, JsonError>)
        requires
            old(self).inv(),
            byte_is(old(self).b@, old(self).pos as int, QUOTE),
        ensures
            final(self).inv(),
            final(self).b == old(self).b,
            match r {
                Ok(s) => chars_from(old(self).b@, old(self).pos + 1, seq![]) == Ok::<
                    (Seq<char>, int),
                    (Seq<char>, int),
                >((s@, final(self).pos as int)),
                Err(e) => chars_from(old(self).b@, old(self).pos + 1, seq![]) == Err::<
                    (Seq<char>, int),
                    (Seq<char>, int),
                >((e.msg@, e.offset as int)),
            },
    {
        let ghost b = self.b@;
        let ghost whole = chars_from(b, self.pos + 1, seq![]);
        self.pos = self.pos + 1;
        let mut s: String = String::new();
        assert(s@ =~= seq![]);
        loop
            invariant
                self.inv(),
                self.b == old(self).b,
                b == self.b@,
                whole == chars_from(b, old(self).pos + 1, seq![]),
                chars_from(b, self.pos as int, s@) == whole,
            decreases b.len() - self.pos,
        {
            let c: u8 = match self.peek() {
                None => {
                    return Err(self.err("unterminated string"));
                },
                Some(c) => c,
            };
            self.pos = self.pos + 1;
            if c == QUOTE {
                return Ok(s);
            } else if c == BACKSLASH {
                match self.escape() {
                    Ok(ch) => s.push(ch),
                    Err(e) => {
                        return Err(e);
                    },
                }
            } else if c < 0x20 {
                return Err(self.err("raw control character in string"));
            } else {
                let start: usize = self.pos - 1;
                let n: usize = match utf8_len(c) {
                    None => {
                        return Err(self.err("invalid UTF-8"));
                    },
                    Some(n) => n,
                };
                if n > self.b.len() - start {
                    return Err(self.err("truncated UTF-8 sequence"));
                }
                let end: usize = start + n;
                match utf8_text(slice_subrange(self.b, start, end)) {
                    None => {
                        return Err(self.err("invalid UTF-8"));
                    },
                    Some(chunk) => {
                        proof {
                            encode_utf8_decode_utf8(chunk@);
                        }
                        s.append(chunk);
                    },
                }
                self.pos = end;
            }
        }
    }

    /// The character an escape stands for, from just after the backslash.
    fn escape(&mut self) -> (r: Result<char, JsonError>)
        requires
            old(self).inv(),
        ensures
            final(self).inv(),
            final(self).b == old(self).b,
            match r {
                Ok(ch) => escape_at(old(self).b@, old(self).pos as int) == Ok::<
                    (char, int),
                    (Seq<char>, int),
                >((ch, final(self).pos as int)),
                Err(e) => escape_at(old(self).b@, old(self).pos as int) == Err::<
                    (char, int),
                    (Seq<char>, int),
                >((e.msg@, e.offset as int)),
            },
            r is Ok ==> final(self).pos > old(self).pos,
    {
        let e: u8 = match self.peek() {
            None => {
                return Err(self.err("unterminated escape"));
            },
            Some(e) => e,
        };
        self.pos = self.pos + 1;
        if e == QUOTE {
            Ok('"')
        } else if e == BACKSLASH {
            Ok('\\')
        } else if e == SLASH {
            Ok('/')
        } else if e == LOWER_B {
            Ok('\u{8}')
        } else if e == LOWER_F {
            Ok('\u{c}')
        } else if e == LOWER_N {
            Ok('\n')
        } else if e == LOWER_R {
            Ok('\r')
        } else if e == LOWER_T {
            Ok('\t')
        } else if e == LOWER_U {
            let hi: u32 = match self.hex4() {
                Ok(v) => v,
                Err(e) => {
                    return Err(e);
                },
            };
            if 0xd800 <= hi && hi < 0xdc00 {
                if !(self.eat(BACKSLASH) && self.eat(LOWER_U)) {
                    return Err(self.err("lone high surrogate"));
                }
                let lo: u32 = match self.hex4() {
                    Ok(v) => v,
                    Err(e) => {
                        return Err(e);
                    },
                };
                if !(0xdc00 <= lo && lo < 0xe000) {
                    return Err(self.err("invalid low surrogate"));
                }
                let cp: u32 = 0x10000 + (hi - 0xd800) * 1024 + (lo - 0xdc00);
                Ok(scalar(cp))
            } else if 0xdc00 <= hi && hi < 0xe000 {
                Err(self.err("lone low surrogate"))
            } else {
                Ok(scalar(hi))
            }
        } else {
            Err(self.err("invalid escape"))
        }
    }

    fn hex4(&mut self) -> (r: Result<u32, JsonError>)
        requires
            old(self).inv(),
        ensures
            final(self).inv(),
            final(self).b == old(self).b,
            match r {
                Ok(v) => hex_from(old(self).b@, old(self).pos as int, 4, 0) == Ok::<
                    nat,
                    (Seq<char>, int),
                >(v as nat) && v < 0x10000 && final(self).pos == old(self).pos + 4,
                Err(e) => hex_from(old(self).b@, old(self).pos as int, 4, 0) == Err::<
                    nat,
                    (Seq<char>, int),
                >((e.msg@, e.offset as int)),
            },
    {
        let mut v: u32 = 0;
        let mut k: u32 = 0;
        let mut cap: u32 = 1;
        while k < 4
            invariant
                self.inv(),
                self.b == old(self).b,
                k <= 4,
                self.pos == old(self).pos + k,
                v < cap,
                k == 0 ==> cap == 1,
                k == 1 ==> cap == 16,
                k == 2 ==> cap == 256,
                k == 3 ==> cap == 4096,
                k == 4 ==> cap == 65536,
                hex_from(self.b@, self.pos as int, (4 - k) as nat, v as nat) == hex_from(
                    old(self).b@,
                    old(self).pos as int,
                    4,
                    0,
                ),
            decreases 4 - k,
        {
            let c: u8 = match self.peek() {
                None => {
                    return Err(self.err("truncated \\u escape"));
                },
                Some(c) => c,
            };
            let d: u32 = if 48 <= c && c <= 57 {
                (c - 48) as u32
            } else if 97 <= c && c <= 102 {
                (c - 87) as u32
            } else if 65 <= c && c <= 70 {
                (c - 55) as u32
            } else {
                return Err(self.err("bad hex digit"));
            };
            v = v * 16 + d;
            cap = cap * 16;
            self.pos = self.pos + 1;
            k = k + 1;
        }
        Ok(v)
    }

    fn digits(&mut self)
        requires
            old(self).inv(),
        ensures
            final(self).inv(),
            final(self).b == old(self).b,
            final(self).pos == digits_end(old(self).b@, old(self).pos as int),
            final(self).pos >= old(self).pos,
            forall|k: int|
                old(self).pos <= k < final(self).pos ==> is_digit_byte(#[trigger] old(self).b@[k]),
    {
        while self.at_digit()
            invariant
                self.inv(),
                self.b == old(self).b,
                self.pos >= old(self).pos,
                digits_end(self.b@, self.pos as int) == digits_end(
                    old(self).b@,
                    old(self).pos as int,
                ),
                forall|k: int|
                    old(self).pos <= k < self.pos ==> is_digit_byte(#[trigger] old(self).b@[k]),
            decreases self.b@.len() - self.pos,
        {
            self.pos = self.pos + 1;
        }
    }

    /// Step over a number: where its integer digits and its fraction end.
    fn number_parts(&mut self) -> (r: Result<(usize, usize), JsonError>)
        requires
            old(self).inv(),
            old(self).pos < old(self).b@.len(),
        ensures
            final(self).inv(),
            final(self).b == old(self).b,
            number_span(old(self).b@, old(self).pos as int) == match r {
                Ok((w, f)) => Ok::<(int, int, int), (Seq<char>, int)>(
                    (w as int, f as int, final(self).pos as int),
                ),
                Err(e) => Err((e.msg@, e.offset as int)),
            },
    {
        self.eat(MINUS);
        let first: usize = self.pos;
        if !self.at_digit() {
            return Err(self.err("expected digit"));
        }
        if self.b[self.pos] == ZERO {
            self.pos = self.pos + 1;
            if self.at_digit() {
                return Err(self.err("leading zero in number"));
            }
            assert(digits_end(self.b@, self.pos as int) == self.pos);
        } else {
            self.digits();
        }
        let whole: usize = self.pos;
        assert(whole == digits_end(self.b@, first as int));
        if self.eat(DOT) {
            if !self.at_digit() {
                return Err(self.err("expected digit after '.'"));
            }
            self.digits();
        }
        let frac: usize = self.pos;
        if self.eat(LOWER_E) || self.eat(UPPER_E) {
            if !self.eat(PLUS) {
                self.eat(MINUS);
            }
            if !self.at_digit() {
                return Err(self.err("expected exponent digit"));
            }
            self.digits();
        }
        Ok((whole, frac))
    }

    fn number(&mut self) -> (r: Result<Json, JsonError>)
        requires
            old(self).inv(),
            byte_is(old(self).b@, old(self).pos as int, MINUS) || digit_at(
                old(self).b@,
                old(self).pos as int,
            ),
        ensures
            final(self).inv(),
            final(self).b == old(self).b,
            parsed(r, final(self).pos as int) == number_at(old(self).b@, old(self).pos as int),
    {
        let start: usize = self.pos;
        match self.number_parts() {
            Ok((whole, frac)) => Ok(number_of(self.b, start, whole, frac, self.pos)),
            Err(e) => Err(e),
        }
    }
}

/// The value of a number whose parts have been found.
fn number_of(b: &[u8], start: usize, whole: usize, frac: usize, end: usize) -> (r: Json)
    requires
        start < b@.len() <= usize::MAX,
        number_span(b@, start as int) == Ok::<(int, int, int), (Seq<char>, int)>(
            (whole as int, frac as int, end as int),
        ),
    ensures
        r@ == number_value(b@, start as int, whole as int, frac as int, end as int),
{
    let neg: bool = b[start] == MINUS;
    let first: usize = if neg {
        start + 1
    } else {
        start
    };
    proof {
        lemma_number_digits(b@, start as int);
    }
    let mut digits: Vec<u8> = copy_range(b, first, whole);
    if end == whole {
        match exact_int(neg, &digits) {
            Some(n) => {
                return Json::Int(n);
            },
            None => {},
        }
    }
    let ghost int_digits = digits@;
    let ghost frac_digits = if frac > whole {
        b@.subrange(whole + 1, frac as int)
    } else {
        seq![]
    };
    let mut frac_len: usize = 0;
    if frac > whole {
        frac_len = frac - whole - 1;
        let rest: Vec<u8> = copy_range(b, whole + 1, frac);
        put_bytes(&mut digits, &rest);
    }
    assert(digits@ =~= int_digits + frac_digits);
    let mut exp_neg: bool = false;
    let mut exp: Vec<u8> = Vec::new();
    if end > frac {
        exp_neg = b[frac + 1] == MINUS;
        let exp_start: usize = if exp_neg || b[frac + 1] == PLUS {
            frac + 2
        } else {
            frac + 1
        };
        exp = copy_range(b, exp_start, end);
    }
    Json::Float(from_decimal(neg, &digits, frac_len, exp_neg, &exp))
}

/// The digits as an integer, when it fits.
pub fn exact_int(neg: bool, digits: &[u8]) -> (r: Option<i128>)
    requires
        forall|i: int| 0 <= i < digits@.len() ==> is_digit_byte(#[trigger] digits@[i]),
    ensures
        ({
            let m = digit_bytes_value(digits@) as int;
            let n = if neg {
                -m
            } else {
                m
            };
            match r {
                Some(v) => v == n,
                None => !(i128::MIN <= n <= i128::MAX),
            }
        }),
{
    let mut m: u128 = 0;
    let mut i: usize = 0;
    while i < digits.len()
        invariant
            i <= digits@.len(),
            forall|i: int| 0 <= i < digits@.len() ==> is_digit_byte(#[trigger] digits@[i]),
            m == digit_bytes_value(digits@.take(i as int)),
            m <= 0x8000_0000_0000_0000_0000_0000_0000_0000,
        decreases digits@.len() - i,
    {
        let d: u128 = (digits[i] - 48) as u128;
        assert(digits@.take(i + 1).drop_last() =~= digits@.take(i as int));
        if m > 0x0ccc_cccc_cccc_cccc_cccc_cccc_cccc_cccc || m * 10 + d
            > 0x8000_0000_0000_0000_0000_0000_0000_0000 {
            proof {
                lemma_digit_bytes_prefix(digits@, i + 1);
            }
            return None;
        }
        m = m * 10 + d;
        i = i + 1;
    }
    assert(digits@.take(i as int) =~= digits@);
    if neg {
        if m == 0 {
            Some(0)
        } else {
            Some(-((m - 1) as i128) - 1)
        }
    } else if m < 0x8000_0000_0000_0000_0000_0000_0000_0000 {
        Some(m as i128)
    } else {
        None
    }
}

fn utf8_len(first: u8) -> (r: Option<usize>)
    ensures
        match r {
            Some(n) => utf8_width(first) == Some(n as int),
            None => utf8_width(first) is None,
        },
{
    if 0x20 <= first && first <= 0x7f {
        Some(1)
    } else if 0xc2 <= first && first <= 0xdf {
        Some(2)
    } else if 0xe0 <= first && first <= 0xef {
        Some(3)
    } else if 0xf0 <= first && first <= 0xf4 {
        Some(4)
    } else {
        None
    }
}

// ---------------------------------------------------------------------------
// Serialized form
// ---------------------------------------------------------------------------

/// A lower-case hexadecimal digit.
pub open spec fn hex_char(n: int) -> char {
    if n < 10 {
        (48 + n) as char
    } else {
        (87 + n) as char
    }
}

/// How one character is written inside a string literal.
pub open spec fn escaped(c: char) -> Seq<char> {
    if c == '"' {
        seq!['\\', '"']
    } else if c == '\\' {
        seq!['\\', '\\']
    } else if c == '\n' {
        seq!['\\', 'n']
    } else if c == '\r' {
        seq!['\\', 'r']
    } else if c == '\t' {
        seq!['\\', 't']
    } else if c == '\u{8}' {
        seq!['\\', 'b']
    } else if c == '\u{c}' {
        seq!['\\', 'f']
    } else if ' ' > c {
        seq!['\\', 'u', '0', '0', hex_char(c as int / 16), hex_char(c as int % 16)]
    } else {
        seq![c]
    }
}

pub open spec fn escaped_all(s: Seq<char>) -> Seq<char>
    decreases s.len(),
{
    if s.len() == 0 {
        seq![]
    } else {
        escaped_all(s.drop_last()) + escaped(s.last())
    }
}

/// A string literal.
pub open spec fn quoted(s: Seq<char>) -> Seq<char> {
    seq!['"'] + escaped_all(s) + seq!['"']
}

/// A number with a decimal point; `null` for the values JSON cannot hold.
pub open spec fn float_text(bits: u64) -> Seq<char> {
    if !is_finite(bits) {
        seq!['n', 'u', 'l', 'l']
    } else if double_text(bits).contains('.') {
        double_text(bits)
    } else {
        double_text(bits) + seq!['.', '0']
    }
}

/// What opens a new line of a pretty-printed document: the line feed and two
/// spaces for each level; nothing in the compact form.
pub open spec fn line_start(indent: Option<nat>) -> Seq<char> {
    match indent {
        None => seq![],
        Some(level) => seq!['\n'] + Seq::new(2 * level, |i: int| ' '),
    }
}

pub open spec fn deeper(indent: Option<nat>) -> Option<nat> {
    match indent {
        None => None,
        Some(level) => Some(level + 1),
    }
}

/// The serialized form of a value; `indent` is its level, or none for the
/// compact form.
pub open spec fn written(v: Doc, indent: Option<nat>) -> Seq<char>
    decreases v, 1int, 0nat,
{
    match v {
        Doc::Null => seq!['n', 'u', 'l', 'l'],
        Doc::Bool(true) => seq!['t', 'r', 'u', 'e'],
        Doc::Bool(false) => seq!['f', 'a', 'l', 's', 'e'],
        Doc::Int(n) => dec_int(n),
        Doc::Float(bits) => float_text(bits),
        Doc::Str(s) => quoted(s),
        Doc::Arr(items) => if items.len() == 0 {
            seq!['[', ']']
        } else {
            seq!['['] + written_items(v, items.len(), indent) + line_start(indent) + seq![']']
        },
        Doc::Obj(ms) => if ms.len() == 0 {
            seq!['{', '}']
        } else {
            seq!['{'] + written_members(v, ms.len(), indent) + line_start(indent) + seq!['}']
        },
    }
}

/// The first `n` elements of the array `v`, separated by commas.
pub open spec fn written_items(v: Doc, n: nat, indent: Option<nat>) -> Seq<char>
    decreases v, 0int, n,
{
    match v {
        Doc::Arr(items) => if n == 0 || n > items.len() {
            seq![]
        } else {
            written_items(v, (n - 1) as nat, indent) + (if n > 1 {
                seq![',']
            } else {
                seq![]
            }) + line_start(deeper(indent)) + written(items[n - 1], deeper(indent))
        },
        _ => seq![],
    }
}

/// The first `n` members of the object `v`, separated by commas.
pub open spec fn written_members(v: Doc, n: nat, indent: Option<nat>) -> Seq<char>
    decreases v, 0int, n,
{
    match v {
        Doc::Obj(ms) => if n == 0 || n > ms.len() {
            seq![]
        } else {
            written_members(v, (n - 1) as nat, indent) + (if n > 1 {
                seq![',']
            } else {
                seq![]
            }) + line_start(deeper(indent)) + quoted(ms[n - 1].0) + (if indent is Some {
                seq![':', ' ']
            } else {
                seq![':']
            }) + written(ms[n - 1].1, deeper(indent))
        },
        _ => seq![],
    }
}

// ---------------------------------------------------------------------------
// Serializer
// ---------------------------------------------------------------------------

fn put_escaped(c: char, out: &mut String)
    ensures
        final(out)@ == old(out)@ + escaped(c),
{
    if c == '"' {
        out.push('\\');
        out.push('"');
    } else if c == '\\' {
        out.push('\\');
        out.push('\\');
    } else if c == '\n' {
        out.push('\\');
        out.push('n');
    } else if c == '\r' {
        out.push('\\');
        out.push('r');
    } else if c == '\t' {
        out.push('\\');
        out.push('t');
    } else if c == '\u{8}' {
        out.push('\\');
        out.push('b');
    } else if c == '\u{c}' {
        out.push('\\');
        out.push('f');
    } else if ' ' > c {
        let n: u8 = c as u8;
        out.push('\\');
        out.push('u');
        out.push('0');
        out.push('0');
        out.push(hex(n / 16));
        out.push(hex(n % 16));
    } else {
        out.push(c);
    }
    assert(out@ =~= old(out)@ + escaped(c));
}

fn write_string(s: &str, out: &mut String)
    ensures
        final(out)@ == old(out)@ + quoted(s@),
{
    let v: Vec<char> = chars_of(s);
    out.push('"');
    let mut i: usize = 0;
    assert(out@ =~= old(out)@ + (seq!['"'] + escaped_all(v@.take(0))));
    while i < v.len()
        invariant
            i <= v@.len(),
            out@ == old(out)@ + (seq!['"'] + escaped_all(v@.take(i as int))),
        decreases v@.len() - i,
    {
        let c: char = v[i];
        put_escaped(c, out);
        i = i + 1;
        proof {
            let t = v@.take(i as int);
            assert(t.drop_last() =~= v@.take(i - 1));
            assert(t.last() == c);
            assert(out@ =~= old(out)@ + (seq!['"'] + escaped_all(t)));
        }
    }
    assert(v@.take(i as int) =~= s@);
    out.push('"');
    assert(out@ =~= old(out)@ + quoted(s@));
}

fn hex(n: u8) -> (r: char)
    requires
        n < 16,
    ensures
        r == hex_char(n as int),
{
    if n < 10 {
        (48 + n) as char
    } else {
        (87 + n) as char
    }
}

fn write_float(bits: u64, out: &mut String)
    ensures
        final(out)@ == old(out)@ + float_text(bits),
{
    if !finite(bits) {
        put_chars(out, &['n', 'u', 'l', 'l']);
        return;
    }
    let mut s: String = String::new();
    put_double(&mut s, bits);
    assert(s@ =~= double_text(bits));
    out.append(s.as_str());
    let v: Vec<char> = chars_of(s.as_str());
    let mut i: usize = 0;
    while i < v.len()
        invariant
            i <= v@.len(),
            v@ == double_text(bits),
            is_finite(bits),
            out@ == old(out)@ + double_text(bits),
            forall|k: int| 0 <= k < i ==> v@[k] != '.',
        decreases v@.len() - i,
    {
        if v[i] == '.' {
            return;
        }
        i = i + 1;
    }
    out.push('.');
    out.push('0');
    assert(out@ =~= old(out)@ + float_text(bits));
}

fn put_chars(out: &mut String, v: &[char])
    ensures
        final(out)@ == old(out)@ + v@,
{
    let mut i: usize = 0;
    assert(out@ =~= old(out)@ + v@.take(0));
    while i < v.len()
        invariant
            i <= v@.len(),
            out@ == old(out)@ + v@.take(i as int),
        decreases v@.len() - i,
    {
        out.push(v[i]);
        i = i + 1;
        assert(v@.take(i as int) =~= v@.take(i - 1).push(v@[i - 1]));
    }
    assert(v@.take(i as int) =~= v@);
}

/// Append the serialized form of `v`. `line` is the text that opens a line at
/// the value's own level: empty in the compact form.
#[verifier::rlimit(50)]
fn write_value(v: &Json, line: &str, Ghost(indent): Ghost<Option<nat>>, out: &mut String)
    requires
        line@ == line_start(indent),
    ensures
        final(out)@ == old(out)@ + written(v@, indent),
    decreases v,
{
    let ghost before = out@;
    match v {
        Json::Null => put_chars(out, &['n', 'u', 'l', 'l']),
        Json::Bool(true) => put_chars(out, &['t', 'r', 'u', 'e']),
        Json::Bool(false) => put_chars(out, &['f', 'a', 'l', 's', 'e']),
        Json::Int(n) => put_int(out, *n),
        Json::Float(bits) => write_float(*bits, out),
        Json::Str(s) => write_string(s.as_str(), out),
        Json::Arr(items) => {
            proof {
                lemma_view_arr(*items);
            }
            if items.len() == 0 {
                out.push('[');
                out.push(']');
                assert(out@ =~= before + seq!['[', ']']);
                return;
            }
            out.push('[');
            let ghost open = before + seq!['['];
            let inner: String = inner_line(line, Ghost(indent));
            let mut i: usize = 0;
            assert(out@ =~= open + written_items(v@, 0, indent));
            while i < items.len()
                invariant
                    i <= items@.len(),
                    v == Json::Arr(*items),
                    v@ == Doc::Arr(docs(items@)),
                    inner@ == line_start(deeper(indent)),
                    out@ == open + written_items(v@, i as nat, indent),
                decreases items@.len() - i,
            {
                let ghost prefix = out@;
                if i > 0 {
                    out.push(',');
                }
                out.append(inner.as_str());
                assert(decreases_to!(v => v->Arr_0));
                assert(decreases_to!(items => items@));
                assert(decreases_to!(items@ => items@[i as int]));
                write_value(&items[i], inner.as_str(), Ghost(deeper(indent)), out);
                i = i + 1;
                assert(out@ =~= open + written_items(v@, i as nat, indent));
            }
            out.append(line);
            out.push(']');
            assert(out@ =~= before + written(v@, indent));
        },
        Json::Obj(ms) => {
            proof {
                lemma_view_obj(*ms);
            }
            if ms.len() == 0 {
                out.push('{');
                out.push('}');
                assert(out@ =~= before + seq!['{', '}']);
                return;
            }
            out.push('{');
            let ghost open = before + seq!['{'];
            let inner: String = inner_line(line, Ghost(indent));
            let mut i: usize = 0;
            assert(out@ =~= open + written_members(v@, 0, indent));
            while i < ms.len()
                invariant
                    i <= ms@.len(),
                    v == Json::Obj(*ms),
                    v@ == Doc::Obj(members_of(ms@)),
                    line@ == line_start(indent),
                    inner@ == line_start(deeper(indent)),
                    out@ == open + written_members(v@, i as nat, indent),
                decreases ms@.len() - i,
            {
                let ghost prefix = out@;
                if i > 0 {
                    out.push(',');
                }
                out.append(inner.as_str());
                write_string(ms[i].0.as_str(), out);
                out.push(':');
                if !line.is_empty() {
                    out.push(' ');
                }
                assert(decreases_to!(v => v->Obj_0));
                assert(decreases_to!(ms => ms@));
                assert(decreases_to!(ms@ => ms@[i as int]));
                assert(decreases_to!(ms@[i as int] => ms@[i as int].1));
                write_value(&ms[i].1, inner.as_str(), Ghost(deeper(indent)), out);
                i = i + 1;
                assert(out@ =~= open + written_members(v@, i as nat, indent));
            }
            out.append(line);
            out.push('}');
            assert(out@ =~= before + written(v@, indent));
        },
    }
}

/// The text that opens a line one level further in.
fn inner_line(line: &str, Ghost(indent): Ghost<Option<nat>>) -> (r: String)
    requires
        line@ == line_start(indent),
    ensures
        r@ == line_start(deeper(indent)),
{
    let mut r: String = line.to_owned();
    if !line.is_empty() {
        r.push(' ');
        r.push(' ');
    }
    assert(r@ =~= line_start(deeper(indent)));
    r
}

// ---------------------------------------------------------------------------
// Public operations
// ---------------------------------------------------------------------------

/// The first member of an object with a given key.
pub open spec fn member(v: Doc, key: Seq<char>) -> Option<Doc> {
    match v {
        Doc::Obj(ms) => first_member(ms, key, 0),
        _ => None,
    }
}

pub open spec fn first_member(ms: Seq<(Seq<char>, Doc)>, key: Seq<char>, from: int) -> Option<Doc>
    decreases ms.len() - from,
{
    if !(0 <= from < ms.len()) {
        None
    } else if ms[from].0 == key {
        Some(ms[from].1)
    } else {
        first_member(ms, key, from + 1)
    }
}

impl Json {
    /// Parse a complete JSON document. Trailing whitespace is allowed,
    /// trailing garbage is not.
    pub fn parse(input: &[u8]) -> (r: Result<Json, JsonError>)
        ensures
            parse_doc(input@) == match r {
                Ok(v) => Ok::<Doc, (Seq<char>, int)>(v@),
                Err(e) => Err((e.msg@, e.offset as int)),
            },
    {
        let n: usize = input.len();
        let mut p = Parser { b: input, pos: 0 };
        assert(p.inv() && n == input@.len());
        p.skip_ws();
        let v: Json = match p.value(0) {
            Ok(v) => v,
            Err(e) => {
                return Err(e);
            },
        };
        p.skip_ws();
        if p.pos != n {
            return Err(p.err("trailing data after JSON document"));
        }
        Ok(v)
    }

    /// Object member lookup (first match); `None` on non-objects.
    pub fn get(&self, key: &str) -> (r: Option<&Json>)
        ensures
            member(self@, key@) == match r {
                Some(v) => Some(v@),
                None => None,
            },
    {
        match self {
            Json::Obj(ms) => {
                proof {
                    lemma_view_obj(*ms);
                }
                let mut i: usize = 0;
                while i < ms.len()
                    invariant
                        i <= ms@.len(),
                        self@ == Doc::Obj(members_of(ms@)),
                        first_member(members_of(ms@), key@, i as int) == member(self@, key@),
                    decreases ms@.len() - i,
                {
                    if same(ms[i].0.as_str(), key) {
                        return Some(&ms[i].1);
                    }
                    i = i + 1;
                }
                None
            },
            _ => None,
        }
    }

    pub fn as_str(&self) -> (r: Option<&str>)
        ensures
            match r {
                Some(s) => self@ == Doc::Str(s@),
                None => !(self@ is Str),
            },
    {
        match self {
            Json::Str(s) => Some(s.as_str()),
            _ => None,
        }
    }

    pub fn as_int(&self) -> (r: Option<i128>)
        ensures
            match r {
                Some(n) => self@ == Doc::Int(n as int),
                None => !(self@ is Int),
            },
    {
        match self {
            Json::Int(n) => Some(*n),
            _ => None,
        }
    }

    pub fn as_arr(&self) -> (r: Option<&[Json]>)
        ensures
            match r {
                Some(items) => self@ == Doc::Arr(docs(items@)),
                None => !(self@ is Arr),
            },
    {
        match self {
            Json::Arr(items) => {
                proof {
                    lemma_view_arr(*items);
                }
                Some(items.as_slice())
            },
            _ => None,
        }
    }

    /// Serialize with 2-space indentation and a trailing newline-free string.
    pub fn pretty(&self) -> (r: String)
        ensures
            r@ == written(self@, Some(0)),
    {
        let mut out: String = String::new();
        let mut line: String = String::new();
        line.push('\n');
        assert(line@ =~= line_start(Some(0)));
        write_value(self, line.as_str(), Ghost(Some(0nat)), &mut out);
        assert(out@ =~= written(self@, Some(0)));
        out
    }

    /// Serialize on a single line with no optional whitespace.
    pub fn compact(&self) -> (r: String)
        ensures
            r@ == written(self@, None),
    {
        let mut out: String = String::new();
        let line: String = String::new();
        assert(line@ =~= line_start(None));
        write_value(self, line.as_str(), Ghost(None), &mut out);
        assert(out@ =~= written(self@, None));
        out
    }
}

impl JsonError {
    /// The message and the byte offset, on one line.
    pub fn to_string(&self) -> (r: String)
        ensures
            r@ == self.msg@ + " at byte "@ + dec(self.offset as nat),
    {
        let mut s: String = self.msg.clone();
        s.append(" at byte ");
        put_dec(&mut s, self.offset as u128);
        s
    }
}

} // verus!
