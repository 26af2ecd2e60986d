//! What JSON text means, however it is laid out: escapes, numbers, and white
//! space wherever it may stand.

use vstd::prelude::*;
use vstd::utf8::*;
use crate::float::{decimal_double, digit_bytes_value, is_digit_byte};
use crate::json::{chars_from, digit_at, digits_end, escape_at, hex_digit, hex_from, items_from, members_from, number_at, parse_doc, skip_ws, value_at, Doc};
use crate::laws::json_text::{digit_bytes, lemma_digits_run, lemma_plain_char};
use crate::laws::layout::{lemma_occurs_index, lemma_occurs_part, lemma_occurs_split, occurs};

verus! {

// ---------------------------------------------------------------------------
// Strings
// ---------------------------------------------------------------------------

/// The escape at `pos`, behind the backslash, stands for `c` and ends at `end`.
pub open spec fn stands_for(b: Seq<u8>, pos: int, c: char, end: int) -> bool {
    escape_at(b, pos) == Ok::<(char, int), (Seq<char>, int)>((c, end))
}

/// What the escapes of one letter stand for.
pub proof fn law_short_escapes(b: Seq<u8>, pos: int)
    requires
        0 <= pos < b.len(),
    ensures
        b[pos] == 0x22 ==> stands_for(b, pos, '"', pos + 1),
        b[pos] == 0x5c ==> stands_for(b, pos, '\\', pos + 1),
        b[pos] == 0x2f ==> stands_for(b, pos, '/', pos + 1),
        b[pos] == 0x62 ==> stands_for(b, pos, '\u{8}', pos + 1),
        b[pos] == 0x66 ==> stands_for(b, pos, '\u{c}', pos + 1),
        b[pos] == 0x6e ==> stands_for(b, pos, '\u{a}', pos + 1),
        b[pos] == 0x72 ==> stands_for(b, pos, '\u{d}', pos + 1),
        b[pos] == 0x74 ==> stands_for(b, pos, '\u{9}', pos + 1),
        escape_at(b, pos) is Ok ==> b[pos] == 0x22 || b[pos] == 0x5c || b[pos] == 0x2f || b[pos]
            == 0x62 || b[pos] == 0x66 || b[pos] == 0x6e || b[pos] == 0x72 || b[pos] == 0x74
            || b[pos] == 0x75,
{
}

/// A hexadecimal digit, in small or in capital letters.
pub open spec fn is_hex(c: u8, v: nat) -> bool {
    ||| v < 10 && c == 0x30 + v
    ||| 10 <= v < 16 && (c == 0x61 + (v - 10) || c == 0x41 + (v - 10))
}

/// Four hexadecimal digits at `pos`, worth `n`.
pub open spec fn hex_digits(b: Seq<u8>, pos: int, n: nat) -> bool {
    &&& 0 <= pos
    &&& pos + 4 <= b.len()
    &&& n < 0x1_0000
    &&& is_hex(b[pos], n / 0x1000)
    &&& is_hex(b[pos + 1], (n / 0x100) % 16)
    &&& is_hex(b[pos + 2], (n / 0x10) % 16)
    &&& is_hex(b[pos + 3], n % 16)
}

proof fn lemma_hex(b: Seq<u8>, pos: int, n: nat)
    requires
        hex_digits(b, pos, n),
    ensures
        hex_from(b, pos, 4, 0) == Ok::<nat, (Seq<char>, int)>(n),
{
    reveal_with_fuel(hex_from, 5);
    let d1 = n / 0x1000;
    let d2 = (n / 0x100) % 16;
    let d3 = (n / 0x10) % 16;
    let d4 = n % 16;
    assert(n == ((d1 * 16 + d2) * 16 + d3) * 16 + d4);
    assert(hex_digit(b[pos]) == Some(d1));
    assert(hex_digit(b[pos + 1]) == Some(d2));
    assert(hex_digit(b[pos + 2]) == Some(d3));
    assert(hex_digit(b[pos + 3]) == Some(d4));
    assert(pos + 1 + 1 == pos + 2);
    assert(pos + 1 + 1 + 1 == pos + 3);
}

/// A four-digit escape stands for the character with that number; a character
/// beyond them takes two, which hold ten bits each.
pub proof fn law_unicode_escapes(b: Seq<u8>, pos: int, c: char)
    requires
        0 <= pos < b.len(),
        b[pos] == 0x75,
    ensures
        c as nat <= 0xffff && hex_digits(b, pos + 1, c as nat) ==> stands_for(b, pos, c, pos + 5),
        c as nat > 0xffff && hex_digits(b, pos + 1, 0xd800 + (c as nat - 0x1_0000) as nat / 0x400)
            && pos + 7 <= b.len() && b[pos + 5] == 0x5c && b[pos + 6] == 0x75 && hex_digits(
            b,
            pos + 7,
            0xdc00 + (c as nat - 0x1_0000) as nat % 0x400,
        ) ==> stands_for(b, pos, c, pos + 11),
{
    let n = c as nat;
    assert(n < 0xd800 || 0xdfff < n <= 0x10ffff);
    if n <= 0xffff {
        if hex_digits(b, pos + 1, n) {
            lemma_hex(b, pos + 1, n);
            assert(n as char == c);
        }
    } else {
        let r = (n - 0x1_0000) as nat;
        let hi = 0xd800 + r / 0x400;
        let lo = 0xdc00 + r % 0x400;
        assert(r / 0x400 < 0x400 && r % 0x400 < 0x400);
        if hex_digits(b, pos + 1, hi) && hex_digits(b, pos + 7, lo) {
            lemma_hex(b, pos + 1, hi);
            lemma_hex(b, pos + 7, lo);
            assert(0x10000 + (hi - 0xd800) * 1024 + (lo - 0xdc00) == n);
        }
    }
}

/// Half of a pair stands for nothing.
pub proof fn law_lone_surrogates_are_refused(b: Seq<u8>, pos: int, n: nat)
    requires
        0 <= pos < b.len(),
        b[pos] == 0x75,
        hex_digits(b, pos + 1, n),
    ensures
        0xdc00 <= n <= 0xdfff ==> escape_at(b, pos) == Err::<(char, int), (Seq<char>, int)>(
            ("lone low surrogate"@, pos + 5),
        ),
        0xd800 <= n <= 0xdbff && !(pos + 5 < b.len() && b[pos + 5] == 0x5c) ==> escape_at(b, pos)
            == Err::<(char, int), (Seq<char>, int)>(("lone high surrogate"@, pos + 5)),
{
    lemma_hex(b, pos + 1, n);
}

/// In a string every character from the blank on stands for itself, the quote
/// and the backslash excepted; the quote ends it.
pub proof fn law_plain_characters(b: Seq<u8>, pos: int, c: char, acc: Seq<char>)
    ensures
        occurs(b, pos, encode_utf8(seq![c])) && c as nat >= 0x20 && c != '"' && c != '\\'
            ==> chars_from(b, pos, acc) == chars_from(
            b,
            pos + encode_utf8(seq![c]).len(),
            acc.push(c),
        ),
        0 <= pos < b.len() && b[pos] == 0x22 ==> chars_from(b, pos, acc) == Ok::<
            (Seq<char>, int),
            (Seq<char>, int),
        >((acc, pos + 1)),
        0 <= pos < b.len() && b[pos] < 0x20 ==> chars_from(b, pos, acc) == Err::<
            (Seq<char>, int),
            (Seq<char>, int),
        >(("raw control character in string"@, pos + 1)),
{
    if occurs(b, pos, encode_utf8(seq![c])) && c as nat >= 0x20 && c != '"' && c != '\\' {
        lemma_plain_char(b, pos, c, acc);
    }
}

/// An escape adds the character it stands for.
pub proof fn law_escapes_in_strings(b: Seq<u8>, pos: int, c: char, end: int, acc: Seq<char>)
    requires
        0 <= pos < b.len(),
        b[pos] == 0x5c,
        stands_for(b, pos + 1, c, end),
    ensures
        chars_from(b, pos, acc) == chars_from(b, end, acc.push(c)),
{
    crate::json::lemma_escape_progress(b, pos + 1);
}

// ---------------------------------------------------------------------------
// Numbers
// ---------------------------------------------------------------------------

pub open spec fn sign_bytes(neg: bool) -> Seq<u8> {
    if neg {
        seq![0x2d]
    } else {
        seq![]
    }
}

/// The digits behind the point, where there are any.
pub open spec fn point_bytes(frac: Seq<u8>) -> Seq<u8> {
    if frac.len() > 0 {
        seq![0x2eu8] + frac
    } else {
        seq![]
    }
}

/// How an exponent is written.
pub ghost struct Exponent {
    pub capital: bool,
    pub plus: bool,
    pub minus: bool,
    pub digits: Seq<u8>,
}

pub open spec fn exponent_bytes(e: Exponent) -> Seq<u8> {
    seq![
        if e.capital {
            0x45u8
        } else {
            0x65u8
        },
    ] + ((if e.minus {
        seq![0x2du8]
    } else if e.plus {
        seq![0x2bu8]
    } else {
        seq![]
    }) + e.digits)
}

pub open spec fn exponent_value(e: Exponent) -> int {
    if e.minus {
        -(digit_bytes_value(e.digits) as int)
    } else {
        digit_bytes_value(e.digits) as int
    }
}

/// Digits of which the first is not a needless zero.
pub open spec fn whole_digits(s: Seq<u8>) -> bool {
    digit_bytes(s) && s.len() > 0 && (s[0] == 0x30 ==> s.len() == 1)
}

/// The text at `end` does not go on with the number.
pub open spec fn ends(b: Seq<u8>, end: int) -> bool {
    end >= b.len() || !(is_digit_byte(b[end]) || b[end] == 0x2e || b[end] == 0x65 || b[end] == 0x45)
}

/// A number without point and exponent is the integer its digits say, if it
/// fits in 128 bits.
pub proof fn law_whole_numbers(b: Seq<u8>, pos: int, neg: bool, whole: Seq<u8>)
    requires
        whole_digits(whole),
        occurs(b, pos, sign_bytes(neg) + whole),
        ends(b, pos + sign_bytes(neg).len() + whole.len()),
    ensures
        ({
            let m = digit_bytes_value(whole) as int;
            let n = if neg {
                -m
            } else {
                m
            };
            i128::MIN <= n <= i128::MAX ==> number_at(b, pos) == Ok::<
                (Doc, int),
                (Seq<char>, int),
            >((Doc::Int(n), pos + sign_bytes(neg).len() + whole.len()))
        }),
{
    let first = pos + sign_bytes(neg).len();
    lemma_occurs_split(b, pos, sign_bytes(neg), whole);
    if neg {
        lemma_occurs_index(b, pos, sign_bytes(neg), 0);
    }
    lemma_occurs_index(b, first, whole, 0);
    assert(is_digit_byte(whole[0]));
    lemma_digits_run(b, first, whole);
    if whole.len() > 1 {
        lemma_occurs_index(b, first, whole, 1);
    }
}

proof fn lemma_after_whole(b: Seq<u8>, first: int, whole: Seq<u8>, rest: Seq<u8>)
    requires
        whole_digits(whole),
        occurs(b, first, whole + rest),
        rest.len() > 0,
        !is_digit_byte(rest[0]),
    ensures
        digit_at(b, first),
        !(b[first] == 0x30 && digit_at(b, first + 1)),
        digits_end(b, first) == first + whole.len(),
        b.subrange(first, first + whole.len()) == whole,
        occurs(b, first + whole.len(), rest),
{
    lemma_occurs_split(b, first, whole, rest);
    lemma_occurs_index(b, first, whole, 0);
    assert(is_digit_byte(whole[0]));
    lemma_occurs_index(b, first + whole.len(), rest, 0);
    lemma_digits_run(b, first, whole);
    if whole.len() > 1 {
        lemma_occurs_index(b, first, whole, 1);
    }
}

/// A number with a point is the double nearest to its digits, scaled down by
/// as many tens as digits stand behind the point.
pub proof fn law_decimal_fractions(b: Seq<u8>, pos: int, neg: bool, whole: Seq<u8>, frac: Seq<u8>)
    requires
        whole_digits(whole),
        digit_bytes(frac),
        frac.len() > 0,
        occurs(b, pos, sign_bytes(neg) + (whole + point_bytes(frac))),
        ends(b, pos + sign_bytes(neg).len() + whole.len() + 1 + frac.len()),
    ensures
        number_at(b, pos) == Ok::<(Doc, int), (Seq<char>, int)>(
            (
                Doc::Float(decimal_double(neg, digit_bytes_value(whole + frac), -(frac.len() as int))),
                pos + sign_bytes(neg).len() + whole.len() + 1 + frac.len(),
            ),
        ),
{
    let first = pos + sign_bytes(neg).len();
    lemma_occurs_split(b, pos, sign_bytes(neg), whole + point_bytes(frac));
    if neg {
        lemma_occurs_index(b, pos, sign_bytes(neg), 0);
    }
    lemma_after_whole(b, first, whole, point_bytes(frac));
    let w = first + whole.len();
    lemma_occurs_split(b, w, seq![0x2eu8], frac);
    lemma_occurs_index(b, w, seq![0x2eu8], 0);
    lemma_occurs_index(b, w + 1, frac, 0);
    assert(is_digit_byte(frac[0]));
    lemma_digits_run(b, w + 1, frac);
    assert(b.subrange(w + 1, w + 1 + frac.len()) == frac);
}

/// With an exponent, it is scaled by that many tens more.
#[verifier::rlimit(40)]
pub proof fn law_exponents(
    b: Seq<u8>,
    pos: int,
    neg: bool,
    whole: Seq<u8>,
    frac: Seq<u8>,
    e: Exponent,
)
    requires
        whole_digits(whole),
        digit_bytes(frac),
        digit_bytes(e.digits),
        e.digits.len() > 0,
        occurs(b, pos, sign_bytes(neg) + (whole + (point_bytes(frac) + exponent_bytes(e)))),
        ends(
            b,
            pos + sign_bytes(neg).len() + whole.len() + point_bytes(frac).len() + exponent_bytes(
                e,
            ).len(),
        ),
    ensures
        number_at(b, pos) == Ok::<(Doc, int), (Seq<char>, int)>(
            (
                Doc::Float(
                    decimal_double(
                        neg,
                        digit_bytes_value(whole + frac),
                        exponent_value(e) - frac.len(),
                    ),
                ),
                pos + sign_bytes(neg).len() + whole.len() + point_bytes(frac).len()
                    + exponent_bytes(e).len(),
            ),
        ),
{
    let first = pos + sign_bytes(neg).len();
    let tail = point_bytes(frac) + exponent_bytes(e);
    lemma_occurs_split(b, pos, sign_bytes(neg), whole + tail);
    if neg {
        lemma_occurs_index(b, pos, sign_bytes(neg), 0);
    }
    lemma_after_whole(b, first, whole, tail);
    let w = first + whole.len();
    lemma_occurs_split(b, w, point_bytes(frac), exponent_bytes(e));
    let f = w + point_bytes(frac).len();
    let x = exponent_bytes(e);
    lemma_occurs_index(b, f, x, 0);
    if frac.len() > 0 {
        lemma_occurs_split(b, w, seq![0x2eu8], frac);
        lemma_occurs_index(b, w, seq![0x2eu8], 0);
        lemma_occurs_index(b, w + 1, frac, 0);
        assert(is_digit_byte(frac[0]));
        lemma_digits_run(b, w + 1, frac);
        assert(b.subrange(w + 1, w + 1 + frac.len()) == frac);
    } else {
        assert(whole + frac =~= whole);
        assert(frac =~= seq![]);
    }
    lemma_exponent(b, f, e);
}

proof fn lemma_exponent(b: Seq<u8>, f: int, e: Exponent)
    requires
        digit_bytes(e.digits),
        e.digits.len() > 0,
        occurs(b, f, exponent_bytes(e)),
        ends(b, f + exponent_bytes(e).len()),
    ensures
        b[f] == 0x65 || b[f] == 0x45,
        ({
            let sign: int = if e.minus || e.plus {
                f + 2
            } else {
                f + 1
            };
            &&& e.minus ==> b[f + 1] == 0x2d
            &&& !e.minus && e.plus ==> b[f + 1] == 0x2b
            &&& !e.minus && !e.plus ==> is_digit_byte(b[f + 1])
            &&& digit_at(b, sign)
            &&& digits_end(b, sign) == f + exponent_bytes(e).len()
            &&& b.subrange(sign, f + exponent_bytes(e).len()) == e.digits
        }),
{
    let x = exponent_bytes(e);
    let n = x.len() - e.digits.len();
    lemma_occurs_index(b, f, x, 0);
    lemma_occurs_index(b, f, x, 1);
    lemma_occurs_part(b, f, x, n as int, x.len() as int);
    assert(x.subrange(n as int, x.len() as int) =~= e.digits);
    let sign = f + n;
    lemma_occurs_index(b, sign, e.digits, 0);
    assert(is_digit_byte(e.digits[0]));
    lemma_digits_run(b, sign, e.digits);
}

// ---------------------------------------------------------------------------
// Arrays and objects
// ---------------------------------------------------------------------------

/// Nothing but blanks, tabs and line ends between `from` and `to`.
pub open spec fn blank(b: Seq<u8>, from: int, to: int) -> bool {
    &&& 0 <= from <= to <= b.len()
    &&& forall|i: int|
        from <= i < to ==> #[trigger] b[i] == 0x20 || b[i] == 0x09 || b[i] == 0x0a || b[i] == 0x0d
}

/// A byte that is not white space.
pub open spec fn dark(b: Seq<u8>, at: int) -> bool {
    at >= b.len() || (0 <= at && b[at] != 0x20 && b[at] != 0x09 && b[at] != 0x0a && b[at] != 0x0d)
}

pub proof fn lemma_blank(b: Seq<u8>, from: int, to: int)
    requires
        blank(b, from, to),
        dark(b, to),
    ensures
        skip_ws(b, from) == to,
    decreases to - from,
{
    if from < to {
        assert(b[from] == 0x20 || b[from] == 0x09 || b[from] == 0x0a || b[from] == 0x0d);
        lemma_blank(b, from + 1, to);
    }
}

/// A value begins with something that is not white space.
proof fn lemma_value_dark(b: Seq<u8>, at: int, depth: int)
    requires
        value_at(b, at, depth) is Ok,
    ensures
        0 <= at < b.len(),
        dark(b, at),
        b[at] != 0x5d,
        b[at] != 0x7d,
{
}

/// The values `vs` stand from `starts[i]` to `ends[i]`, separated by commas
/// with any white space around them; `close` is where the last is followed by
/// `end`.
pub open spec fn listed(
    b: Seq<u8>,
    depth: int,
    starts: Seq<int>,
    stops: Seq<int>,
    commas: Seq<int>,
    vs: Seq<Doc>,
    close: int,
    end: u8,
) -> bool {
    &&& vs.len() > 0
    &&& starts.len() == vs.len()
    &&& stops.len() == vs.len()
    &&& commas.len() == vs.len()
    &&& commas.last() == close
    &&& 0 <= close < b.len()
    &&& b[close] == end
    &&& forall|i: int|
        0 <= i < vs.len() ==> value_at(b, #[trigger] starts[i], depth) == Ok::<
            (Doc, int),
            (Seq<char>, int),
        >((vs[i], stops[i]))
    &&& forall|i: int| 0 <= i < vs.len() ==> blank(b, #[trigger] stops[i], commas[i])
    &&& forall|i: int|
        0 <= i < vs.len() - 1 ==> #[trigger] commas[i] < b.len() && b[commas[i]] == 0x2c && blank(
            b,
            commas[i] + 1,
            starts[i + 1],
        )
}

proof fn lemma_items(
    b: Seq<u8>,
    from: int,
    depth: int,
    starts: Seq<int>,
    stops: Seq<int>,
    commas: Seq<int>,
    vs: Seq<Doc>,
    close: int,
    i: int,
)
    requires
        listed(b, depth + 1, starts, stops, commas, vs, close, 0x5d),
        0 <= i < vs.len(),
        blank(b, from, starts[i]),
    ensures
        items_from(b, from, depth, vs.take(i)) == Ok::<(Doc, int), (Seq<char>, int)>(
            (Doc::Arr(vs), close + 1),
        ),
    decreases vs.len() - i,
{
    assert(value_at(b, starts[i], depth + 1) == Ok::<(Doc, int), (Seq<char>, int)>(
        (vs[i], stops[i]),
    ));
    lemma_value_dark(b, starts[i], depth + 1);
    lemma_blank(b, from, starts[i]);
    assert(blank(b, stops[i], commas[i]));
    assert(vs.take(i).push(vs[i]) =~= vs.take(i + 1));
    crate::json::lemma_value_progress(b, starts[i], depth + 1);
    if i == vs.len() - 1 {
        lemma_blank(b, stops[i], commas[i]);
        assert(vs.take(i + 1) =~= vs);
    } else {
        assert(commas[i] < b.len() && b[commas[i]] == 0x2c);
        lemma_blank(b, stops[i], commas[i]);
        lemma_items(b, commas[i] + 1, depth, starts, stops, commas, vs, close, i + 1);
    }
}

/// An array is its values in order, wherever white space stands between them;
/// and one without any is empty.
pub proof fn law_arrays(
    b: Seq<u8>,
    pos: int,
    depth: int,
    starts: Seq<int>,
    stops: Seq<int>,
    commas: Seq<int>,
    vs: Seq<Doc>,
    close: int,
)
    requires
        0 <= pos < b.len(),
        b[pos] == 0x5b,
        depth <= 128,
    ensures
        listed(b, depth + 1, starts, stops, commas, vs, close, 0x5d) && blank(
            b,
            pos + 1,
            starts[0],
        ) ==> value_at(b, pos, depth) == Ok::<(Doc, int), (Seq<char>, int)>(
            (Doc::Arr(vs), close + 1),
        ),
        blank(b, pos + 1, close) && close < b.len() && b[close] == 0x5d ==> value_at(b, pos, depth)
            == Ok::<(Doc, int), (Seq<char>, int)>((Doc::Arr(Seq::empty()), close + 1)),
{
    assert(Seq::<Doc>::empty() =~= seq![]);
    if listed(b, depth + 1, starts, stops, commas, vs, close, 0x5d) && blank(
        b,
        pos + 1,
        starts[0],
    ) {
        assert(value_at(b, starts[0], depth + 1) is Ok);
        lemma_value_dark(b, starts[0], depth + 1);
        lemma_blank(b, pos + 1, starts[0]);
        assert(vs.take(0) =~= seq![]);
        assert(blank(b, starts[0], starts[0]));
        lemma_items(b, starts[0], depth, starts, stops, commas, vs, close, 0);
    }
    if blank(b, pos + 1, close) && close < b.len() && b[close] == 0x5d {
        lemma_blank(b, pos + 1, close);
    }
}

/// The names of an object: each a string from `names[i]` to `ends[i]`, then a
/// colon, with any white space around it, and the value.
pub open spec fn named(
    b: Seq<u8>,
    names: Seq<int>,
    ends: Seq<int>,
    colons: Seq<int>,
    starts: Seq<int>,
    keys: Seq<Seq<char>>,
) -> bool {
    &&& names.len() == keys.len()
    &&& ends.len() == keys.len()
    &&& colons.len() == keys.len()
    &&& starts.len() == keys.len()
    &&& forall|i: int|
        0 <= i < keys.len() ==> {
            &&& 0 <= #[trigger] names[i] < b.len()
            &&& b[names[i]] == 0x22
            &&& chars_from(b, names[i] + 1, seq![]) == Ok::<(Seq<char>, int), (Seq<char>, int)>(
                (keys[i], ends[i]),
            )
            &&& blank(b, ends[i], colons[i])
            &&& colons[i] < b.len()
            &&& b[colons[i]] == 0x3a
            &&& blank(b, colons[i] + 1, starts[i])
        }
}

/// The same of the values of an object, each of which is followed by the next
/// name.
pub open spec fn followed(
    b: Seq<u8>,
    depth: int,
    names: Seq<int>,
    starts: Seq<int>,
    stops: Seq<int>,
    commas: Seq<int>,
    vs: Seq<Doc>,
    close: int,
) -> bool {
    &&& vs.len() > 0
    &&& names.len() == vs.len()
    &&& starts.len() == vs.len()
    &&& stops.len() == vs.len()
    &&& commas.len() == vs.len()
    &&& commas.last() == close
    &&& 0 <= close < b.len()
    &&& b[close] == 0x7d
    &&& forall|i: int|
        0 <= i < vs.len() ==> value_at(b, #[trigger] starts[i], depth) == Ok::<
            (Doc, int),
            (Seq<char>, int),
        >((vs[i], stops[i]))
    &&& forall|i: int| 0 <= i < vs.len() ==> blank(b, #[trigger] stops[i], commas[i])
    &&& forall|i: int|
        0 <= i < vs.len() - 1 ==> #[trigger] commas[i] < b.len() && b[commas[i]] == 0x2c && blank(
            b,
            commas[i] + 1,
            names[i + 1],
        )
}

pub open spec fn pairs(keys: Seq<Seq<char>>, vs: Seq<Doc>) -> Seq<(Seq<char>, Doc)> {
    Seq::new(vs.len(), |i: int| (keys[i], vs[i]))
}

proof fn lemma_members(
    b: Seq<u8>,
    from: int,
    depth: int,
    names: Seq<int>,
    ends: Seq<int>,
    colons: Seq<int>,
    starts: Seq<int>,
    stops: Seq<int>,
    commas: Seq<int>,
    keys: Seq<Seq<char>>,
    vs: Seq<Doc>,
    close: int,
    i: int,
)
    requires
        named(b, names, ends, colons, starts, keys),
        followed(b, depth + 1, names, starts, stops, commas, vs, close),
        0 <= i < vs.len(),
        blank(b, from, names[i]),
    ensures
        members_from(b, from, depth, pairs(keys, vs).take(i)) == Ok::<
            (Doc, int),
            (Seq<char>, int),
        >((Doc::Obj(pairs(keys, vs)), close + 1)),
    decreases vs.len() - i,
{
    let all = pairs(keys, vs);
    assert(0 <= names[i] < b.len() && b[names[i]] == 0x22);
    lemma_blank(b, from, names[i]);
    lemma_blank(b, ends[i], colons[i]);
    assert(value_at(b, starts[i], depth + 1) == Ok::<(Doc, int), (Seq<char>, int)>(
        (vs[i], stops[i]),
    ));
    lemma_value_dark(b, starts[i], depth + 1);
    lemma_blank(b, colons[i] + 1, starts[i]);
    assert(blank(b, stops[i], commas[i]));
    assert(all.take(i).push((keys[i], vs[i])) =~= all.take(i + 1));
    crate::json::lemma_value_progress(b, starts[i], depth + 1);
    crate::json::lemma_chars_progress(b, names[i] + 1, seq![]);
    if i == vs.len() - 1 {
        lemma_blank(b, stops[i], commas[i]);
        assert(all.take(i + 1) =~= all);
    } else {
        assert(commas[i] < b.len() && b[commas[i]] == 0x2c);
        lemma_blank(b, stops[i], commas[i]);
        lemma_members(
            b,
            commas[i] + 1,
            depth,
            names,
            ends,
            colons,
            starts,
            stops,
            commas,
            keys,
            vs,
            close,
            i + 1,
        );
    }
}

/// An object is its names and values in order, repeated names included,
/// wherever white space stands between them.
pub proof fn law_objects(
    b: Seq<u8>,
    pos: int,
    depth: int,
    names: Seq<int>,
    ends: Seq<int>,
    colons: Seq<int>,
    starts: Seq<int>,
    stops: Seq<int>,
    commas: Seq<int>,
    keys: Seq<Seq<char>>,
    vs: Seq<Doc>,
    close: int,
)
    requires
        0 <= pos < b.len(),
        b[pos] == 0x7b,
        depth <= 128,
    ensures
        named(b, names, ends, colons, starts, keys) && followed(
            b,
            depth + 1,
            names,
            starts,
            stops,
            commas,
            vs,
            close,
        ) && blank(b, pos + 1, names[0]) ==> value_at(b, pos, depth) == Ok::<
            (Doc, int),
            (Seq<char>, int),
        >((Doc::Obj(pairs(keys, vs)), close + 1)),
        blank(b, pos + 1, close) && close < b.len() && b[close] == 0x7d ==> value_at(b, pos, depth)
            == Ok::<(Doc, int), (Seq<char>, int)>((Doc::Obj(Seq::empty()), close + 1)),
{
    assert(Seq::<(Seq<char>, Doc)>::empty() =~= seq![]);
    if named(b, names, ends, colons, starts, keys) && followed(
        b,
        depth + 1,
        names,
        starts,
        stops,
        commas,
        vs,
        close,
    ) && blank(b, pos + 1, names[0]) {
        assert(0 <= names[0] < b.len() && b[names[0]] == 0x22);
        lemma_blank(b, pos + 1, names[0]);
        assert(pairs(keys, vs).take(0) =~= seq![]);
        assert(blank(b, names[0], names[0]));
        lemma_members(
            b,
            names[0],
            depth,
            names,
            ends,
            colons,
            starts,
            stops,
            commas,
            keys,
            vs,
            close,
            0,
        );
    }
    if blank(b, pos + 1, close) && close < b.len() && b[close] == 0x7d {
        lemma_blank(b, pos + 1, close);
    }
}

/// A document is one value with nothing but white space around it.
pub proof fn law_documents(b: Seq<u8>, start: int, v: Doc, stop: int)
    requires
        blank(b, 0, start),
        value_at(b, start, 0) == Ok::<(Doc, int), (Seq<char>, int)>((v, stop)),
        0 <= stop <= b.len(),
    ensures
        blank(b, stop, b.len() as int) ==> parse_doc(b) == Ok::<Doc, (Seq<char>, int)>(v),
        forall|at: int|
            blank(b, stop, at) && at < b.len() && #[trigger] dark(b, at) ==> parse_doc(b) == Err::<
                Doc,
                (Seq<char>, int),
            >(("trailing data after JSON document"@, at)),
{
    lemma_value_dark(b, start, 0);
    lemma_blank(b, 0, start);
    if blank(b, stop, b.len() as int) {
        lemma_blank(b, stop, b.len() as int);
    }
    assert forall|at: int| blank(b, stop, at) && at < b.len() && #[trigger] dark(b, at) implies
        parse_doc(b) == Err::<Doc, (Seq<char>, int)>(
        ("trailing data after JSON document"@, at),
    ) by {
        lemma_blank(b, stop, at);
    }
}

/// What a value is, by its first byte: the three words, and nothing deeper
/// than 128 levels.
pub proof fn law_words_and_depth(b: Seq<u8>, pos: int, depth: int)
    requires
        0 <= pos < b.len(),
        depth >= 0,
    ensures
        depth > 128 ==> value_at(b, pos, depth) == Err::<(Doc, int), (Seq<char>, int)>(
            ("nesting too deep"@, pos),
        ),
        depth <= 128 && occurs(b, pos, seq![0x6eu8, 0x75, 0x6c, 0x6c]) ==> value_at(b, pos, depth)
            == Ok::<(Doc, int), (Seq<char>, int)>((Doc::Null, pos + 4)),
        depth <= 128 && occurs(b, pos, seq![0x74u8, 0x72, 0x75, 0x65]) ==> value_at(b, pos, depth)
            == Ok::<(Doc, int), (Seq<char>, int)>((Doc::Bool(true), pos + 4)),
        depth <= 128 && occurs(b, pos, seq![0x66u8, 0x61, 0x6c, 0x73, 0x65]) ==> value_at(
            b,
            pos,
            depth,
        ) == Ok::<(Doc, int), (Seq<char>, int)>((Doc::Bool(false), pos + 5)),
        depth <= 128 && b[pos] == 0x22 ==> value_at(b, pos, depth) == match chars_from(
            b,
            pos + 1,
            seq![],
        ) {
            Ok((s, end)) => Ok((Doc::Str(s), end)),
            Err(e) => Err(e),
        },
        depth <= 128 && (b[pos] == 0x2d || is_digit_byte(b[pos])) ==> value_at(b, pos, depth)
            == number_at(b, pos),
{
    let n = seq![0x6eu8, 0x75, 0x6c, 0x6c];
    let t = seq![0x74u8, 0x72, 0x75, 0x65];
    let f = seq![0x66u8, 0x61, 0x6c, 0x73, 0x65];
    if occurs(b, pos, n) {
        lemma_occurs_index(b, pos, n, 0);
    }
    if occurs(b, pos, t) {
        lemma_occurs_index(b, pos, t, 0);
    }
    if occurs(b, pos, f) {
        lemma_occurs_index(b, pos, f, 0);
    }
}

/// What is no number: a sign without digits, a zero before other digits, a
/// point or an exponent without digits behind it.
pub proof fn law_bad_numbers(b: Seq<u8>, pos: int, neg: bool, whole: Seq<u8>)
    requires
        0 <= pos < b.len(),
    ensures
        b[pos] == 0x2d && !digit_at(b, pos + 1) ==> number_at(b, pos) == Err::<
            (Doc, int),
            (Seq<char>, int),
        >(("expected digit"@, pos + 1)),
        b[pos] == 0x30 && digit_at(b, pos + 1) ==> number_at(b, pos) == Err::<
            (Doc, int),
            (Seq<char>, int),
        >(("leading zero in number"@, pos + 1)),
        whole_digits(whole) && occurs(b, pos, whole + seq![0x2eu8]) && !digit_at(
            b,
            pos + whole.len() + 1,
        ) ==> number_at(b, pos) == Err::<(Doc, int), (Seq<char>, int)>(
            ("expected digit after '.'"@, pos + whole.len() + 1),
        ),
        whole_digits(whole) && occurs(b, pos, whole + seq![0x65u8]) && (pos + whole.len() + 1
            == b.len()) ==> number_at(b, pos) == Err::<(Doc, int), (Seq<char>, int)>(
            ("expected exponent digit"@, pos + whole.len() + 1),
        ),
{
    if whole_digits(whole) && occurs(b, pos, whole + seq![0x2eu8]) {
        lemma_after_whole(b, pos, whole, seq![0x2eu8]);
        lemma_occurs_index(b, pos + whole.len(), seq![0x2eu8], 0);
    }
    if whole_digits(whole) && occurs(b, pos, whole + seq![0x65u8]) {
        lemma_after_whole(b, pos, whole, seq![0x65u8]);
        lemma_occurs_index(b, pos + whole.len(), seq![0x65u8], 0);
    }
}

/// What can start no value.
pub proof fn law_bad_values(b: Seq<u8>, pos: int, depth: int)
    requires
        0 <= depth <= 128,
    ensures
        pos >= b.len() ==> value_at(b, pos, depth) == Err::<(Doc, int), (Seq<char>, int)>(
            ("unexpected end of input"@, pos),
        ),
        0 <= pos < b.len() && (b[pos] == 0x2c || b[pos] == 0x3a || b[pos] == 0x5d || b[pos] == 0x7d
            || b[pos] == 0x27 || b[pos] >= 0x80) ==> value_at(b, pos, depth) == Err::<
            (Doc, int),
            (Seq<char>, int),
        >(("unexpected character"@, pos)),
{
}

} // verus!
