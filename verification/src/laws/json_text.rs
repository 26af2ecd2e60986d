//! A serialized document is parsed back as the same document.

use vstd::prelude::*;
use vstd::utf8::*;
use crate::ascii::{COLON, COMMA, DOT, LBRACE, LBRACKET, LOWER_E, MINUS, QUOTE, RBRACE, RBRACKET, UPPER_E, ZERO};
use crate::bignat::{lemma_power_positive, power};
use crate::float::{decimal_den, decimal_double, decimal_num, digit_bytes_value, exponent, is_digit_byte, is_finite, is_negative, lemma_zero_digits_nearest, magnitude, nearest_bits, significand, INFINITY};
use crate::laws::decimals::{lemma_reads_back_nearest, lemma_shortest_exists};
use crate::shortest::{double_text, gap_below, lemma_unit_positive, magnitude_text, reads_back, shortest, unit_den, unit_num, zero_chars};
use crate::json::{byte_is, chars_from, deeper, digit_at, digits_end, escaped, escaped_all, float_text, hex_digit, hex_from, is_ws, items_from, line_start, literal_at, members_from, number_at, parse_doc, quoted, same_doc, skip_ws, utf8_width, value_at, written, written_items, written_members, Doc, MAX_DEPTH};
use crate::laws::layout::{ascii, lemma_encode_ascii, lemma_encode_concat, lemma_encode_one, lemma_occurs_index, lemma_occurs_part, lemma_occurs_split, occurs};
use crate::text::{dec, dec_int, digit};

verus! {

// ---------------------------------------------------------------------------
// Strings
// ---------------------------------------------------------------------------

proof fn lemma_escaped_front(s: Seq<char>)
    requires
        s.len() > 0,
    ensures
        escaped_all(s) == escaped(s[0]) + escaped_all(s.drop_first()),
    decreases s.len(),
{
    if s.len() == 1 {
        assert(s.drop_last() =~= seq![]);
        assert(s.drop_first() =~= seq![]);
        assert(escaped_all(s) =~= escaped(s[0]) + escaped_all(s.drop_first()));
    } else {
        lemma_escaped_front(s.drop_last());
        assert(s.drop_last().drop_first() =~= s.drop_first().drop_last());
        assert(s.drop_last()[0] == s[0]);
        assert(s.drop_first().last() == s.last());
        assert(escaped_all(s) =~= escaped(s[0]) + escaped_all(s.drop_first()));
    }
}

proof fn lemma_width_of_char(c: u32)
    by (bit_vector)
    ensures
        0x80 <= c <= 0x7ff ==> 0xc2u8 <= (0xC0u8 | ((c >> 6) & 0x1F) as u8) <= 0xdfu8,
        0x800 <= c <= 0xffff ==> 0xe0u8 <= (0xE0u8 | ((c >> 12) & 0x0F) as u8) <= 0xefu8,
        0x10000 <= c <= 0x10ffff ==> 0xf0u8 <= (0xF0u8 | ((c >> 18) & 0x7) as u8) <= 0xf4u8,
        c <= 0x7f ==> (c & 0x7F) as u8 == c as u8,
{
}

/// A character that needs no escape is read as itself.
pub proof fn lemma_plain_char(b: Seq<u8>, pos: int, c: char, acc: Seq<char>)
    requires
        occurs(b, pos, encode_utf8(seq![c])),
        c >= ' ',
        c != '"',
        c != '\\',
    ensures
        chars_from(b, pos, acc) == chars_from(
            b,
            pos + encode_utf8(seq![c]).len(),
            acc.push(c),
        ),
{
    let s = seq![c];
    let e = encode_utf8(s);
    let u = c as u32;
    char_is_scalar(c);
    lemma_width_of_char(u);
    assert(s.drop_first() =~= seq![]);
    assert(encode_utf8(s.drop_first()) =~= seq![]);
    assert(e =~= encode_scalar(u));
    encode_utf8_valid_utf8(s);
    encode_utf8_decode_utf8(s);
    lemma_occurs_index(b, pos, e, 0);
    assert(utf8_width(b[pos]) == Some(e.len() as int));
    assert(b.subrange(pos, pos + e.len()) == e);
    assert(acc + s =~= acc.push(c));
}

/// An escaped character is read as itself.
proof fn lemma_escaped_char(b: Seq<u8>, pos: int, c: char, acc: Seq<char>)
    requires
        occurs(b, pos, encode_utf8(escaped(c))),
    ensures
        chars_from(b, pos, acc) == chars_from(
            b,
            pos + encode_utf8(escaped(c)).len(),
            acc.push(c),
        ),
{
    let t = escaped(c);
    let e = encode_utf8(t);
    if c >= ' ' && c != '"' && c != '\\' {
        assert(t =~= seq![c]);
        lemma_plain_char(b, pos, c, acc);
    } else {
        assert(ascii(t));
        lemma_encode_ascii(t);
        assert forall|i: int| 0 <= i < t.len() implies #[trigger] b[pos + i] == t[i] as u8 by {
            lemma_occurs_index(b, pos, e, i);
        }
        assert(b[pos + 0] == t[0] as u8);
        assert(b[pos + 1] == t[1] as u8);
        if t.len() == 6 {
            reveal_with_fuel(hex_from, 5);
            assert(b[pos + 2] == t[2] as u8);
            assert(b[pos + 3] == t[3] as u8);
            assert(b[pos + 4] == t[4] as u8);
            assert(b[pos + 5] == t[5] as u8);
            assert(hex_digit(b[pos + 4]) == Some((c as int / 16) as nat));
            assert(hex_digit(b[pos + 5]) == Some((c as int % 16) as nat));
            assert(hex_from(b, pos + 2, 4, 0) == Ok::<nat, (Seq<char>, int)>(c as nat));
            assert(c as nat as char == c);
        }
    }
}

/// The inside of a string literal and its closing quote are read back.
proof fn lemma_string_inside(b: Seq<u8>, pos: int, s: Seq<char>, acc: Seq<char>)
    requires
        occurs(b, pos, encode_utf8(escaped_all(s)) + seq![QUOTE]),
    ensures
        chars_from(b, pos, acc) == Ok::<(Seq<char>, int), (Seq<char>, int)>(
            (acc + s, pos + encode_utf8(escaped_all(s)).len() + 1),
        ),
    decreases s.len(),
{
    let e = encode_utf8(escaped_all(s));
    lemma_occurs_split(b, pos, e, seq![QUOTE]);
    lemma_occurs_index(b, pos + e.len(), seq![QUOTE], 0);
    if s.len() == 0 {
        assert(e =~= seq![]);
        assert(acc + s =~= acc);
    } else {
        let rest = s.drop_first();
        lemma_escaped_front(s);
        lemma_encode_concat(escaped(s[0]), escaped_all(rest));
        let e0 = encode_utf8(escaped(s[0]));
        let e1 = encode_utf8(escaped_all(rest));
        assert(e + seq![QUOTE] =~= e0 + (e1 + seq![QUOTE]));
        lemma_occurs_split(b, pos, e0, e1 + seq![QUOTE]);
        lemma_escaped_char(b, pos, s[0], acc);
        lemma_string_inside(b, pos + e0.len(), rest, acc.push(s[0]));
        assert(acc.push(s[0]) + rest =~= acc + s);
    }
}

/// A string literal is read back, from its opening quote on.
proof fn lemma_string_back(b: Seq<u8>, pos: int, s: Seq<char>)
    requires
        occurs(b, pos, encode_utf8(quoted(s))),
    ensures
        byte_is(b, pos, QUOTE),
        chars_from(b, pos + 1, seq![]) == Ok::<(Seq<char>, int), (Seq<char>, int)>(
            (s, pos + encode_utf8(quoted(s)).len()),
        ),
{
    let e = encode_utf8(escaped_all(s));
    lemma_encode_one('"');
    lemma_encode_concat(seq!['"'] + escaped_all(s), seq!['"']);
    lemma_encode_concat(seq!['"'], escaped_all(s));
    assert(encode_utf8(quoted(s)) =~= seq![QUOTE] + (e + seq![QUOTE]));
    lemma_occurs_split(b, pos, seq![QUOTE], e + seq![QUOTE]);
    lemma_occurs_index(b, pos, seq![QUOTE], 0);
    lemma_string_inside(b, pos + 1, s, seq![]);
    assert(seq![] + s =~= s);
}

// ---------------------------------------------------------------------------
// Numbers
// ---------------------------------------------------------------------------

/// The value at `end` cannot be continued: the input ends there, or what
/// follows is no part of a number.
pub open spec fn delimited(b: Seq<u8>, end: int) -> bool {
    end == b.len() || (0 <= end < b.len() && !is_digit_byte(b[end]) && b[end] != DOT && b[end]
        != LOWER_E && b[end] != UPPER_E)
}

pub open spec fn digit_bytes(s: Seq<u8>) -> bool {
    forall|i: int| 0 <= i < s.len() ==> is_digit_byte(#[trigger] s[i])
}

/// A decimal number consists of digits, the first of which is not zero unless
/// it is the only one; and the digits are worth the number.
pub proof fn lemma_dec(n: nat)
    ensures
        dec(n).len() >= 1,
        ascii(dec(n)),
        digit_bytes(encode_utf8(dec(n))),
        encode_utf8(dec(n)).len() == dec(n).len(),
        digit_bytes_value(encode_utf8(dec(n))) == n,
        n > 0 ==> encode_utf8(dec(n))[0] != ZERO,
        n == 0 ==> dec(n).len() == 1,
    decreases n,
{
    let s = dec(n);
    if n < 10 {
        assert(ascii(s));
        lemma_encode_ascii(s);
        let e = encode_utf8(s);
        assert(e.drop_last() =~= seq![]);
        assert(digit_bytes_value(e) == digit_bytes_value(e.drop_last()) * 10 + (e.last() - 48));
    } else {
        lemma_dec(n / 10);
        let p = dec(n / 10);
        let c = digit((n % 10) as int);
        assert(s =~= p + seq![c]);
        lemma_encode_concat(p, seq![c]);
        lemma_encode_one(c);
        assert(ascii(s));
        lemma_encode_ascii(s);
        let e = encode_utf8(s);
        assert(e =~= encode_utf8(p).push(c as u8));
        assert(e.drop_last() =~= encode_utf8(p));
    }
}

/// A run of digits followed by something else ends where it ends.
pub proof fn lemma_digits_run(b: Seq<u8>, pos: int, s: Seq<u8>)
    requires
        occurs(b, pos, s),
        digit_bytes(s),
        !digit_at(b, pos + s.len()),
    ensures
        digits_end(b, pos) == pos + s.len(),
    decreases s.len(),
{
    if s.len() > 0 {
        lemma_occurs_index(b, pos, s, 0);
        assert(is_digit_byte(s[0]));
        lemma_occurs_part(b, pos, s, 1, s.len() as int);
        let t = s.subrange(1, s.len() as int);
        assert forall|i: int| 0 <= i < t.len() implies is_digit_byte(#[trigger] t[i]) by {
            assert(is_digit_byte(s[i + 1]));
        }
        lemma_digits_run(b, pos + 1, t);
    }
}

/// An integer is read back.
proof fn lemma_int_back(b: Seq<u8>, pos: int, n: int)
    requires
        occurs(b, pos, encode_utf8(dec_int(n))),
        delimited(b, pos + encode_utf8(dec_int(n)).len()),
        i128::MIN <= n <= i128::MAX,
    ensures
        byte_is(b, pos, MINUS) || digit_at(b, pos),
        number_at(b, pos) == Ok::<(Doc, int), (Seq<char>, int)>(
            (Doc::Int(n), pos + encode_utf8(dec_int(n)).len()),
        ),
{
    let m: nat = if n < 0 {
        (-n) as nat
    } else {
        n as nat
    };
    let e = encode_utf8(dec(m));
    lemma_dec(m);
    let first = if n < 0 {
        pos + 1
    } else {
        pos
    };
    if n < 0 {
        lemma_encode_concat(seq!['-'], dec(m));
        lemma_encode_one('-');
        lemma_occurs_split(b, pos, seq![MINUS], e);
        lemma_occurs_index(b, pos, seq![MINUS], 0);
    }
    lemma_occurs_index(b, first, e, 0);
    assert(is_digit_byte(e[0]));
    lemma_digits_run(b, first, e);
    if e.len() > 1 {
        lemma_occurs_index(b, first, e, 1);
    }
    assert(b.subrange(first, first + e.len()) == e);
}

/// A number with a decimal point is read as a double.
proof fn lemma_point_back(b: Seq<u8>, pos: int, neg: bool, w: Seq<u8>, f: Seq<u8>)
    requires
        occurs(
            b,
            pos,
            (if neg {
                seq![MINUS]
            } else {
                seq![]
            }) + (w + (seq![DOT] + f)),
        ),
        digit_bytes(w),
        digit_bytes(f),
        w.len() >= 1,
        f.len() >= 1,
        w[0] != ZERO || w.len() == 1,
        delimited(
            b,
            pos + (if neg {
                1int
            } else {
                0int
            }) + w.len() + 1 + f.len(),
        ),
    ensures
        byte_is(b, pos, MINUS) || digit_at(b, pos),
        number_at(b, pos) == Ok::<(Doc, int), (Seq<char>, int)>(
            (
                Doc::Float(decimal_double(neg, digit_bytes_value(w + f), -(f.len() as int))),
                pos + (if neg {
                    1int
                } else {
                    0int
                }) + w.len() + 1 + f.len(),
            ),
        ),
{
    let sign = if neg {
        seq![MINUS]
    } else {
        seq![]
    };
    let first = pos + sign.len();
    lemma_occurs_split(b, pos, sign, w + (seq![DOT] + f));
    if neg {
        lemma_occurs_index(b, pos, sign, 0);
    }
    lemma_occurs_split(b, first, w, seq![DOT] + f);
    let whole = first + w.len();
    lemma_occurs_split(b, whole, seq![DOT], f);
    lemma_occurs_index(b, whole, seq![DOT], 0);
    lemma_occurs_index(b, first, w, 0);
    lemma_occurs_index(b, whole + 1, f, 0);
    assert(is_digit_byte(w[0]) && is_digit_byte(f[0]));
    lemma_digits_run(b, first, w);
    if w.len() > 1 {
        lemma_occurs_index(b, first, w, 1);
    }
    lemma_digits_run(b, whole + 1, f);
    assert(b.subrange(first, whole) == w);
    assert(b.subrange(whole + 1, whole + 1 + f.len()) == f);
}

/// `n` zero digits.
spec fn zero_bytes(n: nat) -> Seq<u8> {
    Seq::new(n, |i: int| ZERO)
}

proof fn lemma_zero_chars(n: nat)
    ensures
        ascii(zero_chars(n)),
        encode_utf8(zero_chars(n)) == zero_bytes(n),
{
    lemma_encode_ascii(zero_chars(n));
    assert(encode_utf8(zero_chars(n)) =~= zero_bytes(n));
}

proof fn lemma_trailing_zeros(s: Seq<u8>, n: nat)
    ensures
        digit_bytes_value(s + zero_bytes(n)) == digit_bytes_value(s) * power(10, n),
    decreases n,
{
    if n == 0 {
        assert(s + zero_bytes(0) =~= s);
        assert(digit_bytes_value(s) * power(10, 0) == digit_bytes_value(s)) by (nonlinear_arith)
            requires
                power(10, 0) == 1,
        ;
    } else {
        let t = s + zero_bytes(n);
        lemma_trailing_zeros(s, (n - 1) as nat);
        assert(t.drop_last() =~= s + zero_bytes((n - 1) as nat));
        let v = digit_bytes_value(s);
        let p = power(10, (n - 1) as nat);
        assert((v * p) * 10 == v * (10 * p)) by (nonlinear_arith);
    }
}

proof fn lemma_leading_zeros(n: nat, s: Seq<u8>)
    ensures
        digit_bytes_value(zero_bytes(n) + s) == digit_bytes_value(s),
    decreases s.len(), n,
{
    if s.len() == 0 {
        assert(zero_bytes(n) + s =~= zero_bytes(n));
        if n > 0 {
            assert(zero_bytes(n).drop_last() =~= zero_bytes((n - 1) as nat));
            lemma_leading_zeros((n - 1) as nat, s);
            assert(zero_bytes((n - 1) as nat) + s =~= zero_bytes((n - 1) as nat));
        }
    } else {
        lemma_leading_zeros(n, s.drop_last());
        assert((zero_bytes(n) + s).drop_last() =~= zero_bytes(n) + s.drop_last());
        assert((zero_bytes(n) + s).last() == s.last());
    }
}

/// The digits before and after the point of a magnitude's text.
spec fn parts(mag: u64) -> (Seq<char>, Seq<char>) {
    if mag == 0 {
        (seq!['0'], seq!['0'])
    } else {
        let d = shortest(significand(mag), exponent(mag));
        let digits = dec(d.0);
        let n = digits.len() as int;
        let q = d.1;
        if q >= 0 {
            (digits + zero_chars(q as nat), seq!['0'])
        } else if n + q > 0 {
            (digits.take(n + q), digits.skip(n + q))
        } else {
            (seq!['0'], zero_chars((-q - n) as nat) + digits)
        }
    }
}

proof fn lemma_no_point(s: Seq<char>)
    requires
        forall|i: int| 0 <= i < s.len() ==> '0' <= #[trigger] s[i] <= '9',
    ensures
        !s.contains('.'),
{
    if s.contains('.') {
        let i = choose|i: int| 0 <= i < s.len() && s[i] == '.';
        assert('0' <= s[i]);
    }
}

proof fn lemma_dec_chars(n: nat)
    ensures
        forall|i: int| 0 <= i < dec(n).len() ==> '0' <= #[trigger] dec(n)[i] <= '9',
    decreases n,
{
    if n >= 10 {
        let p = dec(n / 10);
        lemma_dec_chars(n / 10);
        assert forall|i: int| 0 <= i < dec(n).len() implies '0' <= #[trigger] dec(n)[i] <= '9' by {
            if i < p.len() {
                assert(dec(n)[i] == p[i]);
            }
        }
    }
}

/// The text of a double is its sign, digits, a point and digits.
proof fn lemma_float_parts(bits: u64)
    requires
        is_finite(bits),
    ensures
        ({
            let (w, f) = parts(magnitude(bits));
            float_text(bits) == (if is_negative(bits) {
                seq!['-']
            } else {
                seq![]
            }) + (w + (seq!['.'] + f))
        }),
{
    let mag = magnitude(bits);
    let sign = if is_negative(bits) {
        seq!['-']
    } else {
        seq![]
    };
    let (w, f) = parts(mag);
    let text = double_text(bits);
    let body = magnitude_text(mag);
    if mag == 0 {
        lemma_no_point(seq!['0']);
        assert(!text.contains('.')) by {
            if text.contains('.') {
                let i = choose|i: int| 0 <= i < text.len() && text[i] == '.';
                assert(text[i] == '-' || text[i] == '0');
            }
        }
        assert(text + seq!['.', '0'] =~= sign + (w + (seq!['.'] + f)));
    } else {
        let d = shortest(significand(mag), exponent(mag));
        let digits = dec(d.0);
        let n = digits.len() as int;
        let q = d.1;
        lemma_dec_chars(d.0);
        if q >= 0 {
            lemma_no_point(body);
            assert(!text.contains('.')) by {
                if text.contains('.') {
                    let i = choose|i: int| 0 <= i < text.len() && text[i] == '.';
                    if i >= sign.len() {
                        assert(body[i - sign.len()] == '.');
                        assert(body.contains('.'));
                    }
                }
            }
            assert(text + seq!['.', '0'] =~= sign + (w + (seq!['.'] + f)));
        } else {
            assert(body =~= w + (seq!['.'] + f));
            assert(text =~= sign + (w + (seq!['.'] + f)));
            assert(text[(sign.len() + w.len()) as int] == '.');
            assert(text.contains('.'));
        }
    }
}

/// The two parts are digits, and together they are worth the number.
proof fn lemma_parts_value(mag: u64)
    requires
        mag < INFINITY,
    ensures
        ({
            let (w, f) = parts(mag);
            let wb = encode_utf8(w);
            let fb = encode_utf8(f);
            &&& ascii(w)
            &&& ascii(f)
            &&& digit_bytes(wb)
            &&& digit_bytes(fb)
            &&& wb.len() >= 1
            &&& fb.len() >= 1
            &&& wb[0] != ZERO || wb.len() == 1
            &&& nearest_bits(
                decimal_num(digit_bytes_value(wb + fb), -(fb.len() as int)),
                decimal_den(-(fb.len() as int)),
            ) == mag
        }),
{
    let (w, f) = parts(mag);
    let wb = encode_utf8(w);
    let fb = encode_utf8(f);
    lemma_encode_one('0');
    if mag == 0 {
        assert(wb + fb =~= zero_bytes(2) + seq![]);
        lemma_leading_zeros(2, seq![]);
        lemma_zero_digits_nearest(-1);
    } else {
        let m = significand(mag);
        let e = exponent(mag);
        lemma_shortest_exists(m, e);
        let d = shortest(m, e);
        let s = d.0;
        let q = d.1;
        let digits = dec(s);
        let db = encode_utf8(digits);
        let n = digits.len() as int;
        lemma_dec(s);
        lemma_shortest_positive(m, e, s, q);
        lemma_encode_ascii(digits);
        if q >= 0 {
            lemma_zero_chars(q as nat);
            lemma_encode_concat(digits, zero_chars(q as nat));
            assert(wb =~= db + zero_bytes(q as nat));
            assert(fb =~= zero_bytes(1));
            assert(ascii(w));
            assert forall|i: int| 0 <= i < wb.len() implies is_digit_byte(#[trigger] wb[i]) by {
                if i < db.len() {
                    assert(wb[i] == db[i]);
                }
            }
            lemma_trailing_zeros(db, q as nat);
            lemma_trailing_zeros(wb, 1);
            let p = power(10, q as nat);
            let x = digit_bytes_value(wb + fb);
            assert(power(10, 1) == 10) by {
                reveal_with_fuel(power, 2);
            }
            assert(x * 1 == 10 * (s * p)) by (nonlinear_arith)
                requires
                    x == (s * p) * 10,
            ;
            lemma_reads_back_nearest(mag, s, q, x, 10);
        } else {
            let k = (-q) as nat;
            lemma_power_positive(10, k);
            if n + q > 0 {
                assert(digits.take(n + q) + digits.skip(n + q) =~= digits);
                lemma_encode_concat(digits.take(n + q), digits.skip(n + q));
                assert(ascii(w)) by {
                    assert forall|i: int| 0 <= i < w.len() implies '\0' <= #[trigger] w[i] <= '\u{7f}' by {
                        assert(w[i] == digits[i]);
                    }
                }
                assert(ascii(f)) by {
                    assert forall|i: int| 0 <= i < f.len() implies '\0' <= #[trigger] f[i] <= '\u{7f}' by {
                        assert(f[i] == digits[i + n + q]);
                    }
                }
                lemma_encode_ascii(w);
                lemma_encode_ascii(f);
                assert(wb + fb == db);
                assert(wb[0] == db[0]) by {
                    assert((wb + fb)[0] == wb[0]);
                }
                assert forall|i: int| 0 <= i < wb.len() implies is_digit_byte(#[trigger] wb[i]) by {
                    assert((wb + fb)[i] == wb[i]);
                    assert(is_digit_byte(db[i]));
                }
                assert forall|i: int| 0 <= i < fb.len() implies is_digit_byte(#[trigger] fb[i]) by {
                    assert((wb + fb)[i + wb.len()] == fb[i]);
                    assert(is_digit_byte(db[i + wb.len()]));
                }
                assert(fb.len() == k);
            } else {
                let z = (-q - n) as nat;
                lemma_zero_chars(z);
                lemma_encode_concat(zero_chars(z), digits);
                assert(fb =~= zero_bytes(z) + db);
                assert(ascii(f));
                lemma_encode_ascii(f);
                assert(wb + fb =~= zero_bytes(1 + z) + db);
                lemma_leading_zeros(1 + z, db);
                assert forall|i: int| 0 <= i < fb.len() implies is_digit_byte(#[trigger] fb[i]) by {
                    if i >= z {
                        assert(fb[i] == db[i - z]);
                    }
                }
                assert(fb.len() == k);
            }
            let ten = power(10, k);
            assert(s * ten == ten * s) by (nonlinear_arith);
            lemma_reads_back_nearest(mag, s, q, s, ten);
        }
    }
}

/// Zero is not read back as a positive number.
proof fn lemma_shortest_positive(m: nat, e: int, s: nat, q: int)
    requires
        m > 0,
        reads_back(m, e, s, q),
    ensures
        s > 0,
{
    if s == 0 {
        let u = unit_den(q, e - 2);
        lemma_unit_positive(q, e - 2);
        assert(0 * unit_num(q, e - 2) == 0) by (nonlinear_arith);
        let g = gap_below(m, e);
        assert((4 * m - g) * u > 0) by (nonlinear_arith)
            requires
                m > 0,
                g <= 2,
                u > 0,
        ;
    }
}

/// A finite double is read back.
proof fn lemma_float_back(b: Seq<u8>, pos: int, bits: u64)
    requires
        is_finite(bits),
        occurs(b, pos, encode_utf8(float_text(bits))),
        delimited(b, pos + encode_utf8(float_text(bits)).len()),
    ensures
        byte_is(b, pos, MINUS) || digit_at(b, pos),
        number_at(b, pos) == Ok::<(Doc, int), (Seq<char>, int)>(
            (Doc::Float(bits), pos + encode_utf8(float_text(bits)).len()),
        ),
{
    let mag = magnitude(bits);
    let neg = is_negative(bits);
    let (w, f) = parts(mag);
    let wb = encode_utf8(w);
    let fb = encode_utf8(f);
    let sign = if neg {
        seq!['-']
    } else {
        seq![]
    };
    let sb = if neg {
        seq![MINUS]
    } else {
        seq![]
    };
    lemma_float_parts(bits);
    lemma_parts_value(mag);
    lemma_encode_one('.');
    lemma_encode_one('-');
    lemma_encode_concat(sign, w + (seq!['.'] + f));
    lemma_encode_concat(w, seq!['.'] + f);
    lemma_encode_concat(seq!['.'], f);
    assert(encode_utf8(sign) =~= sb);
    assert(encode_utf8(float_text(bits)) =~= sb + (wb + (seq![DOT] + fb)));
    lemma_point_back(b, pos, neg, wb, fb);
}

// ---------------------------------------------------------------------------
// Documents
// ---------------------------------------------------------------------------

/// What JSON text can hold: integers of 128 bits and finite doubles.
pub open spec fn storable(v: Doc) -> bool
    decreases v,
{
    match v {
        Doc::Int(n) => i128::MIN <= n <= i128::MAX,
        Doc::Float(bits) => is_finite(bits),
        Doc::Arr(items) => forall|i: int|
            0 <= i < items.len() ==> storable(#[trigger] items[i]),
        Doc::Obj(ms) => forall|i: int|
            0 <= i < ms.len() ==> storable((#[trigger] ms[i]).1),
        _ => true,
    }
}

/// Whether a value nests at most `d` levels deep.
pub open spec fn nests_within(v: Doc, d: int) -> bool
    decreases v,
{
    match v {
        Doc::Arr(items) => items.len() == 0 || (d >= 1 && forall|i: int|
            0 <= i < items.len() ==> nests_within(#[trigger] items[i], d - 1)),
        Doc::Obj(ms) => ms.len() == 0 || (d >= 1 && forall|i: int|
            0 <= i < ms.len() ==> nests_within((#[trigger] ms[i]).1, d - 1)),
        _ => true,
    }
}

/// White space up to something else is skipped.
proof fn lemma_skip_run(b: Seq<u8>, pos: int, s: Seq<u8>)
    requires
        occurs(b, pos, s),
        forall|i: int| 0 <= i < s.len() ==> is_ws(#[trigger] s[i]),
        pos + s.len() < b.len(),
        !is_ws(b[pos + s.len()]),
    ensures
        skip_ws(b, pos) == pos + s.len(),
    decreases s.len(),
{
    if s.len() > 0 {
        lemma_occurs_index(b, pos, s, 0);
        assert(is_ws(s[0]));
        lemma_occurs_part(b, pos, s, 1, s.len() as int);
        let t = s.subrange(1, s.len() as int);
        assert forall|i: int| 0 <= i < t.len() implies is_ws(#[trigger] t[i]) by {
            assert(is_ws(s[i + 1]));
        }
        lemma_skip_run(b, pos + 1, t);
    }
}

proof fn lemma_line_start(indent: Option<nat>)
    ensures
        ascii(line_start(indent)),
        forall|i: int|
            0 <= i < encode_utf8(line_start(indent)).len() ==> is_ws(
                #[trigger] encode_utf8(line_start(indent))[i],
            ),
{
    lemma_encode_ascii(line_start(indent));
}

/// A serialized value starts with a character of its own.
proof fn lemma_first_byte(v: Doc, indent: Option<nat>)
    requires
        storable(v),
    ensures
        encode_utf8(written(v, indent)).len() >= 1,
        !is_ws(encode_utf8(written(v, indent))[0]),
        encode_utf8(written(v, indent))[0] != RBRACKET,
{
    let t = written(v, indent);
    let e = encode_utf8(t);
    match v {
        Doc::Null => {
            assert(ascii(t));
            lemma_encode_ascii(t);
        },
        Doc::Bool(_) => {
            assert(ascii(t));
            lemma_encode_ascii(t);
        },
        Doc::Int(n) => {
            if n < 0 {
                lemma_dec((-n) as nat);
                lemma_encode_concat(seq!['-'], dec((-n) as nat));
                lemma_encode_one('-');
            } else {
                lemma_dec(n as nat);
                assert(is_digit_byte(e[0]));
            }
        },
        Doc::Float(bits) => {
            let mag = magnitude(bits);
            let (w, f) = parts(mag);
            lemma_float_parts(bits);
            lemma_parts_value(mag);
            let sign = if is_negative(bits) {
                seq!['-']
            } else {
                seq![]
            };
            lemma_encode_concat(sign, w + (seq!['.'] + f));
            lemma_encode_concat(w, seq!['.'] + f);
            lemma_encode_one('-');
            assert(is_digit_byte(encode_utf8(w)[0]));
            if !is_negative(bits) {
                assert(encode_utf8(sign) =~= seq![]);
                assert(e[0] == encode_utf8(w)[0]);
            }
        },
        Doc::Str(s) => {
            lemma_encode_concat(seq!['"'] + escaped_all(s), seq!['"']);
            lemma_encode_concat(seq!['"'], escaped_all(s));
            lemma_encode_one('"');
        },
        Doc::Arr(items) => {
            lemma_encode_one('[');
            if items.len() == 0 {
                assert(t =~= seq!['['] + seq![']']);
                lemma_encode_concat(seq!['['], seq![']']);
            } else {
                let rest = written_items(v, items.len(), indent) + line_start(indent) + seq![']'];
                assert(t =~= seq!['['] + rest);
                lemma_encode_concat(seq!['['], rest);
            }
        },
        Doc::Obj(ms) => {
            lemma_encode_one('{');
            if ms.len() == 0 {
                assert(t =~= seq!['{'] + seq!['}']);
                lemma_encode_concat(seq!['{'], seq!['}']);
            } else {
                let rest = written_members(v, ms.len(), indent) + line_start(indent) + seq!['}'];
                assert(t =~= seq!['{'] + rest);
                lemma_encode_concat(seq!['{'], rest);
            }
        },
    }
}

/// The elements of an array from `k` on, with what closes it.
spec fn items_rest(v: Doc, k: nat, indent: Option<nat>) -> Seq<char>
    decreases v->Arr_0.len() - k,
{
    let items = v->Arr_0;
    if k >= items.len() {
        seq![]
    } else {
        written(items[k as int], deeper(indent)) + (if k + 1 < items.len() {
            seq![','] + (line_start(deeper(indent)) + items_rest(v, k + 1, indent))
        } else {
            line_start(indent) + seq![']']
        })
    }
}

proof fn lemma_items_split(v: Doc, k: nat, indent: Option<nat>)
    requires
        v is Arr,
        k < v->Arr_0.len(),
    ensures
        written_items(v, k, indent) + (if k > 0 {
            seq![',']
        } else {
            seq![]
        }) + line_start(deeper(indent)) + items_rest(v, k, indent) == written_items(
            v,
            v->Arr_0.len(),
            indent,
        ) + line_start(indent) + seq![']'],
    decreases v->Arr_0.len() - k,
{
    let items = v->Arr_0;
    let comma = if k > 0 {
        seq![',']
    } else {
        seq![]
    };
    let ls = line_start(deeper(indent));
    let w = written(items[k as int], deeper(indent));
    assert(written_items(v, k + 1, indent) == written_items(v, k, indent) + comma + ls + w);
    if k + 1 < items.len() {
        lemma_items_split(v, k + 1, indent);
        assert(written_items(v, k, indent) + comma + ls + items_rest(v, k, indent)
            =~= written_items(v, k + 1, indent) + seq![','] + ls + items_rest(v, k + 1, indent));
    } else {
        assert(written_items(v, k, indent) + comma + ls + items_rest(v, k, indent)
            =~= written_items(v, k + 1, indent) + line_start(indent) + seq![']']);
    }
}

/// The members of an object from `k` on, with what closes it.
spec fn members_rest(v: Doc, k: nat, indent: Option<nat>) -> Seq<char>
    decreases v->Obj_0.len() - k,
{
    let ms = v->Obj_0;
    if k >= ms.len() {
        seq![]
    } else {
        quoted(ms[k as int].0) + (colon(indent) + (written(ms[k as int].1, deeper(indent)) + (if k
            + 1 < ms.len() {
            seq![','] + (line_start(deeper(indent)) + members_rest(v, k + 1, indent))
        } else {
            line_start(indent) + seq!['}']
        })))
    }
}

spec fn colon(indent: Option<nat>) -> Seq<char> {
    if indent is Some {
        seq![':', ' ']
    } else {
        seq![':']
    }
}

proof fn lemma_members_split(v: Doc, k: nat, indent: Option<nat>)
    requires
        v is Obj,
        k < v->Obj_0.len(),
    ensures
        written_members(v, k, indent) + (if k > 0 {
            seq![',']
        } else {
            seq![]
        }) + line_start(deeper(indent)) + members_rest(v, k, indent) == written_members(
            v,
            v->Obj_0.len(),
            indent,
        ) + line_start(indent) + seq!['}'],
    decreases v->Obj_0.len() - k,
{
    let ms = v->Obj_0;
    let comma = if k > 0 {
        seq![',']
    } else {
        seq![]
    };
    let ls = line_start(deeper(indent));
    let w = written(ms[k as int].1, deeper(indent));
    let key = quoted(ms[k as int].0);
    assert(written_members(v, k + 1, indent) == written_members(v, k, indent) + comma + ls + key
        + colon(indent) + w);
    let before = written_members(v, k, indent);
    if k + 1 < ms.len() {
        lemma_members_split(v, k + 1, indent);
        let more = members_rest(v, k + 1, indent);
        let tail = seq![','] + (ls + more);
        lemma_regroup(before, comma, ls, key, colon(indent), w, tail);
        let all = written_members(v, k + 1, indent);
        assert(all + tail =~= all + seq![','] + ls + more);
    } else {
        let tail = line_start(indent) + seq!['}'];
        lemma_regroup(before, comma, ls, key, colon(indent), w, tail);
        let all = written_members(v, k + 1, indent);
        assert(all + tail =~= all + line_start(indent) + seq!['}']);
    }
}

proof fn lemma_regroup(
    a: Seq<char>,
    b: Seq<char>,
    c: Seq<char>,
    d: Seq<char>,
    e: Seq<char>,
    f: Seq<char>,
    g: Seq<char>,
)
    ensures
        a + b + c + (d + (e + (f + g))) == (a + b + c + d + e + f) + g,
{
    assert(a + b + c + (d + (e + (f + g))) =~= (a + b + c + d + e + f) + g);
}

/// A literal word is read back.
proof fn lemma_word_back(b: Seq<u8>, pos: int, w: Seq<char>, lit: Seq<u8>, v: Doc)
    requires
        occurs(b, pos, encode_utf8(w)),
        ascii(w),
        lit.len() == w.len() >= 1,
        forall|i: int| 0 <= i < w.len() ==> #[trigger] lit[i] == w[i] as u8,
    ensures
        byte_is(b, pos, lit[0]),
        encode_utf8(w).len() == lit.len(),
        literal_at(b, pos, lit, v) == Ok::<(Doc, int), (Seq<char>, int)>((v, pos + lit.len())),
{
    lemma_encode_ascii(w);
    assert(encode_utf8(w) =~= lit);
    lemma_occurs_index(b, pos, lit, 0);
}

/// A serialized value is read back, wherever it stands.
proof fn lemma_value_back(b: Seq<u8>, pos: int, v: Doc, indent: Option<nat>, depth: int)
    requires
        storable(v),
        0 <= depth <= MAX_DEPTH,
        nests_within(v, MAX_DEPTH - depth),
        occurs(b, pos, encode_utf8(written(v, indent))),
        delimited(b, pos + encode_utf8(written(v, indent)).len()),
    ensures
        value_at(b, pos, depth) == Ok::<(Doc, int), (Seq<char>, int)>(
            (v, pos + encode_utf8(written(v, indent)).len()),
        ),
    decreases v, 1int, 0int,
{
    let t = written(v, indent);
    let e = encode_utf8(t);
    lemma_first_byte(v, indent);
    lemma_occurs_index(b, pos, e, 0);
    match v {
        Doc::Null => lemma_word_back(b, pos, t, seq![110u8, 117, 108, 108], v),
        Doc::Bool(x) => if x {
            lemma_word_back(b, pos, t, seq![116u8, 114, 117, 101], v);
        } else {
            lemma_word_back(b, pos, t, seq![102u8, 97, 108, 115, 101], v);
        },
        Doc::Int(n) => lemma_int_back(b, pos, n),
        Doc::Float(bits) => lemma_float_back(b, pos, bits),
        Doc::Str(s) => lemma_string_back(b, pos, s),
        Doc::Arr(items) => lemma_array_back(b, pos, v, indent, depth),
        Doc::Obj(ms) => lemma_object_back(b, pos, v, indent, depth),
    }
}

proof fn lemma_array_back(b: Seq<u8>, pos: int, v: Doc, indent: Option<nat>, depth: int)
    requires
        v is Arr,
        storable(v),
        0 <= depth <= MAX_DEPTH,
        nests_within(v, MAX_DEPTH - depth),
        occurs(b, pos, encode_utf8(written(v, indent))),
    ensures
        value_at(b, pos, depth) == Ok::<(Doc, int), (Seq<char>, int)>(
            (v, pos + encode_utf8(written(v, indent)).len()),
        ),
    decreases v, 0int, v->Arr_0.len() + 1,
{
    let items = v->Arr_0;
    let e = encode_utf8(written(v, indent));
    lemma_encode_one('[');
    lemma_encode_one(']');
    if items.len() == 0 {
        assert(written(v, indent) =~= seq!['['] + seq![']']);
        lemma_encode_concat(seq!['['], seq![']']);
        lemma_occurs_split(b, pos, seq![LBRACKET], seq![RBRACKET]);
        lemma_occurs_index(b, pos, seq![LBRACKET], 0);
        lemma_occurs_index(b, pos + 1, seq![RBRACKET], 0);
        assert(skip_ws(b, pos + 1) == pos + 1);
        assert(items =~= seq![]);
    } else {
        let ls = line_start(deeper(indent));
        let rest = items_rest(v, 0, indent);
        lemma_items_split(v, 0, indent);
        assert(written_items(v, 0, indent) =~= seq![]);
        assert(written(v, indent) =~= seq!['['] + (ls + rest));
        lemma_encode_concat(seq!['['], ls + rest);
        lemma_encode_concat(ls, rest);
        let lb = encode_utf8(ls);
        let rb = encode_utf8(rest);
        lemma_occurs_split(b, pos, seq![LBRACKET], lb + rb);
        lemma_occurs_index(b, pos, seq![LBRACKET], 0);
        lemma_occurs_split(b, pos + 1, lb, rb);
        let start = pos + 1 + lb.len();
        lemma_items_start(b, start, v, 0, indent);
        lemma_line_start(deeper(indent));
        lemma_skip_run(b, pos + 1, lb);
        assert(skip_ws(b, start) == start);
        lemma_items_back(b, start, start, v, 0, indent, depth);
        assert(items.take(0) =~= seq![]);
    }
}

/// What stands where an element is expected is no white space and no bracket.
proof fn lemma_items_start(b: Seq<u8>, start: int, v: Doc, k: nat, indent: Option<nat>)
    requires
        v is Arr,
        storable(v),
        k < v->Arr_0.len(),
        occurs(b, start, encode_utf8(items_rest(v, k, indent))),
    ensures
        start < b.len(),
        !is_ws(b[start]),
        b[start] != RBRACKET,
{
    let item = v->Arr_0[k as int];
    let w = written(item, deeper(indent));
    let more = if k + 1 < v->Arr_0.len() {
        seq![','] + (line_start(deeper(indent)) + items_rest(v, k + 1, indent))
    } else {
        line_start(indent) + seq![']']
    };
    lemma_encode_concat(w, more);
    lemma_occurs_split(b, start, encode_utf8(w), encode_utf8(more));
    lemma_first_byte(item, deeper(indent));
    lemma_occurs_index(b, start, encode_utf8(w), 0);
}

/// The elements from `k` on are read back.
proof fn lemma_items_back(
    b: Seq<u8>,
    pos: int,
    start: int,
    v: Doc,
    k: nat,
    indent: Option<nat>,
    depth: int,
)
    requires
        v is Arr,
        storable(v),
        0 <= depth,
        nests_within(v, MAX_DEPTH - depth),
        k < v->Arr_0.len(),
        0 <= pos <= start,
        skip_ws(b, pos) == start,
        occurs(b, start, encode_utf8(items_rest(v, k, indent))),
    ensures
        items_from(b, pos, depth, v->Arr_0.take(k as int)) == Ok::<
            (Doc, int),
            (Seq<char>, int),
        >((v, start + encode_utf8(items_rest(v, k, indent)).len())),
    decreases v, 0int, v->Arr_0.len() - k,
{
    let items = v->Arr_0;
    let item = items[k as int];
    let w = written(item, deeper(indent));
    let wb = encode_utf8(w);
    let end = start + wb.len();
    assert(items.take(k as int).push(item) =~= items.take(k as int + 1));
    if k + 1 < items.len() {
        let ls = line_start(deeper(indent));
        let next = items_rest(v, k + 1, indent);
        let lb = encode_utf8(ls);
        let nb = encode_utf8(next);
        lemma_encode_one(',');
        lemma_encode_concat(w, seq![','] + (ls + next));
        lemma_encode_concat(seq![','], ls + next);
        lemma_encode_concat(ls, next);
        lemma_occurs_split(b, start, wb, seq![COMMA] + (lb + nb));
        lemma_occurs_split(b, end, seq![COMMA], lb + nb);
        lemma_occurs_index(b, end, seq![COMMA], 0);
        lemma_occurs_split(b, end + 1, lb, nb);
        lemma_value_back(b, start, item, deeper(indent), depth + 1);
        assert(skip_ws(b, end) == end);
        lemma_items_start(b, end + 1 + lb.len(), v, k + 1, indent);
        lemma_line_start(deeper(indent));
        lemma_skip_run(b, end + 1, lb);
        lemma_items_back(b, end + 1, end + 1 + lb.len(), v, k + 1, indent, depth);
    } else {
        let ls = line_start(indent);
        let lb = encode_utf8(ls);
        lemma_encode_one(']');
        lemma_encode_concat(w, ls + seq![']']);
        lemma_encode_concat(ls, seq![']']);
        lemma_occurs_split(b, start, wb, lb + seq![RBRACKET]);
        lemma_occurs_split(b, end, lb, seq![RBRACKET]);
        lemma_occurs_index(b, end + lb.len(), seq![RBRACKET], 0);
        lemma_line_start(indent);
        if lb.len() > 0 {
            lemma_occurs_index(b, end, lb, 0);
            assert(is_ws(lb[0]));
        }
        lemma_value_back(b, start, item, deeper(indent), depth + 1);
        lemma_skip_run(b, end, lb);
        assert(items.take(k as int + 1) =~= items);
    }
}

proof fn lemma_object_back(b: Seq<u8>, pos: int, v: Doc, indent: Option<nat>, depth: int)
    requires
        v is Obj,
        storable(v),
        0 <= depth <= MAX_DEPTH,
        nests_within(v, MAX_DEPTH - depth),
        occurs(b, pos, encode_utf8(written(v, indent))),
    ensures
        value_at(b, pos, depth) == Ok::<(Doc, int), (Seq<char>, int)>(
            (v, pos + encode_utf8(written(v, indent)).len()),
        ),
    decreases v, 0int, v->Obj_0.len() + 1,
{
    let ms = v->Obj_0;
    let e = encode_utf8(written(v, indent));
    lemma_encode_one('{');
    lemma_encode_one('}');
    if ms.len() == 0 {
        assert(written(v, indent) =~= seq!['{'] + seq!['}']);
        lemma_encode_concat(seq!['{'], seq!['}']);
        lemma_occurs_split(b, pos, seq![LBRACE], seq![RBRACE]);
        lemma_occurs_index(b, pos, seq![LBRACE], 0);
        lemma_occurs_index(b, pos + 1, seq![RBRACE], 0);
        assert(skip_ws(b, pos + 1) == pos + 1);
        assert(ms =~= seq![]);
    } else {
        let ls = line_start(deeper(indent));
        let rest = members_rest(v, 0, indent);
        lemma_members_split(v, 0, indent);
        assert(written_members(v, 0, indent) =~= seq![]);
        assert(written(v, indent) =~= seq!['{'] + (ls + rest));
        lemma_encode_concat(seq!['{'], ls + rest);
        lemma_encode_concat(ls, rest);
        let lb = encode_utf8(ls);
        let rb = encode_utf8(rest);
        lemma_occurs_split(b, pos, seq![LBRACE], lb + rb);
        lemma_occurs_index(b, pos, seq![LBRACE], 0);
        lemma_occurs_split(b, pos + 1, lb, rb);
        let start = pos + 1 + lb.len();
        lemma_members_start(b, start, v, 0, indent);
        lemma_line_start(deeper(indent));
        lemma_skip_run(b, pos + 1, lb);
        assert(skip_ws(b, start) == start);
        lemma_members_back(b, start, start, v, 0, indent, depth);
        assert(ms.take(0) =~= seq![]);
    }
}

/// What stands where a member is expected is a quote.
proof fn lemma_members_start(b: Seq<u8>, start: int, v: Doc, k: nat, indent: Option<nat>)
    requires
        v is Obj,
        k < v->Obj_0.len(),
        occurs(b, start, encode_utf8(members_rest(v, k, indent))),
    ensures
        byte_is(b, start, QUOTE),
{
    let key = quoted(v->Obj_0[k as int].0);
    let more = members_rest(v, k, indent).skip(key.len() as int);
    assert(members_rest(v, k, indent) =~= key + more);
    lemma_encode_concat(key, more);
    lemma_occurs_split(b, start, encode_utf8(key), encode_utf8(more));
    lemma_string_back(b, start, v->Obj_0[k as int].0);
}

/// The members from `k` on are read back.
proof fn lemma_members_back(
    b: Seq<u8>,
    pos: int,
    start: int,
    v: Doc,
    k: nat,
    indent: Option<nat>,
    depth: int,
)
    requires
        v is Obj,
        storable(v),
        0 <= depth,
        nests_within(v, MAX_DEPTH - depth),
        k < v->Obj_0.len(),
        0 <= pos <= start,
        skip_ws(b, pos) == start,
        occurs(b, start, encode_utf8(members_rest(v, k, indent))),
    ensures
        members_from(b, pos, depth, v->Obj_0.take(k as int)) == Ok::<
            (Doc, int),
            (Seq<char>, int),
        >((v, start + encode_utf8(members_rest(v, k, indent)).len())),
    decreases v, 0int, v->Obj_0.len() - k,
{
    let ms = v->Obj_0;
    let name = ms[k as int].0;
    let val = ms[k as int].1;
    let key = quoted(name);
    let kb = encode_utf8(key);
    let cl = colon(indent);
    let cb = encode_utf8(cl);
    let w = written(val, deeper(indent));
    let wb = encode_utf8(w);
    let last = k + 1 >= ms.len();
    let ls = if last {
        line_start(indent)
    } else {
        line_start(deeper(indent))
    };
    let lb = encode_utf8(ls);
    let next = members_rest(v, k + 1, indent);
    let nb = encode_utf8(next);
    let tail = if last {
        ls + seq!['}']
    } else {
        seq![','] + (ls + next)
    };
    let tb = encode_utf8(tail);
    let after_key = start + kb.len();
    let vpos = after_key + cb.len();
    let end = vpos + wb.len();
    lemma_encode_concat(key, cl + (w + tail));
    lemma_encode_concat(cl, w + tail);
    lemma_encode_concat(w, tail);
    lemma_occurs_split(b, start, kb, cb + (wb + tb));
    lemma_occurs_split(b, after_key, cb, wb + tb);
    lemma_occurs_split(b, vpos, wb, tb);
    lemma_string_back(b, start, name);
    lemma_colon(b, after_key, indent);
    lemma_first_byte(val, deeper(indent));
    lemma_occurs_index(b, vpos, wb, 0);
    lemma_after_colon(b, after_key, indent, vpos);
    assert(ms.take(k as int).push((name, val)) =~= ms.take(k as int + 1));
    lemma_encode_one(',');
    lemma_encode_one('}');
    if last {
        lemma_encode_concat(ls, seq!['}']);
        lemma_occurs_split(b, end, lb, seq![RBRACE]);
        lemma_occurs_index(b, end + lb.len(), seq![RBRACE], 0);
        lemma_line_start(indent);
        if lb.len() > 0 {
            lemma_occurs_index(b, end, lb, 0);
            assert(is_ws(lb[0]));
        }
        lemma_value_back(b, vpos, val, deeper(indent), depth + 1);
        lemma_skip_run(b, end, lb);
        assert(ms.take(k as int + 1) =~= ms);
    } else {
        lemma_encode_concat(seq![','], ls + next);
        lemma_encode_concat(ls, next);
        lemma_occurs_split(b, end, seq![COMMA], lb + nb);
        lemma_occurs_index(b, end, seq![COMMA], 0);
        lemma_occurs_split(b, end + 1, lb, nb);
        lemma_value_back(b, vpos, val, deeper(indent), depth + 1);
        assert(skip_ws(b, end) == end);
        lemma_members_start(b, end + 1 + lb.len(), v, k + 1, indent);
        lemma_line_start(deeper(indent));
        lemma_skip_run(b, end + 1, lb);
        lemma_members_back(b, end + 1, end + 1 + lb.len(), v, k + 1, indent, depth);
    }
}

/// A colon follows a key directly.
proof fn lemma_colon(b: Seq<u8>, pos: int, indent: Option<nat>)
    requires
        occurs(b, pos, encode_utf8(colon(indent))),
    ensures
        byte_is(b, pos, COLON),
        skip_ws(b, pos) == pos,
        encode_utf8(colon(indent)).len() == colon(indent).len(),
        indent is Some ==> byte_is(b, pos + 1, 32),
{
    let c = colon(indent);
    assert(ascii(c));
    lemma_encode_ascii(c);
    lemma_occurs_index(b, pos, encode_utf8(c), 0);
    if indent is Some {
        lemma_occurs_index(b, pos, encode_utf8(c), 1);
    }
}

/// After a colon, and the space of the pretty form, comes the value.
proof fn lemma_after_colon(b: Seq<u8>, pos: int, indent: Option<nat>, vpos: int)
    requires
        occurs(b, pos, encode_utf8(colon(indent))),
        vpos == pos + encode_utf8(colon(indent)).len(),
        0 <= vpos < b.len(),
        !is_ws(b[vpos]),
    ensures
        skip_ws(b, pos + 1) == vpos,
{
    lemma_colon(b, pos, indent);
    assert(skip_ws(b, vpos) == vpos);
    if indent is Some {
        assert(vpos == pos + 2);
        assert(skip_ws(b, pos + 1) == skip_ws(b, pos + 2));
    }
}

/// Parsing undoes serializing, in the compact and in the pretty form alike:
/// every document of 128-bit integers, finite doubles and at most 128 levels
/// of nesting is read back unchanged.
pub proof fn law_parse_undoes_write(v: Doc, indent: Option<nat>)
    requires
        storable(v),
        nests_within(v, MAX_DEPTH as int),
    ensures
        parse_doc(encode_utf8(written(v, indent))) == Ok::<Doc, (Seq<char>, int)>(v),
{
    let b = encode_utf8(written(v, indent));
    lemma_first_byte(v, indent);
    assert(b.subrange(0, b.len() as int) =~= b);
    assert(skip_ws(b, 0) == 0);
    lemma_value_back(b, 0, v, indent, 0);
    assert(skip_ws(b, b.len() as int) == b.len());
}

/// White space around a document does not matter to the parser.
pub proof fn law_white_space_around(v: Doc, indent: Option<nat>, before: Seq<u8>, after: Seq<u8>)
    requires
        storable(v),
        nests_within(v, MAX_DEPTH as int),
        forall|i: int| 0 <= i < before.len() ==> is_ws(#[trigger] before[i]),
        forall|i: int| 0 <= i < after.len() ==> is_ws(#[trigger] after[i]),
    ensures
        parse_doc(before + encode_utf8(written(v, indent)) + after) == Ok::<
            Doc,
            (Seq<char>, int),
        >(v),
{
    let e = encode_utf8(written(v, indent));
    let b = before + e + after;
    let start = before.len() as int;
    let end = start + e.len();
    lemma_first_byte(v, indent);
    assert(b.subrange(0, start) =~= before);
    assert(b.subrange(start, end) =~= e);
    assert(b[start] == e[0]);
    lemma_skip_run(b, 0, before);
    if after.len() > 0 {
        assert(b[end] == after[0]);
        assert(is_ws(after[0]));
    }
    lemma_value_back(b, start, v, indent, 0);
    assert forall|i: int| end <= i < b.len() implies is_ws(#[trigger] b[i]) by {
        assert(b[i] == after[i - end]);
    }
    lemma_skip_all(b, end);
}

proof fn lemma_skip_all(b: Seq<u8>, pos: int)
    requires
        0 <= pos <= b.len(),
        forall|i: int| pos <= i < b.len() ==> is_ws(#[trigger] b[i]),
    ensures
        skip_ws(b, pos) == b.len(),
    decreases b.len() - pos,
{
    if pos < b.len() {
        lemma_skip_all(b, pos + 1);
    }
}

/// Integers of up to 128 bits pass through text exactly.
pub proof fn law_integers_are_exact(n: int)
    requires
        i128::MIN <= n <= i128::MAX,
    ensures
        parse_doc(encode_utf8(dec_int(n))) == Ok::<Doc, (Seq<char>, int)>(Doc::Int(n)),
{
    law_parse_undoes_write(Doc::Int(n), None);
}

/// Every integer in a document fits in 128 bits.
pub open spec fn integers_fit(v: Doc) -> bool
    decreases v,
{
    match v {
        Doc::Int(n) => i128::MIN <= n <= i128::MAX,
        Doc::Arr(items) => forall|i: int|
            0 <= i < items.len() ==> integers_fit(#[trigger] items[i]),
        Doc::Obj(ms) => forall|i: int|
            0 <= i < ms.len() ==> integers_fit((#[trigger] ms[i]).1),
        _ => true,
    }
}

/// A document as text can hold it: infinities and NaNs become null.
pub open spec fn settled(v: Doc) -> Doc
    decreases v,
{
    match v {
        Doc::Float(bits) => if is_finite(bits) {
            v
        } else {
            Doc::Null
        },
        Doc::Arr(items) => Doc::Arr(
            Seq::new(
                items.len(),
                |i: int|
                    if 0 <= i < items.len() {
                        settled(items[i])
                    } else {
                        Doc::Null
                    },
            ),
        ),
        Doc::Obj(ms) => Doc::Obj(
            Seq::new(
                ms.len(),
                |i: int|
                    if 0 <= i < ms.len() {
                        (ms[i].0, settled(ms[i].1))
                    } else {
                        (seq![], Doc::Null)
                    },
            ),
        ),
        _ => v,
    }
}

proof fn lemma_settled(v: Doc, d: int)
    requires
        integers_fit(v),
        nests_within(v, d),
    ensures
        storable(settled(v)),
        nests_within(settled(v), d),
    decreases v,
{
    match v {
        Doc::Arr(items) => {
            let s = settled(v)->Arr_0;
            assert forall|i: int| 0 <= i < s.len() implies storable(#[trigger] s[i])
                && nests_within(s[i], d - 1) by {
                assert(decreases_to!(v => v->Arr_0));
                assert(decreases_to!(items => items[i]));
                lemma_settled(items[i], d - 1);
            }
        },
        Doc::Obj(ms) => {
            let s = settled(v)->Obj_0;
            assert forall|i: int| 0 <= i < s.len() implies storable((#[trigger] s[i]).1)
                && nests_within(s[i].1, d - 1) by {
                assert(decreases_to!(v => v->Obj_0));
                assert(decreases_to!(ms => ms[i]));
                assert(decreases_to!(ms[i] => ms[i].1));
                lemma_settled(ms[i].1, d - 1);
            }
        },
        _ => {},
    }
}

proof fn lemma_settled_text(v: Doc, indent: Option<nat>)
    ensures
        written(settled(v), indent) == written(v, indent),
    decreases v, 1int, 0nat,
{
    match v {
        Doc::Arr(items) => {
            lemma_settled_items(v, items.len(), indent);
        },
        Doc::Obj(ms) => {
            lemma_settled_members(v, ms.len(), indent);
        },
        _ => {},
    }
}

proof fn lemma_settled_items(v: Doc, n: nat, indent: Option<nat>)
    requires
        v is Arr,
        n <= v->Arr_0.len(),
    ensures
        written_items(settled(v), n, indent) == written_items(v, n, indent),
    decreases v, 0int, n,
{
    if n > 0 {
        let items = v->Arr_0;
        lemma_settled_items(v, (n - 1) as nat, indent);
        assert(decreases_to!(v => v->Arr_0));
        assert(decreases_to!(items => items[n - 1]));
        lemma_settled_text(items[n - 1], deeper(indent));
        assert(settled(v)->Arr_0[n - 1] == settled(items[n - 1]));
    }
}

proof fn lemma_settled_members(v: Doc, n: nat, indent: Option<nat>)
    requires
        v is Obj,
        n <= v->Obj_0.len(),
    ensures
        written_members(settled(v), n, indent) == written_members(v, n, indent),
    decreases v, 0int, n,
{
    if n > 0 {
        let ms = v->Obj_0;
        lemma_settled_members(v, (n - 1) as nat, indent);
        assert(decreases_to!(v => v->Obj_0));
        assert(decreases_to!(ms => ms[n - 1]));
        assert(decreases_to!(ms[n - 1] => ms[n - 1].1));
        lemma_settled_text(ms[n - 1].1, deeper(indent));
        assert(settled(v)->Obj_0[n - 1] == (ms[n - 1].0, settled(ms[n - 1].1)));
    }
}

/// Whatever is serialized is JSON, infinities and NaNs included: they are read
/// back as null, and everything else unchanged. White space around the text
/// does not matter.
pub proof fn law_written_text_is_json(
    v: Doc,
    indent: Option<nat>,
    before: Seq<u8>,
    after: Seq<u8>,
)
    requires
        integers_fit(v),
        nests_within(v, MAX_DEPTH as int),
        forall|i: int| 0 <= i < before.len() ==> is_ws(#[trigger] before[i]),
        forall|i: int| 0 <= i < after.len() ==> is_ws(#[trigger] after[i]),
    ensures
        parse_doc(before + encode_utf8(written(v, indent)) + after) == Ok::<
            Doc,
            (Seq<char>, int),
        >(settled(v)),
{
    lemma_settled(v, MAX_DEPTH as int);
    lemma_settled_text(v, indent);
    law_white_space_around(settled(v), indent, before, after);
}

/// Every storable document equals itself; what was written and read back
/// equals what it was before.
pub proof fn law_storable_equals_itself(v: Doc)
    requires
        storable(v),
    ensures
        same_doc(v, v),
    decreases v,
{
    match v {
        Doc::Arr(items) => {
            assert forall|i: int| 0 <= i < items.len() implies same_doc(
                #[trigger] items[i],
                items[i],
            ) by {
                assert(decreases_to!(v => v->Arr_0));
                assert(decreases_to!(items => items[i]));
                law_storable_equals_itself(items[i]);
            }
        },
        Doc::Obj(ms) => {
            assert forall|i: int| 0 <= i < ms.len() implies same_doc(
                (#[trigger] ms[i]).1,
                ms[i].1,
            ) by {
                assert(decreases_to!(v => v->Obj_0));
                assert(decreases_to!(ms => ms[i]));
                assert(decreases_to!(ms[i] => ms[i].1));
                law_storable_equals_itself(ms[i].1);
            }
        },
        _ => {},
    }
}

} // verus!
