//! What is read of a written npy file.

use vstd::prelude::*;
use vstd::utf8::*;
use crate::ascii::{APOSTROPHE, BACKSLASH, COLON, COMMA, LBRACE, LPAREN, RPAREN, SPACE};
use crate::builder::{joined, npy_around, npy_data_len, npy_dict, npy_file, npy_padded, npy_v2_file, npy_writable, numel64, padding, spaces, tuple_text};
use crate::bytes::{le, le_bytes, lemma_le_bytes_len, lemma_le_round_trip, lemma_le_window, pow256};
use crate::float::is_digit_byte;
use crate::json::{byte_is, digit_at, is_ws, skip_ws, Doc};
use crate::laws::json_text::{lemma_dec, lemma_digits_run};
use crate::laws::layout::{ascii, lemma_encode_ascii, lemma_encode_concat, lemma_encode_one, lemma_occurs_index, lemma_occurs_split, occurs};
use crate::npy::{data_size, descr_of, dict_of, dims_of, entries_from, entry_step, false_literal, header_model, header_of, no_entries, pairs_from, parse_model, prefix_of, py_bytes_from, py_items_from, py_value_at, report_of, size_problems, true_literal, Entries, NpyModel, PyModel, MAGIC, MAX_PREFIX};
use crate::report::{numel_of, product, ReportModel};
use crate::text::{dec, starts_with};

verus! {

/// The ASCII text `s` stands in `b` at `pos`.
pub open spec fn spells(b: Seq<u8>, pos: int, s: Seq<char>) -> bool {
    &&& 0 <= pos
    &&& pos + s.len() <= b.len()
    &&& ascii(s)
    &&& forall|i: int| 0 <= i < s.len() ==> b[pos + i] == #[trigger] s[i] as u8
}

proof fn lemma_spells_split(b: Seq<u8>, pos: int, x: Seq<char>, y: Seq<char>)
    requires
        spells(b, pos, x + y),
    ensures
        spells(b, pos, x),
        spells(b, pos + x.len(), y),
{
    let w = x + y;
    assert forall|i: int| 0 <= i < x.len() implies b[pos + i] == #[trigger] x[i] as u8 && '\0'
        <= x[i] <= '\u{7f}' by {
        assert(w[i] == x[i]);
    }
    assert forall|i: int| 0 <= i < y.len() implies b[pos + x.len() + i] == #[trigger] y[i] as u8
        && '\0' <= y[i] <= '\u{7f}' by {
        assert(w[x.len() + i] == y[i]);
    }
}

/// Two texts, one behind the other.
proof fn lemma_text_split(b: Seq<u8>, pos: int, x: Seq<char>, y: Seq<char>)
    requires
        occurs(b, pos, encode_utf8(x + y)),
    ensures
        occurs(b, pos, encode_utf8(x)),
        occurs(b, pos + encode_utf8(x).len(), encode_utf8(y)),
{
    lemma_encode_concat(x, y);
    lemma_occurs_split(b, pos, encode_utf8(x), encode_utf8(y));
}

proof fn lemma_spelled(b: Seq<u8>, pos: int, s: Seq<char>)
    requires
        ascii(s),
        occurs(b, pos, encode_utf8(s)),
    ensures
        spells(b, pos, s),
        encode_utf8(s).len() == s.len(),
{
    lemma_encode_ascii(s);
    assert forall|i: int| 0 <= i < s.len() implies b[pos + i] == #[trigger] s[i] as u8 by {
        lemma_occurs_index(b, pos, encode_utf8(s), i);
        assert(encode_utf8(s)[i] == s[i] as u8);
    }
}

/// A text that stands for itself inside single quotes.
pub open spec fn plain(s: Seq<char>) -> bool {
    forall|i: int| 0 <= i < s.len() ==> #[trigger] s[i] != '\'' && s[i] != '\\'
}

proof fn lemma_high_bytes(c: u32)
    by (bit_vector)
    ensures
        (0x80u8 | (c & 0x3F) as u8) >= 0x80,
        (0x80u8 | ((c >> 6) & 0x3F) as u8) >= 0x80,
        (0x80u8 | ((c >> 12) & 0x3F) as u8) >= 0x80,
        (0xC0u8 | ((c >> 6) & 0x1F) as u8) >= 0x80,
        (0xE0u8 | ((c >> 12) & 0x0F) as u8) >= 0x80,
        (0xF0u8 | ((c >> 18) & 0x07) as u8) >= 0x80,
        c <= 0x7f ==> (c & 0x7F) as u8 == c as u8,
{
}

/// The bytes of such a text hold no quote and no backslash.
proof fn lemma_plain_bytes(s: Seq<char>)
    requires
        plain(s),
    ensures
        forall|i: int|
            0 <= i < encode_utf8(s).len() ==> #[trigger] encode_utf8(s)[i] != APOSTROPHE
                && encode_utf8(s)[i] != BACKSLASH,
    decreases s.len(),
{
    if s.len() > 0 {
        let c = s[0];
        let t = s.drop_first();
        assert forall|i: int| 0 <= i < t.len() implies #[trigger] t[i] != '\'' && t[i] != '\\' by {
            assert(t[i] == s[i + 1]);
        }
        lemma_plain_bytes(t);
        assert(s[0] != '\'' && s[0] != '\\');
        lemma_plain_char(c);
        let e = encode_scalar(c as u32);
        let w = encode_utf8(s);
        assert forall|i: int| 0 <= i < w.len() implies #[trigger] w[i] != APOSTROPHE && w[i]
            != BACKSLASH by {
            if i < e.len() {
                assert(w[i] == e[i]);
            } else {
                assert(w[i] == encode_utf8(t)[i - e.len()]);
            }
        }
    }
}

proof fn lemma_plain_char(c: char)
    requires
        c != '\'',
        c != '\\',
    ensures
        forall|i: int|
            0 <= i < encode_scalar(c as u32).len() ==> #[trigger] encode_scalar(c as u32)[i]
                != APOSTROPHE && encode_scalar(c as u32)[i] != BACKSLASH,
{
    let n = c as u32;
    lemma_high_bytes(n);
    if n <= 0x7f {
        assert(encode_scalar(n)[0] == n as u8);
        assert(n != 39 && n != 92);
    }
}

proof fn lemma_raw_back(b: Seq<u8>, pos: int, raw: Seq<u8>, acc: Seq<u8>)
    requires
        occurs(b, pos, raw),
        forall|i: int| 0 <= i < raw.len() ==> #[trigger] raw[i] != APOSTROPHE && raw[i] != BACKSLASH,
        byte_is(b, pos + raw.len(), APOSTROPHE),
    ensures
        py_bytes_from(b, pos, APOSTROPHE, acc) == Ok::<(Seq<u8>, int), Seq<char>>(
            (acc + raw, pos + raw.len() + 1),
        ),
    decreases raw.len(),
{
    if raw.len() == 0 {
        assert(acc + raw =~= acc);
    } else {
        let t = raw.skip(1);
        lemma_occurs_index(b, pos, raw, 0);
        assert(raw =~= seq![raw[0]] + t);
        lemma_occurs_split(b, pos, seq![raw[0]], t);
        assert forall|i: int| 0 <= i < t.len() implies #[trigger] t[i] != APOSTROPHE && t[i]
            != BACKSLASH by {
            assert(t[i] == raw[i + 1]);
        }
        lemma_raw_back(b, pos + 1, t, acc.push(raw[0]));
        assert(acc.push(raw[0]) + t =~= acc + raw);
    }
}

/// A text in single quotes.
pub open spec fn single_quoted(s: Seq<char>) -> Seq<char> {
    seq!['\''] + s + seq!['\'']
}

proof fn lemma_text_back(b: Seq<u8>, pos: int, s: Seq<char>)
    requires
        occurs(b, pos, encode_utf8(single_quoted(s))),
        plain(s),
    ensures
        encode_utf8(single_quoted(s)).len() == encode_utf8(s).len() + 2,
        py_value_at(b, pos) == Ok::<(PyModel, int), Seq<char>>(
            (PyModel::Str(s), pos + encode_utf8(s).len() + 2),
        ),
        byte_is(b, pos, APOSTROPHE),
{
    let q = seq!['\''];
    let raw = encode_utf8(s);
    lemma_encode_one('\'');
    lemma_encode_concat(q + s, q);
    lemma_encode_concat(q, s);
    lemma_text_split(b, pos, q + s, q);
    lemma_text_split(b, pos, q, s);
    lemma_occurs_index(b, pos, seq![APOSTROPHE], 0);
    lemma_occurs_index(b, pos + 1 + raw.len(), seq![APOSTROPHE], 0);
    lemma_plain_bytes(s);
    lemma_raw_back(b, pos + 1, raw, seq![]);
    assert(seq![] + raw =~= raw);
    encode_utf8_decode_utf8(s);
}

proof fn lemma_number_back(b: Seq<u8>, pos: int, n: nat)
    requires
        spells(b, pos, dec(n)),
        n <= i64::MAX,
        !digit_at(b, pos + dec(n).len()),
    ensures
        py_value_at(b, pos) == Ok::<(PyModel, int), Seq<char>>(
            (PyModel::Int(n as int), pos + dec(n).len()),
        ),
        digit_at(b, pos),
{
    let e = encode_utf8(dec(n));
    lemma_dec(n);
    lemma_encode_ascii(dec(n));
    assert(b.subrange(pos, pos + e.len()) =~= e) by {
        assert forall|i: int| 0 <= i < e.len() implies #[trigger] b.subrange(pos, pos + e.len())[i]
            == e[i] by {
            assert(b[pos + i] == dec(n)[i] as u8);
        }
    }
    assert(b[pos + 0] == dec(n)[0] as u8);
    assert(is_digit_byte(e[0]));
    lemma_digits_run(b, pos, e);
    assert(!starts_with(b.skip(pos), true_literal())) by {
        if 4 <= b.skip(pos).len() {
            assert(b.skip(pos).take(4)[0] == b[pos]);
        }
        assert(true_literal()[0] == 0x54);
    }
    assert(!starts_with(b.skip(pos), false_literal())) by {
        if 5 <= b.skip(pos).len() {
            assert(b.skip(pos).take(5)[0] == b[pos]);
        }
        assert(false_literal()[0] == 0x46);
    }
}

/// The dimensions as literals.
pub open spec fn dim_literals(shape: Seq<u64>) -> Seq<PyModel> {
    Seq::new(shape.len(), |i: int| PyModel::Int(shape[i] as int))
}

proof fn lemma_dims_back(shape: Seq<u64>)
    ensures
        dims_of(dim_literals(shape)) == Some(shape),
    decreases shape.len(),
{
    let l = dim_literals(shape);
    if shape.len() > 0 {
        lemma_dims_back(shape.drop_last());
        assert(l.drop_last() =~= dim_literals(shape.drop_last()));
        assert(shape.drop_last().push(shape.last()) =~= shape);
    } else {
        assert(shape =~= seq![]);
    }
}

/// The first dimension of a joined list comes first.
proof fn lemma_joined_front(shape: Seq<u64>)
    requires
        shape.len() >= 2,
    ensures
        joined(shape) == dec(shape[0] as nat) + seq![',', ' '] + joined(shape.skip(1)),
    decreases shape.len(),
{
    let d = dec(shape[0] as nat);
    let z = dec(shape.last() as nat);
    if shape.len() == 2 {
        assert(shape.drop_last()[0] == shape[0]);
        assert(shape.skip(1)[0] == shape.last());
        assert(joined(shape.drop_last()) == d);
        assert(joined(shape.skip(1)) == z);
    } else {
        lemma_joined_front(shape.drop_last());
        let mid = joined(shape.drop_last().skip(1));
        assert(shape.drop_last().skip(1) =~= shape.skip(1).drop_last());
        assert(shape.skip(1).last() == shape.last());
        assert(joined(shape.skip(1)) == mid + seq![',', ' '] + z);
        assert(shape.drop_last()[0] == shape[0]);
        assert(d + seq![',', ' '] + mid + seq![',', ' '] + z =~= d + seq![',', ' '] + (mid + seq![
            ',',
            ' ',
        ] + z));
    }
}

pub open spec fn dims_fit(shape: Seq<u64>) -> bool {
    forall|i: int| 0 <= i < shape.len() ==> #[trigger] shape[i] <= i64::MAX
}

proof fn lemma_items_back(b: Seq<u8>, pos: int, p: int, shape: Seq<u64>, acc: Seq<PyModel>)
    requires
        0 <= pos <= p,
        skip_ws(b, pos) == p,
        dims_fit(shape),
        spells(b, p, joined(shape) + seq![')']),
    ensures
        py_items_from(b, pos, RPAREN, true, acc) == Ok::<(PyModel, int), Seq<char>>(
            (PyModel::Items(acc + dim_literals(shape), true), p + joined(shape).len() + 1),
        ),
    decreases shape.len(),
{
    lemma_spells_split(b, p, joined(shape), seq![')']);
    let end = p + joined(shape).len();
    assert(b[end + 0] == seq![')'][0] as u8);
    if shape.len() == 0 {
        assert(acc + dim_literals(shape) =~= acc);
    } else {
        let d = dec(shape[0] as nat);
        let lit = PyModel::Int(shape[0] as int);
        assert(shape[0] <= i64::MAX);
        if shape.len() == 1 {
            lemma_number_back(b, p, shape[0] as nat);
            assert(skip_ws(b, p) == p);
            assert(skip_ws(b, end) == end);
            assert(acc.push(lit) =~= acc + dim_literals(shape));
        } else {
            let rest = shape.skip(1);
            lemma_joined_front(shape);
            assert(joined(shape) + seq![')'] =~= d + (seq![',', ' '] + (joined(rest) + seq![')'])));
            lemma_spells_split(b, p, d, seq![',', ' '] + (joined(rest) + seq![')']));
            let c = p + d.len();
            lemma_spells_split(b, c, seq![',', ' '], joined(rest) + seq![')']);
            assert(b[c + 0] == seq![',', ' '][0] as u8);
            assert(b[c + 1] == seq![',', ' '][1] as u8);
            lemma_number_back(b, p, shape[0] as nat);
            assert(skip_ws(b, c) == c);
            let q = c + 2;
            assert(q < b.len() && !is_ws(b[q])) by {
                lemma_joined_start(b, q, rest);
            }
            assert(skip_ws(b, q) == q);
            assert(skip_ws(b, c + 1) == q);
            assert forall|i: int| 0 <= i < rest.len() implies #[trigger] rest[i] <= i64::MAX by {
                assert(rest[i] == shape[i + 1]);
            }
            lemma_items_back(b, c + 1, q, rest, acc.push(lit));
            assert(acc.push(lit) + dim_literals(rest) =~= acc + dim_literals(shape));
        }
    }
}

/// A joined list starts with a digit, or is empty.
proof fn lemma_joined_start(b: Seq<u8>, pos: int, shape: Seq<u64>)
    requires
        spells(b, pos, joined(shape) + seq![')']),
    ensures
        pos < b.len(),
        !is_ws(b[pos]),
{
    let w = joined(shape) + seq![')'];
    assert(b[pos + 0] == w[0] as u8);
    if shape.len() == 0 {
        assert(w[0] == ')');
    } else {
        let d = dec(shape[0] as nat);
        lemma_dec(shape[0] as nat);
        lemma_encode_ascii(d);
        if shape.len() >= 2 {
            lemma_joined_front(shape);
        }
        assert(w[0] == d[0]);
        assert(is_digit_byte(encode_utf8(d)[0]));
    }
}

proof fn lemma_shape_back(b: Seq<u8>, pos: int, shape: Seq<u64>)
    requires
        dims_fit(shape),
        spells(b, pos, tuple_text(shape)),
    ensures
        py_value_at(b, pos) == Ok::<(PyModel, int), Seq<char>>(
            (PyModel::Items(dim_literals(shape), true), pos + tuple_text(shape).len()),
        ),
        byte_is(b, pos, LPAREN),
{
    if shape.len() == 1 {
        let d = dec(shape[0] as nat);
        let lit = PyModel::Int(shape[0] as int);
        assert(shape[0] <= i64::MAX);
        assert(tuple_text(shape) =~= seq!['('] + (d + seq![',', ')']));
        lemma_spells_split(b, pos, seq!['('], d + seq![',', ')']);
        lemma_spells_split(b, pos + 1, d, seq![',', ')']);
        assert(b[pos + 0] == seq!['('][0] as u8);
        let c = pos + 1 + d.len();
        assert(b[c + 0] == seq![',', ')'][0] as u8);
        assert(b[c + 1] == seq![',', ')'][1] as u8);
        lemma_number_back(b, pos + 1, shape[0] as nat);
        assert(skip_ws(b, pos + 1) == pos + 1);
        assert(skip_ws(b, c) == c);
        assert(skip_ws(b, c + 1) == c + 1);
        let acc = seq![].push(lit);
        assert(py_items_from(b, c + 1, RPAREN, true, acc) == Ok::<(PyModel, int), Seq<char>>(
            (PyModel::Items(acc, true), c + 2),
        ));
        assert(acc =~= dim_literals(shape));
    } else {
        assert(tuple_text(shape) =~= seq!['('] + (joined(shape) + seq![')']));
        lemma_spells_split(b, pos, seq!['('], joined(shape) + seq![')']);
        assert(b[pos + 0] == seq!['('][0] as u8);
        lemma_joined_start(b, pos + 1, shape);
        lemma_items_back(b, pos + 1, pos + 1, shape, seq![]);
        assert(seq![] + dim_literals(shape) =~= dim_literals(shape));
    }
}

proof fn lemma_truth_back(b: Seq<u8>, pos: int, truth: bool)
    requires
        spells(
            b,
            pos,
            if truth {
                "True"@
            } else {
                "False"@
            },
        ),
    ensures
        py_value_at(b, pos) == Ok::<(PyModel, int), Seq<char>>(
            (
                PyModel::Bool(truth),
                pos + if truth {
                    4int
                } else {
                    5
                },
            ),
        ),
        pos < b.len(),
        !is_ws(b[pos]),
{
    reveal_strlit("True");
    reveal_strlit("False");
    if truth {
        let s = "True"@;
        assert(b[pos + 0] == s[0] as u8 && b[pos + 1] == s[1] as u8 && b[pos + 2] == s[2] as u8
            && b[pos + 3] == s[3] as u8);
        assert(b.skip(pos).take(4) =~= true_literal());
    } else {
        let s = "False"@;
        assert(b[pos + 0] == s[0] as u8 && b[pos + 1] == s[1] as u8 && b[pos + 2] == s[2] as u8
            && b[pos + 3] == s[3] as u8 && b[pos + 4] == s[4] as u8);
        assert(b.skip(pos).take(5) =~= false_literal());
        assert(b.skip(pos).take(4)[0] == b[pos]);
        assert(true_literal()[0] == 0x54);
    }
}

/// A key and the colon behind it.
proof fn lemma_key_parts(b: Seq<u8>, k: int, key: Seq<char>)
    requires
        ascii(key),
        plain(key),
        occurs(b, k, encode_utf8(single_quoted(key) + seq![':', ' '])),
    ensures
        encode_utf8(single_quoted(key) + seq![':', ' ']).len() == key.len() + 4,
        py_value_at(b, k) == Ok::<(PyModel, int), Seq<char>>(
            (PyModel::Str(key), k + key.len() + 2),
        ),
        byte_is(b, k, APOSTROPHE),
        byte_is(b, k + key.len() + 2, COLON),
        byte_is(b, k + key.len() + 3, SPACE),
{
    let colon = seq![':', ' '];
    lemma_encode_ascii(key);
    lemma_encode_concat(single_quoted(key), colon);
    lemma_text_split(b, k, single_quoted(key), colon);
    lemma_text_back(b, k, key);
    let c = k + key.len() + 2;
    lemma_spelled(b, c, colon);
    assert(b[c + 0] == colon[0] as u8);
    assert(b[c + 1] == colon[1] as u8);
}

/// One entry of the dict is read.
proof fn lemma_pair_back(
    b: Seq<u8>,
    pos: int,
    k: int,
    key: Seq<char>,
    v: PyModel,
    end: int,
    acc: Seq<(Seq<char>, PyModel)>,
)
    requires
        0 <= pos <= k,
        skip_ws(b, pos) == k,
        ascii(key),
        plain(key),
        occurs(b, k, encode_utf8(single_quoted(key) + seq![':', ' '])),
        k + key.len() + 4 < b.len(),
        !is_ws(b[k + key.len() + 4]),
        py_value_at(b, k + key.len() + 4) == Ok::<(PyModel, int), Seq<char>>((v, end)),
        byte_is(b, end, COMMA),
    ensures
        pairs_from(b, pos, acc) == pairs_from(b, end + 1, acc.push((key, v))),
{
    lemma_key_parts(b, k, key);
    let c = k + key.len() + 2;
    assert(skip_ws(b, c) == c);
    assert(skip_ws(b, c + 2) == c + 2);
    assert(skip_ws(b, c + 1) == c + 2);
    assert(skip_ws(b, end) == end);
}

/// The dict, piece by piece.
proof fn lemma_dict_pieces(descr: Seq<char>, fortran: bool, shape: Seq<u64>)
    ensures
        npy_dict(descr, fortran, shape) == seq!['{'] + ((single_quoted("descr"@) + seq![':', ' '])
            + (single_quoted(descr) + (seq![',', ' '] + ((single_quoted("fortran_order"@) + seq![
            ':',
            ' ',
        ]) + ((if fortran {
            "True"@
        } else {
            "False"@
        }) + (seq![',', ' '] + ((single_quoted("shape"@) + seq![':', ' ']) + (tuple_text(shape)
            + seq![',', ' ', '}'])))))))),
{
    reveal_strlit("{'descr': '");
    reveal_strlit("', 'fortran_order': ");
    reveal_strlit(", 'shape': ");
    reveal_strlit(", }");
    reveal_strlit("descr");
    reveal_strlit("fortran_order");
    reveal_strlit("shape");
    let tf = if fortran {
        "True"@
    } else {
        "False"@
    };
    let x = seq!['\''] + seq![',', ' '] + (single_quoted("fortran_order"@) + seq![':', ' ']);
    assert("{'descr': '"@ =~= seq!['{'] + (single_quoted("descr"@) + seq![':', ' ']) + seq!['\'']);
    assert("', 'fortran_order': "@ =~= x);
    assert(", 'shape': "@ =~= seq![',', ' '] + (single_quoted("shape"@) + seq![':', ' ']));
    assert(", }"@ =~= seq![',', ' ', '}']);
    lemma_regroup(
        seq!['{'],
        single_quoted("descr"@) + seq![':', ' '],
        descr,
        single_quoted("fortran_order"@) + seq![':', ' '],
        tf,
        single_quoted("shape"@) + seq![':', ' '],
        tuple_text(shape),
        ", }"@,
    );
}

proof fn lemma_regroup(
    a: Seq<char>,
    k1: Seq<char>,
    d: Seq<char>,
    k2: Seq<char>,
    t: Seq<char>,
    k3: Seq<char>,
    s: Seq<char>,
    z: Seq<char>,
)
    ensures
        (a + k1 + seq!['\'']) + d + (seq!['\''] + seq![',', ' '] + k2) + t + (seq![',', ' '] + k3)
            + s + z == a + (k1 + (single_quoted(d) + (seq![',', ' '] + (k2 + (t + (seq![',', ' ']
            + (k3 + (s + z)))))))),
{
    let q = seq!['\''];
    let c = seq![',', ' '];
    let r1 = k3 + (s + z);
    let r2 = k2 + (t + (c + r1));
    assert((a + k1 + q) + d + (q + c + k2) + t + (c + k3) + s + z =~= (a + k1 + q) + d + (q + c
        + k2) + (t + (c + (k3 + (s + z)))));
    assert((a + k1 + q) + d + (q + c + k2) + (t + (c + r1)) =~= (a + k1 + q) + d + (q + (c + r2)));
    assert((a + k1 + q) + d + (q + (c + r2)) =~= a + (k1 + (single_quoted(d) + (c + r2))));
}

pub open spec fn dict_pairs(descr: Seq<char>, fortran: bool, shape: Seq<u64>) -> Seq<
    (Seq<char>, PyModel),
> {
    seq![
        ("descr"@, PyModel::Str(descr)),
        ("fortran_order"@, PyModel::Bool(fortran)),
        ("shape"@, PyModel::Items(dim_literals(shape), true)),
    ]
}

proof fn lemma_keys_plain()
    ensures
        plain("descr"@) && ascii("descr"@),
        plain("fortran_order"@) && ascii("fortran_order"@),
        plain("shape"@) && ascii("shape"@),
        "descr"@.len() == 5,
        "fortran_order"@.len() == 13,
        "shape"@.len() == 5,
        "fortran_order"@ != "descr"@,
        "shape"@ != "descr"@,
        "shape"@ != "fortran_order"@,
{
    reveal_strlit("descr");
    reveal_strlit("fortran_order");
    reveal_strlit("shape");
    assert("shape"@[0] != "descr"@[0]);
}

/// Where the parts of an entry stand.
proof fn lemma_entry_parts(b: Seq<u8>, k: int, key: Seq<char>, v: Seq<char>, rest: Seq<char>)
    requires
        ascii(key),
        plain(key),
        occurs(
            b,
            k,
            encode_utf8((single_quoted(key) + seq![':', ' ']) + (v + (seq![',', ' '] + rest))),
        ),
    ensures
        occurs(b, k, encode_utf8(single_quoted(key) + seq![':', ' '])),
        byte_is(b, k, APOSTROPHE),
        skip_ws(b, k) == k,
        occurs(b, k + key.len() + 4, encode_utf8(v)),
        byte_is(b, k + key.len() + 4 + encode_utf8(v).len(), COMMA),
        byte_is(b, k + key.len() + 4 + encode_utf8(v).len() + 1, SPACE),
        occurs(b, k + key.len() + 4 + encode_utf8(v).len() + 2, encode_utf8(rest)),
{
    let sep = seq![',', ' '];
    let head = single_quoted(key) + seq![':', ' '];
    lemma_text_split(b, k, head, v + (sep + rest));
    lemma_key_parts(b, k, key);
    lemma_text_split(b, k + key.len() + 4, v, sep + rest);
    let e = k + key.len() + 4 + encode_utf8(v).len();
    lemma_text_split(b, e, sep, rest);
    lemma_spelled(b, e, sep);
    assert(b[e + 0] == sep[0] as u8);
    assert(b[e + 1] == sep[1] as u8);
}

/// The last entry and the end of the dict.
proof fn lemma_third_entry(b: Seq<u8>, k: int, shape: Seq<u64>, acc: Seq<(Seq<char>, PyModel)>)
    requires
        1 <= k,
        byte_is(b, k - 1, SPACE),
        dims_fit(shape),
        occurs(
            b,
            k,
            encode_utf8(
                (single_quoted("shape"@) + seq![':', ' ']) + (tuple_text(shape) + (seq![',', ' ']
                    + seq!['}'])),
            ),
        ),
    ensures
        pairs_from(b, k - 1, acc) == Ok::<Seq<(Seq<char>, PyModel)>, Seq<char>>(
            acc.push(("shape"@, PyModel::Items(dim_literals(shape), true))),
        ),
{
    let v = PyModel::Items(dim_literals(shape), true);
    lemma_keys_plain();
    lemma_entry_parts(b, k, "shape"@, tuple_text(shape), seq!['}']);
    lemma_tuple_ascii(shape);
    lemma_spelled(b, k + 9, tuple_text(shape));
    lemma_shape_back(b, k + 9, shape);
    let e = k + 9 + tuple_text(shape).len();
    lemma_spelled(b, e + 2, seq!['}']);
    assert(b[e + 2 + 0] == seq!['}'][0] as u8);
    assert(skip_ws(b, k - 1) == k);
    lemma_pair_back(b, k - 1, k, "shape"@, v, e, acc);
    assert(skip_ws(b, e + 2) == e + 2);
    assert(skip_ws(b, e + 1) == e + 2);
}

/// The last two entries.
proof fn lemma_second_entry(
    b: Seq<u8>,
    k: int,
    fortran: bool,
    shape: Seq<u64>,
    acc: Seq<(Seq<char>, PyModel)>,
)
    requires
        1 <= k,
        byte_is(b, k - 1, SPACE),
        dims_fit(shape),
        occurs(
            b,
            k,
            encode_utf8(
                (single_quoted("fortran_order"@) + seq![':', ' ']) + ((if fortran {
                    "True"@
                } else {
                    "False"@
                }) + (seq![',', ' '] + ((single_quoted("shape"@) + seq![':', ' ']) + (tuple_text(
                    shape,
                ) + (seq![',', ' '] + seq!['}']))))),
            ),
        ),
    ensures
        pairs_from(b, k - 1, acc) == Ok::<Seq<(Seq<char>, PyModel)>, Seq<char>>(
            acc.push(("fortran_order"@, PyModel::Bool(fortran))).push(
                ("shape"@, PyModel::Items(dim_literals(shape), true)),
            ),
        ),
{
    let tf = if fortran {
        "True"@
    } else {
        "False"@
    };
    let rest = (single_quoted("shape"@) + seq![':', ' ']) + (tuple_text(shape) + (seq![',', ' ']
        + seq!['}']));
    lemma_keys_plain();
    lemma_entry_parts(b, k, "fortran_order"@, tf, rest);
    reveal_strlit("True");
    reveal_strlit("False");
    lemma_spelled(b, k + 17, tf);
    lemma_truth_back(b, k + 17, fortran);
    let e = k + 17 + tf.len();
    assert(skip_ws(b, k - 1) == k);
    lemma_pair_back(b, k - 1, k, "fortran_order"@, PyModel::Bool(fortran), e, acc);
    lemma_third_entry(b, e + 2, shape, acc.push(("fortran_order"@, PyModel::Bool(fortran))));
}

proof fn lemma_dict_back(b: Seq<u8>, descr: Seq<char>, fortran: bool, shape: Seq<u64>)
    requires
        plain(descr),
        dims_fit(shape),
        occurs(b, 0, encode_utf8(npy_dict(descr, fortran, shape))),
    ensures
        dict_of(b) == Ok::<Seq<(Seq<char>, PyModel)>, Seq<char>>(dict_pairs(descr, fortran, shape)),
{
    let tf = if fortran {
        "True"@
    } else {
        "False"@
    };
    let sep = seq![',', ' '];
    assert(seq![',', ' ', '}'] =~= sep + seq!['}']);
    let rest = (single_quoted("fortran_order"@) + seq![':', ' ']) + (tf + (sep + ((single_quoted(
        "shape"@,
    ) + seq![':', ' ']) + (tuple_text(shape) + (sep + seq!['}'])))));
    let first = (single_quoted("descr"@) + seq![':', ' ']) + (single_quoted(descr) + (sep + rest));
    lemma_keys_plain();
    lemma_dict_pieces(descr, fortran, shape);
    lemma_encode_one('{');
    lemma_text_split(b, 0, seq!['{'], first);
    lemma_occurs_index(b, 0, seq![LBRACE], 0);
    lemma_entry_parts(b, 1, "descr"@, single_quoted(descr), rest);
    lemma_text_back(b, 10, descr);
    let e: int = 12 + encode_utf8(descr).len() as int;
    assert(skip_ws(b, 0) == 0);
    lemma_pair_back(b, 1, 1, "descr"@, PyModel::Str(descr), e, seq![]);
    lemma_second_entry(b, e + 2, fortran, shape, seq![].push(("descr"@, PyModel::Str(descr))));
    assert(seq![].push(("descr"@, PyModel::Str(descr))).push(
        ("fortran_order"@, PyModel::Bool(fortran)),
    ).push(("shape"@, PyModel::Items(dim_literals(shape), true))) =~= dict_pairs(
        descr,
        fortran,
        shape,
    ));
}

proof fn lemma_entries_back(descr: Seq<char>, fortran: bool, shape: Seq<u64>)
    ensures
        entries_from(dict_pairs(descr, fortran, shape), 0, no_entries()) == Ok::<
            Entries,
            Seq<char>,
        >(
            Entries {
                descr: Some(PyModel::Str(descr)),
                fortran_order: Some(fortran),
                shape: Some(PyModel::Items(dim_literals(shape), true)),
                problems: seq![],
            },
        ),
{
    lemma_keys_plain();
    let pairs = dict_pairs(descr, fortran, shape);
    reveal_with_fuel(entries_from, 4);
    let e1 = Entries { descr: Some(PyModel::Str(descr)), ..no_entries() };
    let e2 = Entries { fortran_order: Some(fortran), ..e1 };
    let e3 = Entries { shape: Some(PyModel::Items(dim_literals(shape), true)), ..e2 };
    assert(entry_step(no_entries(), pairs[0].0, pairs[0].1) == Ok::<Entries, Seq<char>>(e1));
    assert(entry_step(e1, pairs[1].0, pairs[1].1) == Ok::<Entries, Seq<char>>(e2));
    assert(entry_step(e2, pairs[2].0, pairs[2].1) == Ok::<Entries, Seq<char>>(e3));
    assert(entries_from(pairs, 3, e3) == Ok::<Entries, Seq<char>>(e3));
    assert(entries_from(pairs, 2, e2) == Ok::<Entries, Seq<char>>(e3));
    assert(entries_from(pairs, 1, e1) == Ok::<Entries, Seq<char>>(e3));
}

/// When no step of the product exceeds `u64`, the product is exact.
pub proof fn lemma_numel64_product(shape: Seq<u64>)
    requires
        numel64(shape) is Some,
    ensures
        numel64(shape) == Some(product(shape)),
        numel_of(shape) == product(shape),
        product(shape) <= u64::MAX,
    decreases shape.len(),
{
    if shape.len() > 0 {
        lemma_numel64_product(shape.drop_last());
    }
}

/// The header of an array as the writer lays it out.
pub open spec fn written_header(
    major: u8,
    base: nat,
    descr: Seq<char>,
    fortran: bool,
    shape: Seq<u64>,
) -> NpyModel {
    let dict = npy_padded(encode_utf8(npy_dict(descr, fortran, shape)), base);
    let (dtype, size, order) = descr_of(descr)->0;
    NpyModel {
        version: (major, 0),
        header_total: base + dict.len(),
        descr: Doc::Str(descr),
        dtype,
        itemsize: Some(size),
        byte_order: order,
        fortran_order: fortran,
        shape,
        problems: seq![],
    }
}

/// The dict is text, with its padding.
proof fn lemma_padded(text: Seq<char>, base: nat)
    ensures
        ({
            let b = npy_padded(encode_utf8(text), base);
            &&& valid_utf8(b)
            &&& occurs(b, 0, encode_utf8(text))
            &&& (base + b.len()) % 64 == 0
        }),
{
    let dict = encode_utf8(text);
    let b = npy_padded(dict, base);
    let n = padding(base + dict.len() + 1, 64);
    let blank = Seq::new(n, |i: int| ' ');
    let tail = blank + seq!['\n'];
    assert(ascii(tail));
    lemma_encode_concat(text, tail);
    lemma_encode_ascii(tail);
    assert(encode_utf8(tail) =~= spaces(n) + seq![10u8]);
    assert(b =~= encode_utf8(text + tail));
    encode_utf8_valid_utf8(text + tail);
    assert(b.subrange(0, dict.len() as int) =~= dict);
}

proof fn lemma_tuple_ascii(shape: Seq<u64>)
    ensures
        ascii(tuple_text(shape)),
{
    if shape.len() == 1 {
        lemma_dec(shape[0] as nat);
    } else {
        lemma_joined_ascii(shape);
    }
}

proof fn lemma_joined_ascii(shape: Seq<u64>)
    ensures
        ascii(joined(shape)),
    decreases shape.len(),
{
    if shape.len() == 1 {
        lemma_dec(shape[0] as nat);
    } else if shape.len() > 1 {
        lemma_joined_ascii(shape.drop_last());
        lemma_dec(shape.last() as nat);
    }
}

/// The bytes around a dict.
proof fn lemma_around(major: u8, dict: Seq<u8>, n: nat, data_len: nat)
    requires
        (major == 1 && n == 2) || (major == 2 && n == 4),
        dict.len() < pow256(n),
        8 + n + dict.len() <= MAX_PREFIX,
    ensures
        ({
            let f = npy_around(major, dict, n, data_len);
            let b = prefix_of(f);
            &&& f.len() == 8 + n + dict.len() + data_len
            &&& b.len() >= 8 + n + dict.len()
            &&& b.take(6) == MAGIC@
            &&& b[6] == major
            &&& b[7] == 0
            &&& le(b, 8, n) == dict.len()
            &&& b.subrange(8 + n as int, 8 + n as int + dict.len()) == dict
        }),
{
    let f = npy_around(major, dict, n, data_len);
    let b = prefix_of(f);
    lemma_le_bytes_len(dict.len(), n);
    assert(b.take(6) =~= MAGIC@);
    assert(b.subrange(8, 8 + n as int) =~= le_bytes(dict.len(), n));
    lemma_le_round_trip(b, 8, dict.len(), n);
    assert(b.subrange(8 + n as int, 8 + n as int + dict.len()) =~= dict);
}

proof fn lemma_header_back(
    major: u8,
    n: nat,
    descr: Seq<char>,
    fortran: bool,
    shape: Seq<u64>,
    data_len: nat,
)
    requires
        (major == 1 && n == 2) || (major == 2 && n == 4),
        descr_of(descr) is Some,
        plain(descr),
        dims_fit(shape),
        npy_padded(encode_utf8(npy_dict(descr, fortran, shape)), 8 + n).len() < pow256(n),
        8 + n + npy_padded(encode_utf8(npy_dict(descr, fortran, shape)), 8 + n).len()
            <= MAX_PREFIX,
    ensures
        ({
            let dict = npy_padded(encode_utf8(npy_dict(descr, fortran, shape)), 8 + n);
            let f = npy_around(major, dict, n, data_len);
            let h = written_header(major, 8 + n, descr, fortran, shape);
            &&& header_model(prefix_of(f)) == Ok::<NpyModel, Seq<char>>(h)
            &&& h.header_total % 64 == 0
            &&& f.len() == h.header_total + data_len
        }),
{
    let text = npy_dict(descr, fortran, shape);
    let dict = npy_padded(encode_utf8(text), 8 + n);
    let f = npy_around(major, dict, n, data_len);
    let b = prefix_of(f);
    lemma_padded(text, 8 + n);
    lemma_around(major, dict, n, data_len);
    lemma_dict_back(dict, descr, fortran, shape);
    lemma_entries_back(descr, fortran, shape);
    lemma_dims_back(shape);
    let h = written_header(major, 8 + n, descr, fortran, shape);
    let e = Entries {
        descr: Some(PyModel::Str(descr)),
        fortran_order: Some(fortran),
        shape: Some(PyModel::Items(dim_literals(shape), true)),
        problems: seq![],
    };
    assert(e.problems + seq![] =~= seq![]);
    assert(header_of((major, 0u8), 8 + n + dict.len(), e) == Ok::<NpyModel, Seq<char>>(h));
    let start: int = if b[6] == 1 {
        10
    } else {
        12
    };
    assert(start == 8 + n);
}

/// What is wrong with an array of `len` bytes of which `present` are there:
/// nothing when all are, and otherwise exactly the bytes that are missing.
pub open spec fn cut_short(present: nat, len: nat) -> Seq<Seq<char>> {
    if present == len {
        seq![]
    } else {
        seq![
            "array data needs "@ + dec(len) + " bytes but only "@ + dec(present)
                + " are present ("@ + dec((len - present) as nat)
                + " missing) — truncated file"@,
        ]
    }
}

proof fn lemma_parse_back(
    f: Seq<u8>,
    h: NpyModel,
    data_len: nat,
    flen: nat,
    path: Seq<char>,
)
    requires
        header_model(prefix_of(f)) == Ok::<NpyModel, Seq<char>>(h),
        h.header_total <= MAX_PREFIX,
        f.len() == h.header_total + data_len,
        h.header_total <= flen <= f.len(),
        h.problems == Seq::<Seq<char>>::empty(),
        data_size(h.shape, h.itemsize) == Some(data_len),
    ensures
        parse_model(f.take(flen as int), flen, path) == Ok::<ReportModel, Seq<char>>(
            report_of(path, flen, h),
        ),
        report_of(path, flen, h).data_bytes == data_len,
        report_of(path, flen, h).problems == cut_short((flen - h.header_total) as nat, data_len),
{
    let a = prefix_of(f);
    let b = prefix_of(f.take(flen as int));
    assert(a.take(h.header_total as int) =~= b.take(h.header_total as int));
    law_header_is_enough(a, b);
    assert(size_problems((flen - h.header_total) as nat, Some(data_len), h.problems) =~= cut_short(
        (flen - h.header_total) as nat,
        data_len,
    ));
}

/// The header of a written file, and the data behind it.
pub proof fn lemma_npy_header(descr: Seq<char>, fortran: bool, shape: Seq<u64>)
    requires
        npy_writable(descr, shape),
        plain(descr),
        dims_fit(shape),
        npy_padded(encode_utf8(npy_dict(descr, fortran, shape)), 10).len() <= u16::MAX,
    ensures
        ({
            let f = npy_file(descr, fortran, shape);
            let h = written_header(1, 10, descr, fortran, shape);
            let len = npy_data_len(descr, shape);
            &&& header_model(prefix_of(f)) == Ok::<NpyModel, Seq<char>>(h)
            &&& h.header_total % 64 == 0
            &&& f.len() == h.header_total + len
            &&& data_size(shape, h.itemsize) == Some(len)
        }),
{
    reveal_with_fuel(pow256, 3);
    lemma_header_back(1, 2, descr, fortran, shape, npy_data_len(descr, shape));
    lemma_numel64_product(shape);
}

/// What is written with `npy` is read back: version 1.0, the same descr,
/// order and shape, data starting on a 64-byte boundary, header and data
/// together exactly the file. The file may be cut anywhere after its header:
/// whole, it has no problem; cut short, the one problem names exactly the
/// bytes that are missing. Left out are descrs that do not stand for
/// themselves in quotes, dimensions beyond `i64`, and headers too long for the
/// length field.
pub proof fn law_npy_reads_back(
    descr: Seq<char>,
    fortran: bool,
    shape: Seq<u64>,
    flen: nat,
    path: Seq<char>,
)
    requires
        npy_writable(descr, shape),
        plain(descr),
        dims_fit(shape),
        npy_padded(encode_utf8(npy_dict(descr, fortran, shape)), 10).len() <= u16::MAX,
        written_header(1, 10, descr, fortran, shape).header_total <= flen,
        flen <= npy_file(descr, fortran, shape).len(),
    ensures
        ({
            let f = npy_file(descr, fortran, shape);
            let h = written_header(1, 10, descr, fortran, shape);
            let len = npy_data_len(descr, shape);
            let r = report_of(path, flen, h);
            &&& parse_model(f.take(flen as int), flen, path) == Ok::<ReportModel, Seq<char>>(r)
            &&& h.header_total % 64 == 0
            &&& h.header_total + len == f.len()
            &&& r.data_bytes == len
            &&& r.problems == cut_short((flen - h.header_total) as nat, len)
        }),
{
    let len = npy_data_len(descr, shape);
    lemma_npy_header(descr, fortran, shape);
    lemma_parse_back(
        npy_file(descr, fortran, shape),
        written_header(1, 10, descr, fortran, shape),
        len,
        flen,
        path,
    );
}

/// The same of a file written with `npy_v2`: version 2.0, a 32-bit length
/// field. Left out besides: headers longer than any header that is read.
pub proof fn law_npy_v2_reads_back(
    descr: Seq<char>,
    fortran: bool,
    shape: Seq<u64>,
    flen: nat,
    path: Seq<char>,
)
    requires
        npy_writable(descr, shape),
        plain(descr),
        dims_fit(shape),
        written_header(2, 12, descr, fortran, shape).header_total <= MAX_PREFIX,
        written_header(2, 12, descr, fortran, shape).header_total <= flen,
        flen <= npy_v2_file(descr, fortran, shape).len(),
    ensures
        ({
            let f = npy_v2_file(descr, fortran, shape);
            let h = written_header(2, 12, descr, fortran, shape);
            let len = npy_data_len(descr, shape);
            let r = report_of(path, flen, h);
            &&& parse_model(f.take(flen as int), flen, path) == Ok::<ReportModel, Seq<char>>(r)
            &&& h.header_total % 64 == 0
            &&& h.header_total + len == f.len()
            &&& r.data_bytes == len
            &&& r.problems == cut_short((flen - h.header_total) as nat, len)
        }),
{
    reveal_with_fuel(pow256, 5);
    let len = npy_data_len(descr, shape);
    lemma_header_back(2, 4, descr, fortran, shape, len);
    lemma_numel64_product(shape);
    lemma_parse_back(
        npy_v2_file(descr, fortran, shape),
        written_header(2, 12, descr, fortran, shape),
        len,
        flen,
        path,
    );
}

/// Only the header is looked at: bytes that start with the same whole header
/// give the same result, whatever follows.
pub proof fn law_header_is_enough(a: Seq<u8>, b: Seq<u8>)
    requires
        header_model(a) is Ok,
        header_model(a)->Ok_0.header_total <= b.len(),
        a.take(header_model(a)->Ok_0.header_total as int) == b.take(
            header_model(a)->Ok_0.header_total as int,
        ),
    ensures
        header_model(b) == header_model(a),
{
    let total = header_model(a)->Ok_0.header_total as int;
    let start: int = if a[6] == 1 {
        10
    } else {
        12
    };
    let n = le(a, 8, (start - 8) as nat);
    assert(total == start + n);
    assert forall|i: int| 0 <= i < total implies #[trigger] a[i] == b[i] by {
        assert(a.take(total)[i] == b.take(total)[i]);
    }
    assert(a.take(6) =~= b.take(6));
    assert(a.subrange(8, start) =~= b.subrange(8, start));
    lemma_le_window(a, 8, b, 8, (start - 8) as nat);
    assert(a.subrange(start, total) =~= b.subrange(start, total));
}

} // verus!
