//! What the text of an npy header means, however it is laid out.

use vstd::prelude::*;
use vstd::utf8::*;
use crate::bytes::{le_bytes, lemma_le_bytes_len, lemma_le_round_trip, pow256};
use crate::float::{digit_bytes_value, is_digit_byte};
use crate::laws::json_syntax::{blank, dark, lemma_blank};
use crate::laws::json_text::{digit_bytes, lemma_digits_run};
use crate::laws::layout::{lemma_occurs_index, lemma_occurs_part, lemma_occurs_split, occurs};
use crate::npy::{dict_of, entries_from, header_model, header_of, lemma_py_value_progress, no_entries, pairs_from, py_bytes_from, py_items_from, py_value_at, Entries, PyModel, MAGIC};
use crate::text::starts_with;

verus! {

// ---------------------------------------------------------------------------
// Strings
// ---------------------------------------------------------------------------

/// Inside a string every byte stands for itself but the quote that began it,
/// which ends it, and the backslash. A backslash before a quote of either kind
/// or another backslash is dropped; before anything else it stays.
pub proof fn law_string_bytes(b: Seq<u8>, pos: int, quote: u8, acc: Seq<u8>)
    requires
        0 <= pos < b.len(),
        quote == 0x22 || quote == 0x27,
    ensures
        b[pos] == quote ==> py_bytes_from(b, pos, quote, acc) == Ok::<(Seq<u8>, int), Seq<char>>(
            (acc, pos + 1),
        ),
        b[pos] != quote && b[pos] != 0x5c ==> py_bytes_from(b, pos, quote, acc) == py_bytes_from(
            b,
            pos + 1,
            quote,
            acc.push(b[pos]),
        ),
        b[pos] == 0x5c && pos + 1 < b.len() && (b[pos + 1] == 0x5c || b[pos + 1] == 0x22 || b[pos
            + 1] == 0x27) ==> py_bytes_from(b, pos, quote, acc) == py_bytes_from(
            b,
            pos + 2,
            quote,
            acc.push(b[pos + 1]),
        ),
        b[pos] == 0x5c && pos + 1 < b.len() && b[pos + 1] != 0x5c && b[pos + 1] != 0x22 && b[pos
            + 1] != 0x27 ==> py_bytes_from(b, pos, quote, acc) == py_bytes_from(
            b,
            pos + 2,
            quote,
            acc.push(0x5c).push(b[pos + 1]),
        ),
{
}

proof fn lemma_plain_bytes(b: Seq<u8>, pos: int, quote: u8, s: Seq<u8>, acc: Seq<u8>)
    requires
        occurs(b, pos, s),
        forall|i: int| 0 <= i < s.len() ==> #[trigger] s[i] != quote && s[i] != 0x5c,
        pos + s.len() < b.len(),
        b[pos + s.len()] == quote,
        quote == 0x22 || quote == 0x27,
    ensures
        py_bytes_from(b, pos, quote, acc) == Ok::<(Seq<u8>, int), Seq<char>>(
            (acc + s, pos + s.len() + 1),
        ),
    decreases s.len(),
{
    law_string_bytes(b, pos, quote, acc);
    if s.len() == 0 {
        assert(acc + s =~= acc);
    } else {
        lemma_occurs_index(b, pos, s, 0);
        let t = s.skip(1);
        assert(s =~= seq![s[0]] + t);
        lemma_occurs_split(b, pos, seq![s[0]], t);
        assert forall|i: int| 0 <= i < t.len() implies #[trigger] t[i] != quote && t[i] != 0x5c by {
            assert(t[i] == s[i + 1]);
        }
        lemma_plain_bytes(b, pos + 1, quote, t, acc.push(s[0]));
        assert(acc.push(s[0]) + t =~= acc + s);
    }
}

/// A string without quotes and backslashes is its text, in quotes of either
/// kind, behind any white space.
pub proof fn law_plain_strings(b: Seq<u8>, pos: int, at: int, quote: u8, s: Seq<char>)
    requires
        quote == 0x22 || quote == 0x27,
        blank(b, pos, at),
        occurs(b, at, seq![quote] + (encode_utf8(s) + seq![quote])),
        forall|i: int|
            0 <= i < encode_utf8(s).len() ==> #[trigger] encode_utf8(s)[i] != quote && encode_utf8(
                s,
            )[i] != 0x5c,
    ensures
        py_value_at(b, pos) == Ok::<(PyModel, int), Seq<char>>(
            (PyModel::Str(s), at + 2 + encode_utf8(s).len()),
        ),
{
    let e = encode_utf8(s);
    lemma_occurs_split(b, at, seq![quote], e + seq![quote]);
    lemma_occurs_index(b, at, seq![quote], 0);
    lemma_occurs_split(b, at + 1, e, seq![quote]);
    lemma_occurs_index(b, at + 1 + e.len(), seq![quote], 0);
    lemma_blank(b, pos, at);
    lemma_plain_bytes(b, at + 1, quote, e, seq![]);
    assert(seq![] + e =~= e);
    encode_utf8_decode_utf8(s);
}

// ---------------------------------------------------------------------------
// Words and numbers
// ---------------------------------------------------------------------------

proof fn lemma_starts(b: Seq<u8>, at: int, w: Seq<u8>)
    requires
        0 <= at <= b.len(),
    ensures
        starts_with(b.skip(at), w) <==> occurs(b, at, w),
{
    if at + w.len() <= b.len() {
        assert(b.skip(at).take(w.len() as int) =~= b.subrange(at, at + w.len()));
    }
}

/// The two truth values, behind any white space.
pub proof fn law_truth_values(b: Seq<u8>, pos: int, at: int)
    requires
        blank(b, pos, at),
    ensures
        occurs(b, at, seq![0x54u8, 0x72, 0x75, 0x65]) ==> py_value_at(b, pos) == Ok::<
            (PyModel, int),
            Seq<char>,
        >((PyModel::Bool(true), at + 4)),
        occurs(b, at, seq![0x46u8, 0x61, 0x6c, 0x73, 0x65]) ==> py_value_at(b, pos) == Ok::<
            (PyModel, int),
            Seq<char>,
        >((PyModel::Bool(false), at + 5)),
{
    let t = seq![0x54u8, 0x72, 0x75, 0x65];
    let f = seq![0x46u8, 0x61, 0x6c, 0x73, 0x65];
    lemma_starts(b, at, t);
    lemma_starts(b, at, f);
    if occurs(b, at, t) {
        lemma_occurs_index(b, at, t, 0);
        lemma_blank(b, pos, at);
    }
    if occurs(b, at, f) {
        lemma_occurs_index(b, at, f, 0);
        lemma_blank(b, pos, at);
        if occurs(b, at, t) {
            lemma_occurs_index(b, at, t, 0);
        }
    }
}

/// A number is what its digits say, with a minus sign before it or without,
/// behind any white space.
pub proof fn law_numbers(b: Seq<u8>, pos: int, at: int, neg: bool, s: Seq<u8>)
    requires
        blank(b, pos, at),
        digit_bytes(s),
        s.len() > 0,
        occurs(
            b,
            at,
            (if neg {
                seq![0x2du8]
            } else {
                seq![]
            }) + s,
        ),
        ({
            let end = at + s.len() + (if neg {
                1int
            } else {
                0
            });
            end >= b.len() || !is_digit_byte(b[end])
        }),
        digit_bytes_value(s) <= i64::MAX,
    ensures
        ({
            let n = digit_bytes_value(s) as int;
            py_value_at(b, pos) == Ok::<(PyModel, int), Seq<char>>(
                if neg {
                    (PyModel::Int(-n), at + 1 + s.len())
                } else {
                    (PyModel::Int(n), at + s.len())
                },
            )
        }),
{
    let sign: Seq<u8> = if neg {
        seq![0x2d]
    } else {
        seq![]
    };
    lemma_occurs_split(b, at, sign, s);
    if neg {
        lemma_occurs_index(b, at, sign, 0);
    }
    let first = at + sign.len();
    lemma_occurs_index(b, first, s, 0);
    assert(is_digit_byte(s[0]));
    lemma_digits_run(b, first, s);
    lemma_blank(b, pos, at);
    let t = seq![0x54u8, 0x72, 0x75, 0x65];
    let f = seq![0x46u8, 0x61, 0x6c, 0x73, 0x65];
    lemma_starts(b, at, t);
    lemma_starts(b, at, f);
    if occurs(b, at, t) {
        lemma_occurs_index(b, at, t, 0);
    }
    if occurs(b, at, f) {
        lemma_occurs_index(b, at, f, 0);
    }
}

// ---------------------------------------------------------------------------
// Tuples and lists
// ---------------------------------------------------------------------------

/// The values `vs`, each from `starts[i]` to `stops[i]`, with a comma behind
/// each but perhaps the last, and `close` at the end; any white space between.
pub open spec fn listed(
    b: Seq<u8>,
    starts: Seq<int>,
    stops: Seq<int>,
    commas: Seq<int>,
    vs: Seq<PyModel>,
    trailing: bool,
    close: int,
    end: u8,
) -> bool {
    &&& starts.len() == vs.len()
    &&& stops.len() == vs.len()
    &&& commas.len() == vs.len()
    &&& 0 <= close < b.len()
    &&& b[close] == end
    &&& forall|i: int|
        0 <= i < vs.len() ==> {
            &&& 0 <= #[trigger] starts[i] < b.len()
            &&& dark(b, starts[i])
            &&& b[starts[i]] != end
            &&& py_value_at(b, starts[i]) == Ok::<(PyModel, int), Seq<char>>((vs[i], stops[i]))
            &&& stops[i] > starts[i]
            &&& blank(b, stops[i], commas[i])
        }
    &&& forall|i: int|
        0 <= i < vs.len() && (i < vs.len() - 1 || trailing) ==> #[trigger] commas[i] < b.len()
            && b[commas[i]] == 0x2c
    &&& forall|i: int|
        0 <= i < vs.len() - 1 ==> blank(b, #[trigger] commas[i] + 1, starts[i + 1])
    &&& vs.len() > 0 && trailing ==> blank(b, commas.last() + 1, close)
    &&& vs.len() > 0 && !trailing ==> commas.last() == close
}

proof fn lemma_items(
    b: Seq<u8>,
    from: int,
    starts: Seq<int>,
    stops: Seq<int>,
    commas: Seq<int>,
    vs: Seq<PyModel>,
    trailing: bool,
    close: int,
    end: u8,
    tuple: bool,
    i: int,
)
    requires
        listed(b, starts, stops, commas, vs, trailing, close, end),
        end == 0x29 || end == 0x5d,
        0 <= i < vs.len(),
        blank(b, from, starts[i]),
    ensures
        py_items_from(b, from, end, tuple, vs.take(i)) == Ok::<(PyModel, int), Seq<char>>(
            (PyModel::Items(vs, tuple), close + 1),
        ),
    decreases vs.len() - i,
{
    assert(0 <= starts[i] < b.len() && dark(b, starts[i]) && b[starts[i]] != end);
    lemma_blank(b, from, starts[i]);
    assert(vs.take(i).push(vs[i]) =~= vs.take(i + 1));
    assert(blank(b, stops[i], commas[i]));
    if i < vs.len() - 1 {
        assert(commas[i] < b.len() && b[commas[i]] == 0x2c);
        lemma_blank(b, stops[i], commas[i]);
        lemma_items(
            b,
            commas[i] + 1,
            starts,
            stops,
            commas,
            vs,
            trailing,
            close,
            end,
            tuple,
            i + 1,
        );
    } else {
        assert(vs.take(i + 1) =~= vs);
        if trailing {
            assert(commas[i] < b.len() && b[commas[i]] == 0x2c);
            lemma_blank(b, stops[i], commas[i]);
            lemma_blank(b, commas[i] + 1, close);
            assert(py_items_from(b, commas[i] + 1, end, tuple, vs) == Ok::<
                (PyModel, int),
                Seq<char>,
            >((PyModel::Items(vs, tuple), close + 1)));
        } else {
            lemma_blank(b, stops[i], commas[i]);
        }
    }
}

/// Round brackets make a tuple of the values between them and square ones a
/// list; a comma may follow the last value, and there may be none.
pub proof fn law_tuples_and_lists(
    b: Seq<u8>,
    pos: int,
    at: int,
    starts: Seq<int>,
    stops: Seq<int>,
    commas: Seq<int>,
    vs: Seq<PyModel>,
    trailing: bool,
    close: int,
)
    requires
        blank(b, pos, at),
        at < b.len(),
        vs.len() > 0 ==> blank(b, at + 1, starts[0]),
        vs.len() == 0 ==> blank(b, at + 1, close),
    ensures
        b[at] == 0x28 && listed(b, starts, stops, commas, vs, trailing, close, 0x29) ==> py_value_at(
            b,
            pos,
        ) == Ok::<(PyModel, int), Seq<char>>((PyModel::Items(vs, true), close + 1)),
        b[at] == 0x5b && listed(b, starts, stops, commas, vs, trailing, close, 0x5d) ==> py_value_at(
            b,
            pos,
        ) == Ok::<(PyModel, int), Seq<char>>((PyModel::Items(vs, false), close + 1)),
{
    let end: u8 = if b[at] == 0x28 {
        0x29
    } else {
        0x5d
    };
    let tuple = b[at] == 0x28;
    if (b[at] == 0x28 || b[at] == 0x5b) && listed(
        b,
        starts,
        stops,
        commas,
        vs,
        trailing,
        close,
        end,
    ) {
        lemma_blank(b, pos, at);
        if vs.len() > 0 {
            assert(vs.take(0) =~= seq![]);
            lemma_items(b, at + 1, starts, stops, commas, vs, trailing, close, end, tuple, 0);
        } else {
            lemma_blank(b, at + 1, close);
            assert(vs =~= seq![]);
        }
    }
}

// ---------------------------------------------------------------------------
// The dictionary
// ---------------------------------------------------------------------------

/// The same of names and values: a string, a colon and a value each.
pub open spec fn paired(
    b: Seq<u8>,
    names: Seq<int>,
    ends: Seq<int>,
    colons: Seq<int>,
    starts: Seq<int>,
    stops: Seq<int>,
    commas: Seq<int>,
    keys: Seq<Seq<char>>,
    vs: Seq<PyModel>,
    trailing: bool,
    close: int,
) -> bool {
    &&& keys.len() == vs.len()
    &&& names.len() == vs.len()
    &&& ends.len() == vs.len()
    &&& colons.len() == vs.len()
    &&& starts.len() == vs.len()
    &&& stops.len() == vs.len()
    &&& commas.len() == vs.len()
    &&& vs.len() > 0
    &&& 0 <= close < b.len()
    &&& b[close] == 0x7d
    &&& forall|i: int|
        0 <= i < vs.len() ==> {
            &&& 0 <= #[trigger] names[i] < b.len()
            &&& dark(b, names[i])
            &&& b[names[i]] != 0x7d
            &&& py_value_at(b, names[i]) == Ok::<(PyModel, int), Seq<char>>(
                (PyModel::Str(keys[i]), ends[i]),
            )
            &&& blank(b, ends[i], colons[i])
            &&& colons[i] < b.len()
            &&& b[colons[i]] == 0x3a
            &&& blank(b, colons[i] + 1, starts[i])
            &&& starts[i] < b.len()
            &&& dark(b, starts[i])
            &&& py_value_at(b, starts[i]) == Ok::<(PyModel, int), Seq<char>>((vs[i], stops[i]))
            &&& blank(b, stops[i], commas[i])
        }
    &&& forall|i: int|
        0 <= i < vs.len() && (i < vs.len() - 1 || trailing) ==> #[trigger] commas[i] < b.len()
            && b[commas[i]] == 0x2c
    &&& forall|i: int|
        0 <= i < vs.len() - 1 ==> blank(b, #[trigger] commas[i] + 1, names[i + 1])
    &&& trailing ==> blank(b, commas.last() + 1, close)
    &&& !trailing ==> commas.last() == close
}

pub open spec fn pairs(keys: Seq<Seq<char>>, vs: Seq<PyModel>) -> Seq<(Seq<char>, PyModel)> {
    Seq::new(vs.len(), |i: int| (keys[i], vs[i]))
}

proof fn lemma_pairs(
    b: Seq<u8>,
    from: int,
    names: Seq<int>,
    ends: Seq<int>,
    colons: Seq<int>,
    starts: Seq<int>,
    stops: Seq<int>,
    commas: Seq<int>,
    keys: Seq<Seq<char>>,
    vs: Seq<PyModel>,
    trailing: bool,
    close: int,
    i: int,
)
    requires
        paired(b, names, ends, colons, starts, stops, commas, keys, vs, trailing, close),
        0 <= i < vs.len(),
        blank(b, from, names[i]),
    ensures
        pairs_from(b, from, pairs(keys, vs).take(i)) == Ok::<
            Seq<(Seq<char>, PyModel)>,
            Seq<char>,
        >(pairs(keys, vs)),
    decreases vs.len() - i,
{
    let all = pairs(keys, vs);
    assert(0 <= names[i] < b.len() && dark(b, names[i]) && b[names[i]] != 0x7d);
    lemma_blank(b, from, names[i]);
    lemma_blank(b, ends[i], colons[i]);
    lemma_blank(b, colons[i] + 1, starts[i]);
    assert(all.take(i).push((keys[i], vs[i])) =~= all.take(i + 1));
    lemma_py_value_progress(b, names[i]);
    lemma_py_value_progress(b, starts[i]);
    assert(blank(b, stops[i], commas[i]));
    if i < vs.len() - 1 {
        assert(commas[i] < b.len() && b[commas[i]] == 0x2c);
        lemma_blank(b, stops[i], commas[i]);
        lemma_pairs(
            b,
            commas[i] + 1,
            names,
            ends,
            colons,
            starts,
            stops,
            commas,
            keys,
            vs,
            trailing,
            close,
            i + 1,
        );
    } else {
        assert(all.take(i + 1) =~= all);
        if trailing {
            assert(commas[i] < b.len() && b[commas[i]] == 0x2c);
            lemma_blank(b, stops[i], commas[i]);
            lemma_blank(b, commas[i] + 1, close);
            assert(pairs_from(b, commas[i] + 1, all) == Ok::<
                Seq<(Seq<char>, PyModel)>,
                Seq<char>,
            >(all));
        } else {
            lemma_blank(b, stops[i], commas[i]);
        }
    }
}

/// A header's dictionary is its names and values in order, whatever white space
/// stands between them; a comma may follow the last.
pub proof fn law_dictionaries(
    b: Seq<u8>,
    open: int,
    names: Seq<int>,
    ends: Seq<int>,
    colons: Seq<int>,
    starts: Seq<int>,
    stops: Seq<int>,
    commas: Seq<int>,
    keys: Seq<Seq<char>>,
    vs: Seq<PyModel>,
    trailing: bool,
    close: int,
)
    requires
        blank(b, 0, open),
        open < b.len(),
        b[open] == 0x7b,
        paired(b, names, ends, colons, starts, stops, commas, keys, vs, trailing, close),
        blank(b, open + 1, names[0]),
    ensures
        dict_of(b) == Ok::<Seq<(Seq<char>, PyModel)>, Seq<char>>(pairs(keys, vs)),
{
    lemma_blank(b, 0, open);
    assert(pairs(keys, vs).take(0) =~= seq![]);
    lemma_pairs(
        b,
        open + 1,
        names,
        ends,
        colons,
        starts,
        stops,
        commas,
        keys,
        vs,
        trailing,
        close,
        0,
    );
}

// ---------------------------------------------------------------------------
// The frame
// ---------------------------------------------------------------------------

/// A header: 0x93 and `NUMPY`, the version, the length of the dictionary in two
/// bytes, or in four from version 2 on, and the dictionary.
pub open spec fn frame_bytes(major: u8, minor: u8, text: Seq<u8>) -> Seq<u8> {
    seq![0x93u8, 0x4e, 0x55, 0x4d, 0x50, 0x59, major, minor] + (le_bytes(
        text.len(),
        if major == 1 {
            2
        } else {
            4
        },
    ) + text)
}

/// A header is read by its dictionary, and ends where that ends.
pub proof fn law_frames(
    b: Seq<u8>,
    major: u8,
    minor: u8,
    text: Seq<u8>,
    pairs: Seq<(Seq<char>, PyModel)>,
    e: Entries,
)
    requires
        1 <= major <= 3,
        major == 1 ==> text.len() <= u16::MAX,
        text.len() <= u32::MAX,
        valid_utf8(text),
        occurs(b, 0, frame_bytes(major, minor, text)),
        dict_of(text) == Ok::<Seq<(Seq<char>, PyModel)>, Seq<char>>(pairs),
        entries_from(pairs, 0, no_entries()) == Ok::<Entries, Seq<char>>(e),
    ensures
        header_model(b) == header_of(
            (major, minor),
            if major == 1 {
                10 + text.len()
            } else {
                12 + text.len()
            },
            e,
        ),
{
    let head = seq![0x93u8, 0x4e, 0x55, 0x4d, 0x50, 0x59, major, minor];
    let n: nat = if major == 1 {
        2
    } else {
        4
    };
    let len = le_bytes(text.len(), n);
    lemma_le_bytes_len(text.len(), n);
    assert(pow256(2) == 0x1_0000 && pow256(4) == 0x1_0000_0000) by {
        reveal_with_fuel(pow256, 5);
    }
    lemma_occurs_split(b, 0, head, len + text);
    lemma_occurs_split(b, 8, len, text);
    lemma_le_round_trip(b, 8, text.len(), n);
    lemma_occurs_index(b, 0, head, 6);
    lemma_occurs_index(b, 0, head, 7);
    lemma_occurs_part(b, 0, head, 0, 6);
    assert(head.subrange(0, 6) =~= MAGIC@);
    assert(b.take(6) =~= b.subrange(0, 6));
}

} // verus!
