//! Where JSON errors point, and how deep a document that was read can be.

use vstd::prelude::*;
use crate::ascii::{BACKSLASH, COLON, COMMA, DOT, LBRACE, LBRACKET, MINUS, QUOTE, RBRACE, RBRACKET};
use crate::json::{byte_is, chars_from, digits_end, escape_at, hex_digit, hex_from, items_from, lemma_chars_progress, lemma_digits_end, lemma_escape_progress, lemma_hex_progress, lemma_skip_ws, lemma_value_progress, members_from, number_at, parse_doc, skip_ws, utf8_width, value_at, Doc, MAX_DEPTH};
use crate::laws::json_text::nests_within;
use vstd::utf8::*;

verus! {

proof fn lemma_hex_error(b: Seq<u8>, pos: int, k: nat, v: nat)
    requires
        0 <= pos <= b.len(),
    ensures
        hex_from(b, pos, k, v) matches Err((_, off)) ==> 0 <= off <= b.len(),
    decreases k,
{
    if k > 0 && pos < b.len() {
        if let Some(d) = hex_digit(b[pos]) {
            lemma_hex_error(b, pos + 1, (k - 1) as nat, v * 16 + d);
        }
    }
}

proof fn lemma_escape_error(b: Seq<u8>, pos: int)
    requires
        0 <= pos <= b.len(),
    ensures
        escape_at(b, pos) matches Err((_, off)) ==> 0 <= off <= b.len(),
{
    if pos < b.len() {
        lemma_hex_error(b, pos + 1, 4, 0);
        lemma_hex_progress(b, pos + 1, 4, 0);
        if pos + 7 <= b.len() {
            lemma_hex_error(b, pos + 7, 4, 0);
            lemma_hex_progress(b, pos + 7, 4, 0);
        }
    }
}

proof fn lemma_chars_error(b: Seq<u8>, pos: int, acc: Seq<char>)
    requires
        0 <= pos <= b.len(),
    ensures
        chars_from(b, pos, acc) matches Err((_, off)) ==> 0 <= off <= b.len(),
    decreases b.len() - pos,
{
    if pos < b.len() && b[pos] != QUOTE {
        if b[pos] == BACKSLASH {
            lemma_escape_error(b, pos + 1);
            lemma_escape_progress(b, pos + 1);
            if let Ok((c, end)) = escape_at(b, pos + 1) {
                lemma_chars_error(b, end, acc.push(c));
            }
        } else if b[pos] >= 0x20 {
            if let Some(n) = utf8_width(b[pos]) {
                if pos + n <= b.len() && valid_utf8(b.subrange(pos, pos + n)) {
                    lemma_chars_error(b, pos + n, acc + decode_utf8(b.subrange(pos, pos + n)));
                }
            }
        }
    }
}

proof fn lemma_number_error(b: Seq<u8>, pos: int)
    requires
        0 <= pos < b.len(),
    ensures
        number_at(b, pos) matches Err((_, off)) ==> 0 <= off <= b.len(),
{
    let first = if byte_is(b, pos, MINUS) {
        pos + 1
    } else {
        pos
    };
    lemma_digits_end(b, first);
    let whole = digits_end(b, first);
    if byte_is(b, whole, DOT) {
        lemma_digits_end(b, whole + 1);
    }
}

proof fn lemma_value(b: Seq<u8>, pos: int, depth: int)
    requires
        0 <= pos <= b.len(),
        0 <= depth,
    ensures
        value_at(b, pos, depth) matches Err((_, off)) ==> 0 <= off <= b.len(),
        value_at(b, pos, depth) matches Ok((v, _)) ==> nests_within(v, MAX_DEPTH - depth),
    decreases b.len() - pos, 2int,
{
    if depth <= MAX_DEPTH && pos < b.len() {
        if b[pos] == LBRACE {
            lemma_skip_ws(b, pos + 1);
            if !byte_is(b, skip_ws(b, pos + 1), RBRACE) {
                lemma_members(b, skip_ws(b, pos + 1), depth, seq![]);
            }
        } else if b[pos] == LBRACKET {
            lemma_skip_ws(b, pos + 1);
            if !byte_is(b, skip_ws(b, pos + 1), RBRACKET) {
                lemma_items(b, skip_ws(b, pos + 1), depth, seq![]);
            }
        } else if b[pos] == QUOTE {
            lemma_chars_error(b, pos + 1, seq![]);
        } else {
            lemma_number_error(b, pos);
        }
    }
}

proof fn lemma_members(b: Seq<u8>, pos: int, depth: int, acc: Seq<(Seq<char>, Doc)>)
    requires
        0 <= pos <= b.len(),
        0 <= depth <= MAX_DEPTH,
        forall|i: int|
            0 <= i < acc.len() ==> nests_within((#[trigger] acc[i]).1, MAX_DEPTH - depth - 1),
        acc.len() > 0 ==> depth < MAX_DEPTH,
    ensures
        members_from(b, pos, depth, acc) matches Err((_, off)) ==> 0 <= off <= b.len(),
        members_from(b, pos, depth, acc) matches Ok((v, _)) ==> nests_within(v, MAX_DEPTH - depth),
    decreases b.len() - pos, 1int,
{
    let k = skip_ws(b, pos);
    lemma_skip_ws(b, pos);
    if byte_is(b, k, QUOTE) {
        lemma_chars_error(b, k + 1, seq![]);
        lemma_chars_progress(b, k + 1, seq![]);
        if let Ok((key, key_end)) = chars_from(b, k + 1, seq![]) {
            let colon = skip_ws(b, key_end);
            lemma_skip_ws(b, key_end);
            if byte_is(b, colon, COLON) {
                let start = skip_ws(b, colon + 1);
                lemma_skip_ws(b, colon + 1);
                lemma_value(b, start, depth + 1);
                lemma_value_progress(b, start, depth + 1);
                if let Ok((v, end)) = value_at(b, start, depth + 1) {
                    let next = skip_ws(b, end);
                    lemma_skip_ws(b, end);
                    let more = acc.push((key, v));
                    assert forall|i: int| 0 <= i < more.len() implies nests_within(
                        (#[trigger] more[i]).1,
                        MAX_DEPTH - depth - 1,
                    ) by {
                        if i < acc.len() {
                            assert(more[i] == acc[i]);
                        }
                    }
                    if byte_is(b, next, COMMA) {
                        lemma_members(b, next + 1, depth, more);
                    }
                }
            }
        }
    }
}

proof fn lemma_items(b: Seq<u8>, pos: int, depth: int, acc: Seq<Doc>)
    requires
        0 <= pos <= b.len(),
        0 <= depth <= MAX_DEPTH,
        forall|i: int|
            0 <= i < acc.len() ==> nests_within(#[trigger] acc[i], MAX_DEPTH - depth - 1),
        acc.len() > 0 ==> depth < MAX_DEPTH,
    ensures
        items_from(b, pos, depth, acc) matches Err((_, off)) ==> 0 <= off <= b.len(),
        items_from(b, pos, depth, acc) matches Ok((v, _)) ==> nests_within(v, MAX_DEPTH - depth),
    decreases b.len() - pos, 3int,
{
    let start = skip_ws(b, pos);
    lemma_skip_ws(b, pos);
    lemma_value(b, start, depth + 1);
    lemma_value_progress(b, start, depth + 1);
    if let Ok((v, end)) = value_at(b, start, depth + 1) {
        let next = skip_ws(b, end);
        lemma_skip_ws(b, end);
        let more = acc.push(v);
        assert forall|i: int| 0 <= i < more.len() implies nests_within(
            #[trigger] more[i],
            MAX_DEPTH - depth - 1,
        ) by {
            if i < acc.len() {
                assert(more[i] == acc[i]);
            }
        }
        if byte_is(b, next, COMMA) {
            lemma_items(b, next + 1, depth, more);
        }
    }
}

/// An error points into the input, or just behind it.
pub proof fn law_error_points_into_input(b: Seq<u8>)
    ensures
        parse_doc(b) matches Err((_, off)) ==> 0 <= off <= b.len(),
{
    lemma_skip_ws(b, 0);
    lemma_value(b, skip_ws(b, 0), 0);
    lemma_value_progress(b, skip_ws(b, 0), 0);
    if let Ok((v, end)) = value_at(b, skip_ws(b, 0), 0) {
        lemma_skip_ws(b, end);
    }
}

/// A document that was read nests no deeper than the cap.
pub proof fn law_depth_is_capped(b: Seq<u8>)
    ensures
        parse_doc(b) matches Ok(v) ==> nests_within(v, MAX_DEPTH as int),
{
    lemma_skip_ws(b, 0);
    lemma_value(b, skip_ws(b, 0), 0);
}

} // verus!
