//! Byte sequences inside byte sequences, and the bytes of text.

use vstd::prelude::*;
use vstd::utf8::*;

verus! {

/// `s` stands in `b` at `pos`.
pub open spec fn occurs(b: Seq<u8>, pos: int, s: Seq<u8>) -> bool {
    0 <= pos && pos + s.len() <= b.len() && b.subrange(pos, pos + s.len()) == s
}

pub proof fn lemma_occurs_split(b: Seq<u8>, pos: int, x: Seq<u8>, y: Seq<u8>)
    requires
        occurs(b, pos, x + y),
    ensures
        occurs(b, pos, x),
        occurs(b, pos + x.len(), y),
{
    let w = b.subrange(pos, pos + (x + y).len());
    assert(b.subrange(pos, pos + x.len()) =~= w.take(x.len() as int));
    assert(w.take(x.len() as int) =~= x);
    assert(b.subrange(pos + x.len(), pos + x.len() + y.len()) =~= w.skip(x.len() as int));
    assert(w.skip(x.len() as int) =~= y);
}

pub proof fn lemma_occurs_index(b: Seq<u8>, pos: int, s: Seq<u8>, i: int)
    requires
        occurs(b, pos, s),
        0 <= i < s.len(),
    ensures
        b[pos + i] == s[i],
{
    assert(b.subrange(pos, pos + s.len())[i] == s[i]);
}

/// A part of what stands somewhere stands there too.
pub proof fn lemma_occurs_part(b: Seq<u8>, pos: int, s: Seq<u8>, i: int, j: int)
    requires
        occurs(b, pos, s),
        0 <= i <= j <= s.len(),
    ensures
        occurs(b, pos + i, s.subrange(i, j)),
{
    assert(b.subrange(pos + i, pos + i + (j - i)) =~= b.subrange(pos, pos + s.len()).subrange(i, j));
}

/// Text is encoded character by character.
pub proof fn lemma_encode_concat(x: Seq<char>, y: Seq<char>)
    ensures
        encode_utf8(x + y) == encode_utf8(x) + encode_utf8(y),
    decreases x.len(),
{
    if x.len() == 0 {
        assert(x + y =~= y);
        assert(encode_utf8(x) + encode_utf8(y) =~= encode_utf8(y));
    } else {
        lemma_encode_concat(x.drop_first(), y);
        assert((x + y).drop_first() =~= x.drop_first() + y);
        assert((x + y)[0] == x[0]);
        assert(encode_utf8(x + y) =~= encode_utf8(x) + encode_utf8(y));
    }
}

pub open spec fn ascii(s: Seq<char>) -> bool {
    forall|i: int| 0 <= i < s.len() ==> '\0' <= #[trigger] s[i] <= '\u{7f}'
}

/// ASCII text is encoded as its codes.
pub proof fn lemma_encode_ascii(s: Seq<char>)
    requires
        ascii(s),
    ensures
        encode_utf8(s).len() == s.len(),
        forall|i: int| 0 <= i < s.len() ==> #[trigger] encode_utf8(s)[i] == s[i] as u8,
{
    assert(is_ascii_chars(s));
    is_ascii_chars_encode_utf8(s);
}

pub proof fn lemma_encode_one(c: char)
    requires
        '\0' <= c <= '\u{7f}',
    ensures
        encode_utf8(seq![c]) == seq![c as u8],
{
    lemma_encode_ascii(seq![c]);
    assert(encode_utf8(seq![c]) =~= seq![c as u8]);
}

} // verus!
