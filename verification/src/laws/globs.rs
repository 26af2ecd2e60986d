//! What a pattern matches, put together from what its parts match; and the
//! blanks around the alternatives of a filter.

use vstd::prelude::*;
use crate::report::{any_alternative, comma_from, filter_matches, glob_from, trim_left, trim_right, trimmed};
use crate::text::is_space;

verus! {

/// Whether a pattern matches a whole name.
pub open spec fn glob_matches(p: Seq<char>, t: Seq<char>) -> bool {
    glob_from(p, t, 0, 0)
}

/// One character of a pattern: `*` matches everything, `?` any one character,
/// any other itself alone. The empty pattern matches the empty name.
pub proof fn law_single_characters(c: char, t: Seq<char>)
    ensures
        glob_matches(Seq::empty(), t) <==> t.len() == 0,
        c == '*' ==> glob_matches(seq![c], t),
        c == '?' ==> (glob_matches(seq![c], t) <==> t.len() == 1),
        c != '*' && c != '?' ==> (glob_matches(seq![c], t) <==> t == seq![c]),
{
    if c == '*' {
        crate::laws::selection::law_star_matches_all(t);
    } else {
        let p = seq![c];
        assert(t.len() > 0 ==> (glob_from(p, t, 1, 1) <==> t.len() == 1));
        if t.len() == 1 && t[0] == c {
            assert(t =~= seq![c]);
        }
    }
}

proof fn lemma_shifted(p: Seq<char>, q: Seq<char>, t: Seq<char>, s: int, i: int, j: int)
    requires
        0 <= s <= t.len(),
        0 <= i <= q.len(),
        0 <= j <= t.len() - s,
    ensures
        glob_from(p + q, t, p.len() + i, s + j) == glob_from(q, t.skip(s), i, j),
    decreases (q.len() - i) + (t.len() - s - j),
{
    let w = p + q;
    let u = t.skip(s);
    if i < q.len() {
        assert(w[p.len() + i] == q[i]);
        if j < t.len() - s {
            assert(u[j] == t[s + j]);
            lemma_shifted(p, q, t, s, i + 1, j + 1);
            lemma_shifted(p, q, t, s, i, j + 1);
        }
        lemma_shifted(p, q, t, s, i + 1, j);
    }
}

proof fn lemma_parts_match(p: Seq<char>, q: Seq<char>, t: Seq<char>, i: int, j: int, k: int)
    requires
        0 <= i <= p.len(),
        0 <= j <= k <= t.len(),
        glob_from(p, t.take(k), i, j),
        glob_from(q, t.skip(k), 0, 0),
    ensures
        glob_from(p + q, t, i, j),
    decreases (p.len() - i) + (k - j),
{
    let w = p + q;
    if i == p.len() {
        lemma_shifted(p, q, t, k, 0, 0);
    } else {
        assert(w[i] == p[i]);
        if p[i] == '*' {
            if glob_from(p, t.take(k), i + 1, j) {
                lemma_parts_match(p, q, t, i + 1, j, k);
            } else {
                lemma_parts_match(p, q, t, i, j + 1, k);
            }
        } else {
            assert(t.take(k)[j] == t[j]);
            lemma_parts_match(p, q, t, i + 1, j + 1, k);
        }
    }
}

proof fn lemma_match_parts(p: Seq<char>, q: Seq<char>, t: Seq<char>, i: int, j: int) -> (k: int)
    requires
        0 <= i <= p.len(),
        0 <= j <= t.len(),
        glob_from(p + q, t, i, j),
    ensures
        j <= k <= t.len(),
        glob_from(p, t.take(k), i, j),
        glob_from(q, t.skip(k), 0, 0),
    decreases (p.len() - i) + (t.len() - j),
{
    let w = p + q;
    if i == p.len() {
        lemma_shifted(p, q, t, j, 0, 0);
        j
    } else {
        assert(w[i] == p[i]);
        if p[i] == '*' {
            if glob_from(w, t, i + 1, j) {
                lemma_match_parts(p, q, t, i + 1, j)
            } else {
                lemma_match_parts(p, q, t, i, j + 1)
            }
        } else {
            let k = lemma_match_parts(p, q, t, i + 1, j + 1);
            assert(t.take(k)[j] == t[j]);
            k
        }
    }
}

/// Two patterns in a row match what can be cut in two so that each part is
/// matched by its pattern, and nothing else.
pub proof fn law_patterns_in_a_row(p: Seq<char>, q: Seq<char>, t: Seq<char>)
    ensures
        glob_matches(p + q, t) <==> exists|k: int|
            0 <= k <= t.len() && glob_matches(p, #[trigger] t.take(k)) && glob_matches(q, t.skip(k)),
{
    if glob_matches(p + q, t) {
        let k = lemma_match_parts(p, q, t, 0, 0);
        assert(glob_matches(p, t.take(k)));
    }
    if exists|k: int|
        0 <= k <= t.len() && glob_matches(p, #[trigger] t.take(k)) && glob_matches(q, t.skip(k)) {
        let k = choose|k: int|
            0 <= k <= t.len() && glob_matches(p, #[trigger] t.take(k)) && glob_matches(q, t.skip(k));
        lemma_parts_match(p, q, t, 0, 0, k);
    }
}

// ---------------------------------------------------------------------------
// Blanks
// ---------------------------------------------------------------------------

/// Nothing but white space.
pub open spec fn all_space(s: Seq<char>) -> bool {
    forall|i: int| 0 <= i < s.len() ==> is_space(#[trigger] s[i])
}

proof fn lemma_left(s: Seq<char>, from: int, a: int, to: int)
    requires
        0 <= from <= a <= to <= s.len(),
        forall|i: int| from <= i < a ==> is_space(#[trigger] s[i]),
        a == to || !is_space(s[a]),
    ensures
        trim_left(s, from, to) == a,
    decreases a - from,
{
    if from < a {
        assert(is_space(s[from]));
        lemma_left(s, from + 1, a, to);
    }
}

proof fn lemma_right(s: Seq<char>, from: int, b: int, to: int)
    requires
        0 <= from <= b <= to <= s.len(),
        forall|i: int| b <= i < to ==> is_space(#[trigger] s[i]),
        b == from || !is_space(s[b - 1]),
    ensures
        trim_right(s, from, to) == b,
    decreases to - b,
{
    if b < to {
        assert(is_space(s[to - 1]));
        lemma_right(s, from, b, to - 1);
    }
}

proof fn lemma_no_comma(s: Seq<char>, from: int)
    requires
        0 <= from <= s.len(),
        forall|i: int| from <= i < s.len() ==> #[trigger] s[i] != ',',
    ensures
        comma_from(s, from) == s.len(),
    decreases s.len() - from,
{
    if from < s.len() {
        assert(s[from] != ',');
        lemma_no_comma(s, from + 1);
    }
}

/// A filter of one pattern matches what the pattern matches; white space
/// around it does not count.
pub proof fn law_blanks_around_a_pattern(
    before: Seq<char>,
    p: Seq<char>,
    after: Seq<char>,
    name: Seq<char>,
)
    requires
        all_space(before),
        all_space(after),
        p.len() > 0,
        !is_space(p[0]),
        !is_space(p.last()),
        forall|i: int| 0 <= i < p.len() ==> #[trigger] p[i] != ',',
    ensures
        filter_matches(before + p + after, name) <==> glob_matches(p, name),
{
    let s = before + p + after;
    let a = before.len() as int;
    let b = a + p.len();
    let n = s.len() as int;
    assert forall|i: int| 0 <= i < n implies #[trigger] s[i] != ',' by {
        if i < a {
            assert(is_space(before[i]));
        } else if i < b {
            assert(s[i] == p[i - a]);
        } else {
            assert(is_space(after[i - b]));
        }
    }
    lemma_no_comma(s, 0);
    assert forall|i: int| 0 <= i < a implies is_space(#[trigger] s[i]) by {
        assert(is_space(before[i]));
    }
    assert(s[a] == p[0]);
    lemma_left(s, 0, a, n);
    assert forall|i: int| b <= i < n implies is_space(#[trigger] s[i]) by {
        assert(is_space(after[i - b]));
    }
    assert(s[b - 1] == p.last());
    lemma_right(s, a, b, n);
    assert(trimmed(s, 0, n) =~= p);
    assert(any_alternative(s, 0, name) == glob_from(trimmed(s, 0, n), name, 0, 0));
}

} // verus!
