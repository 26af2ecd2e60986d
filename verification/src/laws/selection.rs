//! Which tensors a filter selects, and what it leaves alone.

use vstd::prelude::*;
use crate::json::Doc;
use crate::report::{any_alternative, comma_from, filter_matches, glob_from, passes, report_members, str_docs, tensor_doc, tensor_docs, trim_left, trim_right, trimmed, ReportModel, TensorModel};

verus! {

/// The tensors that pass a filter are shown, each of them, in order, and no
/// other.
pub proof fn law_filter_selects(ts: Seq<TensorModel>, filter: Option<Seq<char>>)
    ensures
        tensor_docs(ts, filter) == ts.filter(|t: TensorModel| passes(filter, t)).map_values(
            |t: TensorModel| tensor_doc(t),
        ),
    decreases ts.len(),
{
    let keep = |t: TensorModel| passes(filter, t);
    let show = |t: TensorModel| tensor_doc(t);
    reveal(Seq::filter);
    if ts.len() > 0 {
        law_filter_selects(ts.drop_last(), filter);
        let before = ts.drop_last().filter(keep);
        if passes(filter, ts.last()) {
            assert(before.push(ts.last()).map_values(show) =~= before.map_values(show).push(
                tensor_doc(ts.last()),
            ));
        }
    }
    assert(tensor_docs(ts, filter) =~= ts.filter(keep).map_values(show));
}

/// Without a filter every tensor is shown.
pub proof fn law_no_filter_selects_all(ts: Seq<TensorModel>)
    ensures
        tensor_docs(ts, None) == ts.map_values(|t: TensorModel| tensor_doc(t)),
    decreases ts.len(),
{
    let show = |t: TensorModel| tensor_doc(t);
    if ts.len() > 0 {
        law_no_filter_selects_all(ts.drop_last());
        assert(ts.drop_last().map_values(show).push(show(ts.last())) =~= ts.map_values(show));
    }
    assert(tensor_docs(ts, None) =~= ts.map_values(show));
}

/// A filter narrows the list of tensors and nothing else: without that list,
/// reports under any two filters are the same, counts and totals included.
pub proof fn law_filter_leaves_totals(
    r: ReportModel,
    f: Option<Seq<char>>,
    g: Option<Seq<char>>,
)
    ensures
        report_members(r, false, f) == report_members(r, false, g),
        exists|before: Seq<(Seq<char>, Doc)>, after: Seq<(Seq<char>, Doc)>|
            report_members(r, false, f) == #[trigger] (before + after) && report_members(r, true, f)
                == before + seq![("tensors"@, Doc::Arr(tensor_docs(r.tensors, f)))] + after
                && report_members(r, true, g) == before + seq![
                ("tensors"@, Doc::Arr(tensor_docs(r.tensors, g))),
            ] + after,
{
    let all = report_members(r, false, f);
    let after = if r.problems.len() == 0 {
        seq![]
    } else {
        seq![("problems"@, Doc::Arr(str_docs(r.problems)))]
    };
    let before = all.take(all.len() - after.len());
    assert(all =~= before + after);
    assert(report_members(r, true, f) =~= before + seq![
        ("tensors"@, Doc::Arr(tensor_docs(r.tensors, f))),
    ] + after);
    assert(report_members(r, true, g) =~= before + seq![
        ("tensors"@, Doc::Arr(tensor_docs(r.tensors, g))),
    ] + after);
}

/// A lone `*` matches every name.
pub proof fn law_star_matches_all(t: Seq<char>)
    ensures
        glob_from(seq!['*'], t, 0, 0),
{
    lemma_star(t, 0);
}

proof fn lemma_star(t: Seq<char>, j: int)
    requires
        0 <= j <= t.len(),
    ensures
        glob_from(seq!['*'], t, 0, j),
    decreases t.len() - j,
{
    let p = seq!['*'];
    assert(glob_from(p, t, 1, t.len() as int));
    if j < t.len() {
        lemma_star(t, j + 1);
    }
}

/// A pattern without wildcards matches itself and nothing else.
pub proof fn law_plain_pattern_matches_itself(p: Seq<char>, t: Seq<char>)
    requires
        forall|i: int| 0 <= i < p.len() ==> #[trigger] p[i] != '*' && p[i] != '?',
    ensures
        glob_from(p, t, 0, 0) <==> p == t,
{
    lemma_plain(p, t, 0);
    assert(p.skip(0) =~= p);
    assert(t.skip(0) =~= t);
}

proof fn lemma_plain(p: Seq<char>, t: Seq<char>, i: int)
    requires
        0 <= i <= p.len(),
        i <= t.len(),
        forall|k: int| 0 <= k < p.len() ==> #[trigger] p[k] != '*' && p[k] != '?',
    ensures
        glob_from(p, t, i, i) <==> p.skip(i) == t.skip(i),
    decreases p.len() - i,
{
    if i == p.len() {
        assert(p.skip(i).len() == 0);
        assert(t.skip(i).len() == t.len() - i);
        if i == t.len() {
            assert(p.skip(i) =~= t.skip(i));
        }
    } else if i < t.len() {
        lemma_plain(p, t, i + 1);
        if p.skip(i) == t.skip(i) {
            assert(p.skip(i)[0] == t.skip(i)[0]);
            assert(p.skip(i + 1) =~= p.skip(i).skip(1));
            assert(t.skip(i + 1) =~= t.skip(i).skip(1));
        }
        if p[i] == t[i] && p.skip(i + 1) == t.skip(i + 1) {
            assert(p.skip(i) =~= seq![p[i]] + p.skip(i + 1));
            assert(t.skip(i) =~= seq![t[i]] + t.skip(i + 1));
        }
    } else {
        assert(p.skip(i).len() == p.len() - i);
        assert(t.skip(i).len() == 0);
    }
}

/// A pattern that ends in `*` matches what starts with the rest of it.
pub proof fn law_trailing_star_matches_prefix(p: Seq<char>, t: Seq<char>)
    requires
        forall|i: int| 0 <= i < p.len() ==> #[trigger] p[i] != '*' && p[i] != '?',
    ensures
        glob_from(p.push('*'), t, 0, 0) <==> p.len() <= t.len() && t.take(p.len() as int) == p,
{
    lemma_prefix(p, t, 0);
    if p.len() <= t.len() {
        assert(t.take(p.len() as int) == p <==> forall|k: int|
            0 <= k < p.len() ==> p[k] == #[trigger] t[k]) by {
            if t.take(p.len() as int) == p {
                assert forall|k: int| 0 <= k < p.len() implies p[k] == #[trigger] t[k] by {
                    assert(t.take(p.len() as int)[k] == t[k]);
                }
            }
            if forall|k: int| 0 <= k < p.len() ==> p[k] == #[trigger] t[k] {
                assert(t.take(p.len() as int) =~= p);
            }
        }
    }
}

proof fn lemma_prefix(p: Seq<char>, t: Seq<char>, i: int)
    requires
        0 <= i <= p.len(),
        i <= t.len(),
        forall|k: int| 0 <= k < p.len() ==> #[trigger] p[k] != '*' && p[k] != '?',
    ensures
        glob_from(p.push('*'), t, i, i) <==> p.len() <= t.len() && forall|k: int|
            i <= k < p.len() ==> p[k] == #[trigger] t[k],
    decreases p.len() - i,
{
    let q = p.push('*');
    if i == p.len() {
        lemma_last_star(q, t, i);
    } else {
        assert(q[i] == p[i]);
        if i < t.len() {
            lemma_prefix(p, t, i + 1);
        }
    }
}

proof fn lemma_last_star(q: Seq<char>, t: Seq<char>, j: int)
    requires
        q.len() > 0,
        q.last() == '*',
        0 <= j <= t.len(),
    ensures
        glob_from(q, t, q.len() - 1, j),
    decreases t.len() - j,
{
    assert(glob_from(q, t, q.len() as int, t.len() as int));
    if j < t.len() {
        lemma_last_star(q, t, j + 1);
    }
}

/// A comma separates alternatives: a name passes when it passes either side.
pub proof fn law_comma_is_or(a: Seq<char>, b: Seq<char>, name: Seq<char>)
    ensures
        filter_matches(a + seq![','] + b, name) <==> filter_matches(a, name) || filter_matches(
            b,
            name,
        ),
{
    lemma_alternatives(a, b, 0, name);
}

proof fn lemma_alternatives(a: Seq<char>, b: Seq<char>, from: int, name: Seq<char>)
    requires
        0 <= from <= a.len(),
    ensures
        any_alternative(a + seq![','] + b, from, name) <==> any_alternative(a, from, name)
            || any_alternative(b, 0, name),
    decreases a.len() - from,
{
    let s = a + seq![','] + b;
    let n = a.len() as int;
    lemma_comma_left(a, b, from);
    let end = comma_from(a, from);
    lemma_trimmed_part(s, a, 0, from, end);
    if end < n {
        lemma_alternatives(a, b, end + 1, name);
    } else {
        lemma_alternatives_right(s, b, n + 1, 0, name);
    }
}

/// Where the first comma stands does not depend on what follows it.
proof fn lemma_comma_left(a: Seq<char>, b: Seq<char>, from: int)
    requires
        0 <= from <= a.len(),
    ensures
        comma_from(a + seq![','] + b, from) == comma_from(a, from),
        from <= comma_from(a, from) <= a.len(),
    decreases a.len() - from,
{
    let s = a + seq![','] + b;
    if from < a.len() {
        assert(s[from] == a[from]);
        if a[from] != ',' {
            lemma_comma_left(a, b, from + 1);
        }
    } else {
        assert(s[from] == ',');
    }
}

/// The alternatives of a part at the end of a list.
proof fn lemma_alternatives_right(
    s: Seq<char>,
    b: Seq<char>,
    off: int,
    from: int,
    name: Seq<char>,
)
    requires
        0 <= off,
        s.len() == off + b.len(),
        forall|i: int| 0 <= i < b.len() ==> #[trigger] b[i] == s[off + i],
        0 <= from <= b.len(),
    ensures
        any_alternative(s, off + from, name) == any_alternative(b, from, name),
    decreases b.len() - from,
{
    lemma_comma_right(s, b, off, from);
    let end = comma_from(b, from);
    lemma_trimmed_part(s, b, off, from, end);
    if end < b.len() {
        lemma_alternatives_right(s, b, off, end + 1, name);
    }
}

proof fn lemma_comma_right(s: Seq<char>, b: Seq<char>, off: int, from: int)
    requires
        0 <= off,
        s.len() == off + b.len(),
        forall|i: int| 0 <= i < b.len() ==> #[trigger] b[i] == s[off + i],
        0 <= from <= b.len(),
    ensures
        comma_from(s, off + from) == off + comma_from(b, from),
        from <= comma_from(b, from) <= b.len(),
    decreases b.len() - from,
{
    if from < b.len() {
        assert(b[from] == s[off + from]);
        if b[from] != ',' {
            lemma_comma_right(s, b, off, from + 1);
        }
    }
}

/// Trimming looks only at the part that is trimmed.
proof fn lemma_trimmed_part(s: Seq<char>, b: Seq<char>, off: int, from: int, to: int)
    requires
        0 <= off,
        off + b.len() <= s.len(),
        forall|i: int| 0 <= i < b.len() ==> #[trigger] b[i] == s[off + i],
        0 <= from <= to <= b.len(),
    ensures
        trimmed(s, off + from, off + to) == trimmed(b, from, to),
{
    lemma_trim_left_part(s, b, off, from, to);
    let a = trim_left(b, from, to);
    lemma_trim_right_part(s, b, off, a, to);
    let z = trim_right(b, a, to);
    assert(s.subrange(off + a, off + z) =~= b.subrange(a, z)) by {
        assert forall|i: int| 0 <= i < z - a implies #[trigger] s.subrange(off + a, off + z)[i]
            == b.subrange(a, z)[i] by {
            assert(b[a + i] == s[off + (a + i)]);
        }
    }
}

proof fn lemma_trim_left_part(s: Seq<char>, b: Seq<char>, off: int, from: int, to: int)
    requires
        0 <= off,
        off + b.len() <= s.len(),
        forall|i: int| 0 <= i < b.len() ==> #[trigger] b[i] == s[off + i],
        0 <= from <= to <= b.len(),
    ensures
        trim_left(s, off + from, off + to) == off + trim_left(b, from, to),
        from <= trim_left(b, from, to) <= to,
    decreases to - from,
{
    if from < to {
        assert(b[from] == s[off + from]);
        lemma_trim_left_part(s, b, off, from + 1, to);
    }
}

proof fn lemma_trim_right_part(s: Seq<char>, b: Seq<char>, off: int, from: int, to: int)
    requires
        0 <= off,
        off + b.len() <= s.len(),
        forall|i: int| 0 <= i < b.len() ==> #[trigger] b[i] == s[off + i],
        0 <= from <= to <= b.len(),
    ensures
        trim_right(s, off + from, off + to) == off + trim_right(b, from, to),
        from <= trim_right(b, from, to) <= to,
    decreases to - from,
{
    if from < to {
        assert(b[to - 1] == s[off + (to - 1)]);
        lemma_trim_right_part(s, b, off, from, to - 1);
    }
}

} // verus!
