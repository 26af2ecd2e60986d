//! How JSON is laid out when it is written.

use vstd::prelude::*;
use crate::json::{deeper, escaped_all, line_start, quoted, written, written_items, written_members, Doc};
use crate::text::{dec, dec_int};

verus! {

/// A new line, and two blanks for each level.
pub open spec fn new_line(level: nat) -> Seq<char> {
    seq!['\n'] + Seq::new(2 * level, |i: int| ' ')
}

proof fn lemma_items_prefix(a: Seq<Doc>, b: Seq<Doc>, n: nat, indent: Option<nat>)
    requires
        n <= a.len(),
        n <= b.len(),
        forall|i: int| 0 <= i < n ==> a[i] == b[i],
    ensures
        written_items(Doc::Arr(a), n, indent) == written_items(Doc::Arr(b), n, indent),
    decreases n,
{
    if n > 0 {
        lemma_items_prefix(a, b, (n - 1) as nat, indent);
    }
}

proof fn lemma_members_prefix(
    a: Seq<(Seq<char>, Doc)>,
    b: Seq<(Seq<char>, Doc)>,
    n: nat,
    indent: Option<nat>,
)
    requires
        n <= a.len(),
        n <= b.len(),
        forall|i: int| 0 <= i < n ==> a[i] == b[i],
    ensures
        written_members(Doc::Obj(a), n, indent) == written_members(Doc::Obj(b), n, indent),
    decreases n,
{
    if n > 0 {
        lemma_members_prefix(a, b, (n - 1) as nat, indent);
    }
}

proof fn lemma_one_item(v: Doc, indent: Option<nat>)
    ensures
        written_items(Doc::Arr(seq![v]), 1, indent) == line_start(deeper(indent)) + written(
            v,
            deeper(indent),
        ),
{
    let a = Doc::Arr(seq![v]);
    assert(seq![v][0] == v);
    assert(written_items(a, 0, indent) =~= seq![]);
    assert(written_items(a, 1, indent) =~= line_start(deeper(indent)) + written(v, deeper(indent)));
}

proof fn lemma_one_member(key: Seq<char>, v: Doc, indent: Option<nat>)
    ensures
        written_members(Doc::Obj(seq![(key, v)]), 1, indent) == line_start(deeper(indent)) + quoted(
            key,
        ) + (if indent is Some {
            seq![':', ' ']
        } else {
            seq![':']
        }) + written(v, deeper(indent)),
{
    let a = Doc::Obj(seq![(key, v)]);
    assert(seq![(key, v)][0] == (key, v));
    assert(written_members(a, 0, indent) =~= seq![]);
    assert(written_members(a, 1, indent) =~= line_start(deeper(indent)) + quoted(key) + (
    if indent is Some {
        seq![':', ' ']
    } else {
        seq![':']
    }) + written(v, deeper(indent)));
}

/// The simple values are the same in both forms.
pub proof fn law_simple_values(n: int, s: Seq<char>, indent: Option<nat>)
    ensures
        written(Doc::Null, indent) == "null"@,
        written(Doc::Bool(true), indent) == "true"@,
        written(Doc::Bool(false), indent) == "false"@,
        n >= 0 ==> written(Doc::Int(n), indent) == dec(n as nat),
        n < 0 ==> written(Doc::Int(n), indent) == "-"@ + dec((-n) as nat),
        written(Doc::Arr(Seq::empty()), indent) == "[]"@,
        written(Doc::Obj(Seq::empty()), indent) == "{}"@,
        written(Doc::Str(Seq::empty()), indent) == "\"\""@,
{
    reveal_strlit("null");
    reveal_strlit("true");
    reveal_strlit("false");
    reveal_strlit("-");
    reveal_strlit("[]");
    reveal_strlit("{}");
    reveal_strlit("\"\"");
    assert(written(Doc::Null, indent) =~= "null"@);
    assert(written(Doc::Bool(true), indent) =~= "true"@);
    assert(written(Doc::Bool(false), indent) =~= "false"@);
    assert(written(Doc::Arr(Seq::empty()), indent) =~= "[]"@);
    assert(written(Doc::Obj(Seq::empty()), indent) =~= "{}"@);
    assert(written(Doc::Str(Seq::empty()), indent) =~= "\"\""@);
    if n < 0 {
        assert(dec_int(n) =~= "-"@ + dec((-n) as nat));
    }
}

/// A string is put in quotes. Quotes and backslashes in it get a backslash,
/// and control characters their escape; everything else stands for itself.
pub proof fn law_strings(s: Seq<char>, c: char, indent: Option<nat>)
    ensures
        ({
            let before = written(Doc::Str(s), indent).drop_last();
            let after = written(Doc::Str(s.push(c)), indent);
            &&& c == '"' ==> after == before + "\\\"\""@
            &&& c == '\\' ==> after == before + "\\\\\""@
            &&& c == '\n' ==> after == before + "\\n\""@
            &&& c == '\r' ==> after == before + "\\r\""@
            &&& c == '\t' ==> after == before + "\\t\""@
            &&& c as int == 8 ==> after == before + "\\b\""@
            &&& c as int == 12 ==> after == before + "\\f\""@
            &&& c as int == 0 ==> after == before + "\\u0000\""@
            &&& c as int == 0x1f ==> after == before + "\\u001f\""@
            &&& c as int >= 0x20 && c != '"' && c != '\\' ==> after == before + seq![c, '"']
        }),
{
    reveal_strlit("\\\"\"");
    reveal_strlit("\\\\\"");
    reveal_strlit("\\n\"");
    reveal_strlit("\\r\"");
    reveal_strlit("\\t\"");
    reveal_strlit("\\b\"");
    reveal_strlit("\\f\"");
    reveal_strlit("\\u0000\"");
    reveal_strlit("\\u001f\"");
    let before = written(Doc::Str(s), indent).drop_last();
    let after = written(Doc::Str(s.push(c)), indent);
    assert(s.push(c).drop_last() =~= s);
    assert(before =~= seq!['"'] + escaped_all(s));
    assert(after =~= before + (crate::json::escaped(c) + seq!['"']));
    if c == '"' {
        assert(after =~= before + "\\\"\""@);
    }
    if c == '\\' {
        assert(after =~= before + "\\\\\""@);
    }
    if c == '\n' {
        assert(after =~= before + "\\n\""@);
    }
    if c == '\r' {
        assert(after =~= before + "\\r\""@);
    }
    if c == '\t' {
        assert(after =~= before + "\\t\""@);
    }
    if c as int == 8 {
        assert(after =~= before + "\\b\""@);
    }
    if c as int == 12 {
        assert(after =~= before + "\\f\""@);
    }
    if c as int == 0 {
        assert(after =~= before + "\\u0000\""@);
    }
    if c as int == 0x1f {
        assert(after =~= before + "\\u001f\""@);
    }
    if c as int >= 0x20 && c != '"' && c != '\\' {
        assert(after =~= before + seq![c, '"']);
    }
}

/// The compact form has nothing between its parts but commas and colons.
#[verifier::rlimit(50)]
pub proof fn law_compact_layout(
    items: Seq<Doc>,
    v: Doc,
    ms: Seq<(Seq<char>, Doc)>,
    key: Seq<char>,
)
    ensures
        written(Doc::Arr(seq![v]), None) == "["@ + written(v, None) + "]"@,
        items.len() > 0 ==> written(Doc::Arr(items.push(v)), None) == written(
            Doc::Arr(items),
            None,
        ).drop_last() + ","@ + written(v, None) + "]"@,
        written(Doc::Obj(seq![(key, v)]), None) == "{"@ + quoted(key) + ":"@ + written(v, None)
            + "}"@,
        ms.len() > 0 ==> written(Doc::Obj(ms.push((key, v))), None) == written(
            Doc::Obj(ms),
            None,
        ).drop_last() + ","@ + quoted(key) + ":"@ + written(v, None) + "}"@,
{
    reveal_strlit("[");
    reveal_strlit("]");
    reveal_strlit("{");
    reveal_strlit("}");
    reveal_strlit(",");
    reveal_strlit(":");
    lemma_one_item(v, None);
    lemma_one_member(key, v, None);
    assert(written(Doc::Arr(seq![v]), None) =~= "["@ + written(v, None) + "]"@);
    assert(written(Doc::Obj(seq![(key, v)]), None) =~= "{"@ + quoted(key) + ":"@ + written(v, None)
        + "}"@);
    if items.len() > 0 {
        lemma_items_prefix(items, items.push(v), items.len(), None);
        assert(written(Doc::Arr(items.push(v)), None) =~= written(
            Doc::Arr(items),
            None,
        ).drop_last() + ","@ + written(v, None) + "]"@);
    }
    if ms.len() > 0 {
        lemma_members_prefix(ms, ms.push((key, v)), ms.len(), None);
        assert(written(Doc::Obj(ms.push((key, v))), None) =~= written(
            Doc::Obj(ms),
            None,
        ).drop_last() + ","@ + quoted(key) + ":"@ + written(v, None) + "}"@);
    }
}

/// The pretty form of an array has each value on a line of its own, two blanks
/// further in than its brackets.
#[verifier::rlimit(50)]
pub proof fn law_pretty_arrays(items: Seq<Doc>, v: Doc, level: nat)
    ensures
        written(Doc::Arr(seq![v]), Some(level)) == "["@ + new_line(level + 1) + written(
            v,
            Some(level + 1),
        ) + new_line(level) + "]"@,
        items.len() > 0 ==> ({
            let before = written(Doc::Arr(items), Some(level));
            let closing = new_line(level) + "]"@;
            &&& before.len() >= closing.len()
            &&& before.skip(before.len() - closing.len()) == closing
            &&& written(Doc::Arr(items.push(v)), Some(level)) == before.take(
                before.len() - closing.len(),
            ) + ","@ + new_line(level + 1) + written(v, Some(level + 1)) + closing
        }),
{
    reveal_strlit("[");
    reveal_strlit("]");
    reveal_strlit(",");
    let i = Some(level);
    lemma_one_item(v, i);
    assert(line_start(i) =~= new_line(level));
    assert(line_start(Some(level + 1)) =~= new_line(level + 1));
    assert(written(Doc::Arr(seq![v]), i) =~= "["@ + new_line(level + 1) + written(
        v,
        Some(level + 1),
    ) + new_line(level) + "]"@);
    if items.len() > 0 {
        lemma_items_prefix(items, items.push(v), items.len(), i);
        let inner = written_items(Doc::Arr(items), items.len(), i);
        let closing = new_line(level) + "]"@;
        let before = written(Doc::Arr(items), i);
        assert(before =~= seq!['['] + inner + closing);
        assert(before.take(before.len() - closing.len()) =~= seq!['['] + inner);
        assert(before.skip(before.len() - closing.len()) =~= closing);
        let after = written(Doc::Arr(items.push(v)), i);
        assert(items.push(v)[items.len() as int] == v);
        assert(after =~= (seq!['['] + inner) + ","@ + new_line(level + 1) + written(
            v,
            Some(level + 1),
        ) + closing);
    }
}

/// The same of an object, with a blank behind each colon.
#[verifier::rlimit(50)]
pub proof fn law_pretty_objects(ms: Seq<(Seq<char>, Doc)>, key: Seq<char>, v: Doc, level: nat)
    ensures
        written(Doc::Obj(seq![(key, v)]), Some(level)) == "{"@ + new_line(level + 1) + quoted(key)
            + ": "@ + written(v, Some(level + 1)) + new_line(level) + "}"@,
        ms.len() > 0 ==> ({
            let before = written(Doc::Obj(ms), Some(level));
            let closing = new_line(level) + "}"@;
            &&& before.len() >= closing.len()
            &&& before.skip(before.len() - closing.len()) == closing
            &&& written(Doc::Obj(ms.push((key, v))), Some(level)) == before.take(
                before.len() - closing.len(),
            ) + ","@ + new_line(level + 1) + quoted(key) + ": "@ + written(v, Some(level + 1))
                + closing
        }),
{
    reveal_strlit("{");
    reveal_strlit("}");
    reveal_strlit(",");
    reveal_strlit(": ");
    let i = Some(level);
    lemma_one_member(key, v, i);
    assert(line_start(i) =~= new_line(level));
    assert(line_start(Some(level + 1)) =~= new_line(level + 1));
    assert(written(Doc::Obj(seq![(key, v)]), i) =~= "{"@ + new_line(level + 1) + quoted(key)
        + ": "@ + written(v, Some(level + 1)) + new_line(level) + "}"@);
    if ms.len() > 0 {
        lemma_members_prefix(ms, ms.push((key, v)), ms.len(), i);
        let inner = written_members(Doc::Obj(ms), ms.len(), i);
        let closing = new_line(level) + "}"@;
        let before = written(Doc::Obj(ms), i);
        assert(before =~= seq!['{'] + inner + closing);
        assert(before.take(before.len() - closing.len()) =~= seq!['{'] + inner);
        assert(before.skip(before.len() - closing.len()) =~= closing);
        let after = written(Doc::Obj(ms.push((key, v))), i);
        assert(ms.push((key, v))[ms.len() as int] == (key, v));
        assert(after =~= (seq!['{'] + inner) + ","@ + new_line(level + 1) + quoted(key) + ": "@
            + written(v, Some(level + 1)) + closing);
    }
}

} // verus!
