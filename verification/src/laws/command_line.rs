//! What holds of every command line and of every run.

use vstd::prelude::*;
use vstd::utf8::*;
use crate::cli::{about, equals_from, file_code, file_docs, file_models, inspect_doc, inspect_notes, inspect_output, is_switch, lone_failure, split_arg, step, worst_code, Opts, OptsModel, OutputModel, Step};
use crate::json::{docs, is_ws, lemma_view_arr, lemma_view_obj, members_of, parse_doc, written, Doc, Json, MAX_DEPTH};
use crate::laws::json_text::{integers_fit, law_written_text_is_json, nests_within, settled};
use crate::laws::layout::{ascii, lemma_encode_ascii, lemma_encode_concat};
use crate::report::{count_doc, report_members, shape_docs, str_docs, tensor_doc, tensor_docs, tensors_of, total_numel, Report, ReportModel, Tensor};
use crate::text::starts_with;

verus! {

/// No `=` in it, and two dashes in front.
pub open spec fn is_long(name: Seq<char>) -> bool {
    starts_with(name, "--"@) && forall|i: int| 0 <= i < name.len() ==> #[trigger] name[i] != '='
}

proof fn lemma_equals(name: Seq<char>, v: Seq<char>, from: int)
    requires
        0 <= from <= name.len(),
        forall|i: int| 0 <= i < name.len() ==> #[trigger] name[i] != '=',
    ensures
        equals_from(name + seq!['='] + v, from) == name.len(),
        equals_from(name, from) == name.len(),
    decreases name.len() - from,
{
    let arg = name + seq!['='] + v;
    if from < name.len() {
        assert(arg[from] == name[from]);
        lemma_equals(name, v, from + 1);
    } else {
        assert(arg[from] == '=');
    }
}

pub proof fn lemma_split(name: Seq<char>, v: Seq<char>)
    requires
        is_long(name),
    ensures
        split_arg(name + seq!['='] + v) == (name, Some(v)),
        split_arg(name) == (name, None::<Seq<char>>),
{
    let arg = name + seq!['='] + v;
    lemma_equals(name, v, 0);
    assert(arg.take(name.len() as int) =~= name);
    assert(arg.skip(name.len() as int + 1) =~= v);
}

/// The options that take a value.
pub open spec fn takes_value(name: Seq<char>) -> bool {
    name == "--filter"@ || name == "--array-limit"@ || name == "--as"@
}

pub proof fn lemma_names(name: Seq<char>)
    requires
        takes_value(name) || is_switch(name),
    ensures
        is_long(name),
        takes_value(name) ==> !is_switch(name),
{
    reveal_strlit("--");
    reveal_strlit("--filter");
    reveal_strlit("--array-limit");
    reveal_strlit("--as");
    reveal_strlit("--compact");
    reveal_strlit("--no-tensors");
    reveal_strlit("--strict");
    reveal_strlit("--full-arrays");
    reveal_strlit("--help");
    reveal_strlit("--version");
    assert(name.take(2) =~= "--"@);
    assert("--filter"@[2] == 'f' && "--array-limit"@[2] == 'a' && "--as"@[2] == 'a');
    assert("--compact"@[2] == 'c' && "--no-tensors"@[2] == 'n' && "--strict"@[2] == 's'
        && "--full-arrays"@[3] == 'u' && "--help"@[2] == 'h' && "--version"@[2] == 'v'
        && "--filter"@[3] == 'i');
}

/// An option's value may stand behind `=` or in the next argument: both have
/// the same effect, and the second way uses up one argument more.
pub proof fn law_inline_value_is_next_argument(
    a: Seq<Seq<char>>,
    i: int,
    b: Seq<Seq<char>>,
    j: int,
    name: Seq<char>,
    v: Seq<char>,
    o: OptsModel,
)
    requires
        takes_value(name),
        0 <= i < a.len(),
        a[i] == name + seq!['='] + v,
        0 <= j,
        j + 1 < b.len(),
        b[j] == name,
        b[j + 1] == v,
    ensures
        match (step(a, i, o), step(b, j, o)) {
            (Step::Next(p, m), Step::Next(q, n)) => p == q && m == i + 1 && n == j + 2,
            (Step::Fail(e), Step::Fail(f)) => e == f,
            _ => false,
        },
{
    lemma_names(name);
    lemma_split(name, v);
    reveal_strlit("--filter");
    reveal_strlit("--array-limit");
    reveal_strlit("--as");
    assert("--filter"@.len() == 8 && "--array-limit"@.len() == 13 && "--as"@.len() == 4);
}

/// A switch takes no value, not even `false`.
pub proof fn law_switch_rejects_value(
    args: Seq<Seq<char>>,
    i: int,
    name: Seq<char>,
    v: Seq<char>,
    o: OptsModel,
)
    requires
        is_switch(name),
        0 <= i < args.len(),
        args[i] == name + seq!['='] + v,
    ensures
        step(args, i, o) == Step::Fail(name + " does not take a value"@),
{
    lemma_names(name);
    lemma_split(name, v);
}

/// Whether nothing is held against a file.
pub open spec fn good(strict: bool, r: Result<ReportModel, (int, Seq<char>)>) -> bool {
    r matches Ok(report) && (strict ==> report.problems.len() == 0)
}

/// The exit code of a run is the worst that any of its files asks for. It is
/// zero exactly when every file was read and, where problems count, has none.
pub proof fn law_exit_code_is_the_worst(
    strict: bool,
    rs: Seq<Result<ReportModel, (int, Seq<char>)>>,
    n: nat,
)
    requires
        n <= rs.len(),
        forall|i: int|
            0 <= i < rs.len() ==> ((#[trigger] rs[i]) matches Err((code, _)) ==> code == 1 || code
                == 2),
    ensures
        0 <= worst_code(strict, rs, n) <= 2,
        forall|i: int|
            0 <= i < n ==> file_code(strict, #[trigger] rs[i]) <= worst_code(strict, rs, n),
        worst_code(strict, rs, n) == 0 <==> forall|i: int|
            0 <= i < n ==> good(strict, #[trigger] rs[i]),
        worst_code(strict, rs, n) > 0 ==> exists|i: int|
            0 <= i < n && file_code(strict, #[trigger] rs[i]) == worst_code(strict, rs, n),
    decreases n,
{
    if n > 0 {
        let m = (n - 1) as nat;
        law_exit_code_is_the_worst(strict, rs, m);
        assert(file_code(strict, rs[n - 1]) == 0 <==> good(strict, rs[n - 1]));
        let w = worst_code(strict, rs, n);
        if w > 0 && w != file_code(strict, rs[n - 1]) {
            let i = choose|i: int|
                0 <= i < m && file_code(strict, #[trigger] rs[i]) == worst_code(strict, rs, m);
            assert(0 <= i < n && file_code(strict, rs[i]) == w);
        }
    }
}

/// The integers of a value in memory fit in 128 bits.
proof fn lemma_value_integers(j: Json)
    ensures
        integers_fit(j@),
    decreases j,
{
    match j {
        Json::Arr(items) => {
            lemma_view_arr(items);
            let d = docs(items@);
            assert forall|i: int| 0 <= i < d.len() implies integers_fit(#[trigger] d[i]) by {
                assert(decreases_to!(j => j->Arr_0));
                assert(decreases_to!(items => items@));
                assert(decreases_to!(items@ => items@[i]));
                lemma_value_integers(items@[i]);
            }
        },
        Json::Obj(ms) => {
            lemma_view_obj(ms);
            let d = members_of(ms@);
            assert forall|i: int| 0 <= i < d.len() implies integers_fit((#[trigger] d[i]).1) by {
                assert(decreases_to!(j => j->Obj_0));
                assert(decreases_to!(ms => ms@));
                assert(decreases_to!(ms@ => ms@[i]));
                assert(decreases_to!(ms@[i] => ms@[i].1));
                lemma_value_integers(ms@[i].1);
            }
        },
        _ => {},
    }
}

spec fn members_fit(ms: Seq<(Seq<char>, Doc)>) -> bool {
    forall|i: int| 0 <= i < ms.len() ==> integers_fit((#[trigger] ms[i]).1)
}

proof fn lemma_members_join(x: Seq<(Seq<char>, Doc)>, y: Seq<(Seq<char>, Doc)>)
    requires
        members_fit(x),
        members_fit(y),
    ensures
        members_fit(x + y),
{
    let z = x + y;
    assert forall|i: int| 0 <= i < z.len() implies integers_fit((#[trigger] z[i]).1) by {
        if i < x.len() {
            assert(z[i] == x[i]);
        } else {
            assert(z[i] == y[i - x.len()]);
        }
    }
}

proof fn lemma_tensor_integers(t: Tensor)
    ensures
        integers_fit(tensor_doc(t@)),
{
    let v = t@;
    let fixed = seq![
        ("name"@, Doc::Str(v.name)),
        ("dtype"@, Doc::Str(v.dtype)),
        ("shape"@, Doc::Arr(shape_docs(v.shape))),
        ("numel"@, count_doc(v.numel)),
        ("offset"@, Doc::Int(v.offset as int)),
        ("bytes"@, Doc::Int(v.bytes as int)),
    ];
    let dims = shape_docs(v.shape);
    assert(integers_fit(Doc::Arr(dims))) by {
        assert forall|i: int| 0 <= i < dims.len() implies integers_fit(#[trigger] dims[i]) by {}
    }
    assert(members_fit(fixed)) by {
        assert forall|i: int| 0 <= i < fixed.len() implies integers_fit((#[trigger] fixed[i]).1) by {
            assert(i == 0 || i == 1 || i == 2 || i == 3 || i == 4 || i == 5);
        }
    }
    assert(members_fit(v.extra)) by {
        assert forall|i: int| 0 <= i < v.extra.len() implies integers_fit(
            (#[trigger] v.extra[i]).1,
        ) by {
            lemma_value_integers(t.extra@[i].1);
        }
    }
    lemma_members_join(fixed, v.extra);
}

proof fn lemma_tensors_integers(ts: Seq<Tensor>, filter: Option<Seq<char>>)
    ensures
        integers_fit(Doc::Arr(tensor_docs(tensors_of(ts), filter))),
    decreases ts.len(),
{
    let d = tensor_docs(tensors_of(ts), filter);
    if ts.len() > 0 {
        let before = tensor_docs(tensors_of(ts.drop_last()), filter);
        lemma_tensors_integers(ts.drop_last(), filter);
        lemma_tensor_integers(ts.last());
        assert(tensors_of(ts).drop_last() =~= tensors_of(ts.drop_last()));
        assert(tensors_of(ts).last() == ts.last()@);
        assert forall|i: int| 0 <= i < before.len() implies integers_fit(#[trigger] before[i]) by {
            assert(integers_fit(Doc::Arr(before)));
        }
        assert forall|i: int| 0 <= i < d.len() implies integers_fit(#[trigger] d[i]) by {
            if i < before.len() {
                assert(d[i] == before[i]);
            } else {
                assert(d[i] == tensor_doc(ts.last()@));
            }
        }
    }
}

/// The integers of a report in memory fit in 128 bits.
proof fn lemma_report_integers(r: Report, with_tensors: bool, filter: Option<Seq<char>>)
    ensures
        integers_fit(Doc::Obj(report_members(r@, with_tensors, filter))),
{
    let v = r@;
    let fixed = seq![
        ("file"@, Doc::Str(v.file)),
        ("format"@, Doc::Str(v.format)),
        ("file_bytes"@, Doc::Int(v.file_bytes as int)),
        ("header_bytes"@, Doc::Int(v.header_bytes as int)),
        ("data_bytes"@, Doc::Int(v.data_bytes as int)),
        ("tensor_count"@, Doc::Int(v.tensors.len() as int)),
        ("parameters"@, count_doc(total_numel(v.tensors))),
    ];
    assert(v.tensors.len() == r.tensors.len());
    assert(members_fit(fixed)) by {
        assert forall|i: int| 0 <= i < fixed.len() implies integers_fit((#[trigger] fixed[i]).1) by {
            assert(i == 0 || i == 1 || i == 2 || i == 3 || i == 4 || i == 5 || i == 6);
        }
    }
    lemma_value_integers(r.details);
    lemma_value_integers(r.metadata);
    lemma_tensors_integers(r.tensors@, filter);
    let details = if v.details == Doc::Obj(seq![]) {
        seq![]
    } else {
        seq![(v.format, v.details)]
    };
    let metadata = if v.metadata == Doc::Obj(seq![]) {
        seq![]
    } else {
        seq![("metadata"@, v.metadata)]
    };
    let tensors = if with_tensors {
        seq![("tensors"@, Doc::Arr(tensor_docs(v.tensors, filter)))]
    } else {
        seq![]
    };
    let notes = str_docs(v.problems);
    assert(integers_fit(Doc::Arr(notes))) by {
        assert forall|i: int| 0 <= i < notes.len() implies integers_fit(#[trigger] notes[i]) by {}
    }
    let problems = if v.problems.len() == 0 {
        seq![]
    } else {
        seq![("problems"@, Doc::Arr(notes))]
    };
    lemma_members_join(fixed, details);
    lemma_members_join(fixed + details, metadata);
    lemma_members_join(fixed + details + metadata, tensors);
    lemma_members_join(fixed + details + metadata + tensors, problems);
}

proof fn lemma_run_integers(opts: Opts, results: Seq<Result<Report, (i32, String)>>)
    ensures
        integers_fit(inspect_doc(opts@, file_models(results))),
{
    let o = opts@;
    let rs = file_models(results);
    let ds = file_docs(o, rs);
    assert forall|i: int| 0 <= i < ds.len() implies integers_fit(#[trigger] ds[i]) by {
        match results[i] {
            Ok(r) => {
                lemma_report_integers(r, !o.no_tensors, o.filter);
            },
            Err((_, msg)) => {
                let ms = seq![("file"@, Doc::Str(o.files[i])), ("error"@, Doc::Str(msg@))];
                assert(members_fit(ms)) by {
                    assert forall|k: int| 0 <= k < ms.len() implies integers_fit(
                        (#[trigger] ms[k]).1,
                    ) by {
                        assert(k == 0 || k == 1);
                    }
                }
                assert(ds[i] == Doc::Obj(ms));
            },
        }
    }
}

/// What `inspect` prints is JSON: reading it gives the document back, and the
/// same document in the compact and in the pretty form. Infinities and NaNs,
/// which JSON cannot hold, come out as null. Left out are runs whose only file
/// failed, which print nothing, and reports nested deeper than the reader's
/// cap.
pub proof fn law_inspect_prints_json(
    opts: Opts,
    results: Seq<Result<Report, (i32, String)>>,
)
    requires
        !lone_failure(file_models(results)),
        nests_within(inspect_doc(opts@, file_models(results)), MAX_DEPTH as int),
    ensures
        parse_doc(encode_utf8(inspect_output(opts@, file_models(results)).stdout)) == Ok::<
            Doc,
            (Seq<char>, int),
        >(settled(inspect_doc(opts@, file_models(results)))),
{
    let v = inspect_doc(opts@, file_models(results));
    let indent = if opts.compact {
        None
    } else {
        Some(0nat)
    };
    let end = "\n"@;
    reveal_strlit("\n");
    assert(ascii(end));
    lemma_encode_ascii(end);
    lemma_encode_concat(written(v, indent), end);
    let after = encode_utf8(end);
    assert forall|i: int| 0 <= i < after.len() implies is_ws(#[trigger] after[i]) by {
        assert(after[i] == end[i] as u8);
    }
    lemma_run_integers(opts, results);
    law_written_text_is_json(v, indent, seq![], after);
    assert(seq![] + encode_utf8(written(v, indent)) + after =~= encode_utf8(
        written(v, indent),
    ) + after);
}

/// A file that fails on its own is an error, not a document: nothing is
/// printed but the message on the error stream, and its code is the exit code.
pub proof fn law_lone_failure_prints_no_document(
    o: OptsModel,
    path: Seq<char>,
    code: int,
    msg: Seq<char>,
)
    requires
        o.files == seq![path],
        code > 0,
    ensures
        inspect_output(o, seq![Err((code, msg))]) == (OutputModel {
            stdout: seq![],
            stderr: about(path) + msg + "\n"@,
            code,
        }),
{
    let rs = seq![Err::<ReportModel, (int, Seq<char>)>((code, msg))];
    reveal_with_fuel(inspect_notes, 2);
    reveal_with_fuel(worst_code, 2);
    assert(inspect_notes(o, rs, 1) =~= about(path) + msg + "\n"@);
    assert(inspect_output(o, rs) =~= OutputModel {
        stdout: seq![],
        stderr: about(path) + msg + "\n"@,
        code,
    });
}

} // verus!
