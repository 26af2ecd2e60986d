//! What a run prints for its files, and where.

use vstd::prelude::*;
use crate::cli::{file_docs, inspect_doc, inspect_note, inspect_notes, inspect_output, ls_notes, ls_output, ls_tables, problem_notes, run_output, usage_model, worst_code, Cmd, OptsModel, FORMATS};
use crate::json::{first_member, member, written, Doc};
use crate::render::listing;
use crate::report::{report_members, ReportModel};
use crate::text::starts_with;
use crate::VERSION;

verus! {

/// A file that was read alone is printed as its document, on one line or
/// indented, with its tensors unless they are not wanted.
pub proof fn law_one_document(o: OptsModel, r: ReportModel)
    ensures
        ({
            let out = inspect_output(o, seq![Ok::<ReportModel, (int, Seq<char>)>(r)]);
            let v = Doc::Obj(report_members(r, !o.no_tensors, o.filter));
            &&& o.compact ==> out.stdout == written(v, None) + "\n"@
            &&& !o.compact ==> out.stdout == written(v, Some(0)) + "\n"@
            &&& r.problems.len() == 0 || !o.strict ==> out.code == 0 && out.stderr.len() == 0
            &&& r.problems.len() > 0 && o.strict ==> out.code == 1
        }),
{
    let rs = seq![Ok::<ReportModel, (int, Seq<char>)>(r)];
    reveal_with_fuel(worst_code, 2);
    reveal_with_fuel(inspect_notes, 2);
}

/// Several files are printed as an array with a document for each, in order; a
/// file that failed has one with its path and the error.
pub proof fn law_several_documents(
    o: OptsModel,
    rs: Seq<Result<ReportModel, (int, Seq<char>)>>,
    i: int,
)
    requires
        rs.len() > 1,
        0 <= i < rs.len(),
    ensures
        inspect_doc(o, rs) matches Doc::Arr(ds) && ds.len() == rs.len() && {
            &&& rs[i] matches Ok(r) ==> ds[i] == Doc::Obj(
                report_members(r, !o.no_tensors, o.filter),
            )
            &&& rs[i] matches Err((code, msg)) ==> member(ds[i], "file"@) == Some(
                Doc::Str(o.files[i]),
            ) && member(ds[i], "error"@) == Some(Doc::Str(msg))
        },
        inspect_output(o, rs).stdout == written(
            inspect_doc(o, rs),
            if o.compact {
                None
            } else {
                Some(0)
            },
        ) + "\n"@,
{
    reveal_strlit("file");
    reveal_strlit("error");
    assert("file"@.len() == 4 && "error"@.len() == 5);
    reveal_with_fuel(first_member, 3);
    let ds = file_docs(o, rs);
    assert(ds.len() == rs.len());
}

/// A file that failed is named on the error stream with its message, and one
/// with problems has a line for each where problems count; nothing else stands
/// there.
pub proof fn law_notes_of_inspect(
    o: OptsModel,
    rs: Seq<Result<ReportModel, (int, Seq<char>)>>,
    r: Result<ReportModel, (int, Seq<char>)>,
    path: Seq<char>,
)
    requires
        o.files.len() > rs.len(),
        o.files[rs.len() as int] == path,
    ensures
        ({
            let more = inspect_output(o, rs.push(r)).stderr;
            let less = inspect_output(o, rs).stderr;
            &&& r matches Err((code, msg)) ==> more == less + ("tensorpeek: "@ + path + ": "@ + msg
                + "\n"@)
            &&& r matches Ok(report) ==> {
                &&& !o.strict ==> more == less
                &&& o.strict ==> more == less + problem_notes(path, report.problems)
            }
        }),
{
    let all = rs.push(r);
    lemma_notes_prefix(o, rs, r, rs.len());
    assert(all[rs.len() as int] == r);
    assert(inspect_notes(o, all, all.len()) == inspect_notes(o, rs, rs.len()) + inspect_note(
        o,
        path,
        r,
    ));
    if r is Ok && !o.strict {
        assert(inspect_notes(o, rs, rs.len()) + Seq::<char>::empty() =~= inspect_notes(
            o,
            rs,
            rs.len(),
        ));
    }
}

proof fn lemma_notes_prefix(
    o: OptsModel,
    rs: Seq<Result<ReportModel, (int, Seq<char>)>>,
    r: Result<ReportModel, (int, Seq<char>)>,
    n: nat,
)
    requires
        n <= rs.len(),
    ensures
        inspect_notes(o, rs.push(r), n) == inspect_notes(o, rs, n),
        ls_tables(o, rs.push(r), n) == ls_tables(o, rs, n),
        ls_notes(o, rs.push(r), n) == ls_notes(o, rs, n),
    decreases n,
{
    if n > 0 {
        lemma_notes_prefix(o, rs, r, (n - 1) as nat);
        assert(rs.push(r)[n - 1] == rs[n - 1]);
    }
}

/// Each problem has its line, in order, with the path in front.
pub proof fn law_problem_notes(path: Seq<char>, ps: Seq<Seq<char>>, p: Seq<char>)
    ensures
        problem_notes(path, Seq::empty()).len() == 0,
        problem_notes(path, ps.push(p)) == problem_notes(path, ps) + ("tensorpeek: "@ + path
            + ": problem: "@ + p + "\n"@),
{
    reveal_strlit(": ");
    reveal_strlit("problem: ");
    reveal_strlit(": problem: ");
    assert(ps.push(p).drop_last() =~= ps);
    assert(problem_notes(path, ps.push(p)) =~= problem_notes(path, ps) + ("tensorpeek: "@ + path
        + ": problem: "@ + p + "\n"@));
}

/// Listings follow each other, with an empty line between them; a file that
/// failed has no listing but a line on the error stream.
pub proof fn law_listings_follow(
    o: OptsModel,
    rs: Seq<Result<ReportModel, (int, Seq<char>)>>,
    r: Result<ReportModel, (int, Seq<char>)>,
    path: Seq<char>,
)
    requires
        o.files.len() > rs.len(),
        o.files[rs.len() as int] == path,
    ensures
        ({
            let more = ls_output(o, rs.push(r));
            let less = ls_output(o, rs);
            &&& r matches Ok(report) ==> {
                &&& rs.len() == 0 ==> more.stdout == listing(report, o.filter)
                &&& rs.len() > 0 ==> more.stdout == less.stdout + "\n"@ + listing(report, o.filter)
                &&& more.stderr == less.stderr
            }
            &&& r matches Err((code, msg)) ==> {
                &&& more.stdout == less.stdout
                &&& more.stderr == less.stderr + ("tensorpeek: "@ + path + ": "@ + msg + "\n"@)
            }
        }),
{
    let all = rs.push(r);
    lemma_notes_prefix(o, rs, r, rs.len());
    assert(all[rs.len() as int] == r);
    let none = Seq::<char>::empty();
    match r {
        Ok(report) => {
            assert(ls_notes(o, all, all.len()) =~= ls_notes(o, rs, rs.len()));
            if rs.len() == 0 {
                assert(none + (none + listing(report, o.filter)) =~= listing(report, o.filter));
            } else {
                assert(ls_tables(o, all, all.len()) =~= ls_tables(o, rs, rs.len()) + "\n"@
                    + listing(report, o.filter));
            }
        },
        Err((code, msg)) => {
            assert(ls_tables(o, all, all.len()) =~= ls_tables(o, rs, rs.len()));
        },
    }
}

/// A wrong command line prints nothing but what is wrong and where help is, on
/// the error stream.
pub proof fn law_usage_errors(msg: Seq<char>)
    ensures
        usage_model(msg).stdout.len() == 0,
        usage_model(msg).stderr == "tensorpeek: "@ + msg + "\ntry 'tensorpeek --help'\n"@,
        usage_model(msg).code == 2,
{
}

/// The commands that read no file print their text and succeed.
pub proof fn law_fixed_outputs(o: OptsModel, rs: Seq<Result<ReportModel, (int, Seq<char>)>>)
    ensures
        o.command == Cmd::Version ==> run_output(o, rs).stdout == "tensorpeek "@ + VERSION@ + "\n"@,
        o.command == Cmd::Help ==> starts_with(
            run_output(o, rs).stdout,
            "tensorpeek "@ + VERSION@,
        ) && run_output(o, rs).stdout.last() == '\n',
        o.command == Cmd::Formats ==> run_output(o, rs).stdout == FORMATS@ + "\n"@,
        o.command == Cmd::Version || o.command == Cmd::Help || o.command == Cmd::Formats
            ==> run_output(o, rs).stderr.len() == 0 && run_output(o, rs).code == 0,
        o.command == Cmd::Inspect ==> run_output(o, rs) == inspect_output(o, rs),
        o.command == Cmd::Ls ==> run_output(o, rs) == ls_output(o, rs),
{
    reveal_strlit("\n");
    let line = "tensorpeek "@ + VERSION@;
    if o.command == Cmd::Help {
        let out = run_output(o, rs).stdout;
        assert(out.take(line.len() as int) =~= line);
    }
}

} // verus!
