//! What each argument of a command line does.

use vstd::prelude::*;
use crate::cli::{args_model, default_opts, equals_from, options_from, step, Cmd, OptsModel, Step};
use crate::laws::command_line::{lemma_names, lemma_split};
use crate::laws::dtypes::lemma_read_dec;
use crate::sniff::{format_name, named_format, Format};
use crate::text::{dec, starts_with};

verus! {

proof fn lemma_flags()
    ensures
        "--"@.len() == 2 && "--"@[0] == '-' && "--"@[1] == '-',
        "--compact"@.len() == 9 && "--compact"@[0] == '-' && "--compact"@[1] == '-'
            && "--compact"@[2] == 'c',
        "--no-tensors"@.len() == 12 && "--no-tensors"@[0] == '-' && "--no-tensors"@[1] == '-'
            && "--no-tensors"@[2] == 'n',
        "--strict"@.len() == 8 && "--strict"@[0] == '-' && "--strict"@[1] == '-' && "--strict"@[2]
            == 's',
        "--full-arrays"@.len() == 13 && "--full-arrays"@[0] == '-' && "--full-arrays"@[1] == '-'
            && "--full-arrays"@[2] == 'f',
        "--filter"@.len() == 8 && "--filter"@[0] == '-' && "--filter"@[1] == '-' && "--filter"@[2]
            == 'f',
        "--array-limit"@.len() == 13 && "--array-limit"@[0] == '-' && "--array-limit"@[1] == '-'
            && "--array-limit"@[2] == 'a',
        "--as"@.len() == 4 && "--as"@[0] == '-' && "--as"@[1] == '-' && "--as"@[2] == 'a',
        "--help"@.len() == 6 && "--help"@[0] == '-' && "--help"@[1] == '-' && "--help"@[2] == 'h',
        "--version"@.len() == 9 && "--version"@[0] == '-' && "--version"@[1] == '-'
            && "--version"@[2] == 'v',
        "-h"@.len() == 2 && "-h"@[0] == '-' && "-h"@[1] == 'h',
        "-V"@.len() == 2 && "-V"@[0] == '-' && "-V"@[1] == 'V',
{
    reveal_strlit("--");
    reveal_strlit("--compact");
    reveal_strlit("--no-tensors");
    reveal_strlit("--strict");
    reveal_strlit("--full-arrays");
    reveal_strlit("--filter");
    reveal_strlit("--array-limit");
    reveal_strlit("--as");
    reveal_strlit("--help");
    reveal_strlit("--version");
    reveal_strlit("-h");
    reveal_strlit("-V");
}

/// A switch sets one option and leaves all others; the next argument follows.
pub proof fn law_switches(args: Seq<Seq<char>>, i: int, o: OptsModel)
    requires
        0 <= i < args.len(),
    ensures
        args[i] == "--compact"@ ==> step(args, i, o) == Step::Next(
            OptsModel { compact: true, ..o },
            i + 1,
        ),
        args[i] == "--no-tensors"@ ==> step(args, i, o) == Step::Next(
            OptsModel { no_tensors: true, ..o },
            i + 1,
        ),
        args[i] == "--strict"@ ==> step(args, i, o) == Step::Next(
            OptsModel { strict: true, ..o },
            i + 1,
        ),
        args[i] == "--full-arrays"@ ==> step(args, i, o) == Step::Next(
            OptsModel { array_limit: usize::MAX as nat, ..o },
            i + 1,
        ),
        args[i] == "--help"@ ==> step(args, i, o) == Step::Stop(
            OptsModel { command: Cmd::Help, ..o },
        ),
        args[i] == "--version"@ ==> step(args, i, o) == Step::Stop(
            OptsModel { command: Cmd::Version, ..o },
        ),
{
    lemma_flags();
    if args[i] == "--compact"@ || args[i] == "--no-tensors"@ || args[i] == "--strict"@ || args[i]
        == "--full-arrays"@ || args[i] == "--help"@ || args[i] == "--version"@ {
        lemma_names(args[i]);
        lemma_split(args[i], seq![]);
    }
}

/// The short forms of `--help` and `--version`.
pub proof fn law_short_switches(args: Seq<Seq<char>>, i: int, o: OptsModel)
    requires
        0 <= i < args.len(),
    ensures
        args[i] == "-h"@ ==> step(args, i, o) == Step::Stop(OptsModel { command: Cmd::Help, ..o }),
        args[i] == "-V"@ ==> step(args, i, o) == Step::Stop(
            OptsModel { command: Cmd::Version, ..o },
        ),
{
    lemma_flags();
    reveal_with_fuel(equals_from, 3);
}

/// An option with a value sets that option to it and leaves all others.
pub proof fn law_valued_options(
    args: Seq<Seq<char>>,
    i: int,
    o: OptsModel,
    v: Seq<char>,
    n: nat,
    f: Format,
)
    requires
        0 <= i,
        i + 1 < args.len(),
        args[i + 1] == v,
        n <= usize::MAX,
    ensures
        args[i] == "--filter"@ ==> step(args, i, o) == Step::Next(
            OptsModel { filter: Some(v), ..o },
            i + 2,
        ),
        args[i] == "--array-limit"@ && v == dec(n) ==> step(args, i, o) == Step::Next(
            OptsModel { array_limit: n, ..o },
            i + 2,
        ),
        args[i] == "--as"@ && v == format_name(f) ==> step(args, i, o) == Step::Next(
            OptsModel { forced: Some(f), ..o },
            i + 2,
        ),
{
    lemma_flags();
    if args[i] == "--filter"@ || args[i] == "--array-limit"@ || args[i] == "--as"@ {
        lemma_names(args[i]);
        lemma_split(args[i], seq![]);
    }
    lemma_read_dec(n, usize::MAX as nat);
    law_format_names(f);
}

/// The formats and their names, each of which gives the format back.
pub proof fn law_format_names(f: Format)
    ensures
        format_name(Format::Safetensors) == "safetensors"@,
        format_name(Format::Gguf) == "gguf"@,
        format_name(Format::Npy) == "npy"@,
        format_name(Format::Npz) == "npz"@,
        named_format(format_name(f)) == Some(f),
        forall|s: Seq<char>| #[trigger] named_format(s) == Some(f) ==> s == format_name(f),
{
    reveal_strlit("safetensors");
    reveal_strlit("gguf");
    reveal_strlit("npy");
    reveal_strlit("npz");
    assert("safetensors"@.len() == 11 && "gguf"@.len() == 4 && "npy"@.len() == 3 && "npz"@.len()
        == 3);
    assert("npy"@[2] == 'y' && "npz"@[2] == 'z');
}

/// An option that wants a value and is the last argument fails.
pub proof fn law_missing_values(args: Seq<Seq<char>>, i: int, o: OptsModel)
    requires
        0 <= i == args.len() - 1,
    ensures
        args[i] == "--filter"@ || args[i] == "--array-limit"@ || args[i] == "--as"@ ==> step(
            args,
            i,
            o,
        ) == Step::Fail(args[i] + " needs a value"@),
{
    lemma_flags();
    if args[i] == "--filter"@ || args[i] == "--array-limit"@ || args[i] == "--as"@ {
        lemma_names(args[i]);
        lemma_split(args[i], seq![]);
    }
}

/// Everything that does not start with a dash is a file, whatever else it
/// holds; so is a dash alone.
pub proof fn law_files(args: Seq<Seq<char>>, i: int, o: OptsModel)
    requires
        0 <= i < args.len(),
        args[i].len() == 0 || args[i][0] != '-' || args[i].len() == 1,
    ensures
        step(args, i, o) == Step::Next(OptsModel { files: o.files.push(args[i]), ..o }, i + 1),
{
    lemma_flags();
    let arg = args[i];
    let p = equals_from(arg, 0);
    if p < arg.len() && starts_with(arg.take(p), "--"@) {
        lemma_equals_in(arg, 0);
        assert(arg.take(p)[0] == "--"@[0]);
        assert(arg.take(p)[1] == "--"@[1]);
    }
}

proof fn lemma_equals_in(s: Seq<char>, from: int)
    requires
        0 <= from <= s.len(),
    ensures
        from <= equals_from(s, from) <= s.len(),
    decreases s.len() - from,
{
    if from < s.len() {
        lemma_equals_in(s, from + 1);
    }
}

/// Any other argument that starts with a dash is refused.
pub proof fn law_unknown_options(args: Seq<Seq<char>>, i: int, o: OptsModel)
    requires
        0 <= i < args.len(),
        args[i].len() > 1,
        args[i][0] == '-',
        args[i] != "-h"@,
        args[i] != "-V"@,
        forall|k: int| 0 <= k < args[i].len() ==> #[trigger] args[i][k] != '=',
        args[i] != "--compact"@ && args[i] != "--no-tensors"@ && args[i] != "--strict"@,
        args[i] != "--full-arrays"@ && args[i] != "--help"@ && args[i] != "--version"@,
        args[i] != "--filter"@ && args[i] != "--array-limit"@ && args[i] != "--as"@,
    ensures
        step(args, i, o) == Step::Fail("unknown option '"@ + args[i] + "'"@),
{
    lemma_no_equals(args[i], 0);
}

proof fn lemma_no_equals(s: Seq<char>, from: int)
    requires
        0 <= from <= s.len(),
        forall|k: int| 0 <= k < s.len() ==> #[trigger] s[k] != '=',
    ensures
        equals_from(s, from) == s.len(),
    decreases s.len() - from,
{
    if from < s.len() {
        assert(s[from] != '=');
        lemma_no_equals(s, from + 1);
    }
}

/// A command line of files alone keeps them all, in order.
pub proof fn law_files_in_order(args: Seq<Seq<char>>, i: int, o: OptsModel)
    requires
        0 <= i <= args.len(),
        forall|k: int|
            i <= k < args.len() ==> (#[trigger] args[k]).len() == 0 || args[k][0] != '-'
                || args[k].len() == 1,
    ensures
        options_from(args, i, o) == Ok::<OptsModel, Seq<char>>(
            OptsModel { files: o.files + args.skip(i), ..o },
        ),
    decreases args.len() - i,
{
    if i == args.len() {
        assert(o.files + args.skip(i) =~= o.files);
    } else {
        law_files(args, i, o);
        let next = OptsModel { files: o.files.push(args[i]), ..o };
        law_files_in_order(args, i + 1, next);
        assert(o.files.push(args[i]) + args.skip(i + 1) =~= o.files + args.skip(i));
    }
}

/// What the first argument decides: one of four commands, or else everything is
/// for `inspect`. Nothing at all asks for help.
pub proof fn law_commands(rest: Seq<Seq<char>>, arg: Seq<char>)
    ensures
        args_model(Seq::empty()) == Ok::<OptsModel, Seq<char>>(default_opts(Cmd::Help)),
        args_model(seq!["help"@] + rest) == Ok::<OptsModel, Seq<char>>(default_opts(Cmd::Help)),
        args_model(seq!["formats"@]) == Ok::<OptsModel, Seq<char>>(default_opts(Cmd::Formats)),
        args_model(seq!["ls"@]) == Err::<OptsModel, Seq<char>>("no input files given"@),
        args_model(seq!["inspect"@]) == Err::<OptsModel, Seq<char>>("no input files given"@),
        arg.len() > 0 && arg[0] != '-' ==> args_model(seq!["ls"@, arg]) == Ok::<
            OptsModel,
            Seq<char>,
        >(OptsModel { files: seq![arg], ..default_opts(Cmd::Ls) }),
        arg.len() > 0 && arg[0] != '-' ==> args_model(seq!["inspect"@, arg]) == Ok::<
            OptsModel,
            Seq<char>,
        >(OptsModel { files: seq![arg], ..default_opts(Cmd::Inspect) }),
        arg.len() > 0 && arg[0] != '-' ==> args_model(seq!["formats"@, arg]) == Err::<
            OptsModel,
            Seq<char>,
        >("'formats' takes no arguments"@),
        arg.len() > 0 && arg[0] != '-' && arg != "ls"@ && arg != "inspect"@ && arg != "formats"@
            && arg != "help"@ ==> args_model(seq![arg]) == args_model(seq!["inspect"@, arg]),
{
    reveal_strlit("ls");
    reveal_strlit("inspect");
    reveal_strlit("formats");
    reveal_strlit("help");
    assert("ls"@.len() == 2 && "inspect"@.len() == 7 && "formats"@.len() == 7 && "help"@.len()
        == 4);
    assert("inspect"@[0] == 'i' && "formats"@[0] == 'f');
    assert((seq!["help"@] + rest)[0] == "help"@);
    if arg.len() > 0 && arg[0] != '-' {
        lemma_one_file(seq!["ls"@, arg], 1, default_opts(Cmd::Ls));
        lemma_one_file(seq!["inspect"@, arg], 1, default_opts(Cmd::Inspect));
        lemma_one_file(seq!["formats"@, arg], 1, default_opts(Cmd::Formats));
        lemma_one_file(seq![arg], 0, default_opts(Cmd::Inspect));
    }
}

proof fn lemma_one_file(args: Seq<Seq<char>>, i: int, o: OptsModel)
    requires
        0 <= i == args.len() - 1,
        args[i].len() > 0,
        args[i][0] != '-',
        o.files.len() == 0,
    ensures
        options_from(args, i, o) == Ok::<OptsModel, Seq<char>>(
            OptsModel { files: seq![args[i]], ..o },
        ),
{
    law_files_in_order(args, i, o);
    assert(o.files + args.skip(i) =~= seq![args[i]]);
}

/// What nothing on the command line has changed.
pub proof fn law_defaults(c: Cmd)
    ensures
        ({
            let o = default_opts(c);
            &&& o.command == c
            &&& o.files.len() == 0
            &&& !o.compact
            &&& !o.no_tensors
            &&& o.filter is None
            &&& o.array_limit == 16
            &&& !o.strict
            &&& o.forced is None
        }),
{
}

/// The order of switches does not matter: two next to each other may change
/// places.
pub proof fn law_switches_commute(a: Seq<Seq<char>>, b: Seq<Seq<char>>, i: int, o: OptsModel)
    requires
        0 <= i,
        i + 1 < a.len(),
        b == a.update(i, a[i + 1]).update(i + 1, a[i]),
        a[i] == "--compact"@ || a[i] == "--no-tensors"@ || a[i] == "--strict"@ || a[i]
            == "--full-arrays"@,
        a[i + 1] == "--compact"@ || a[i + 1] == "--no-tensors"@ || a[i + 1] == "--strict"@ || a[i
            + 1] == "--full-arrays"@,
    ensures
        options_from(a, i, o) == options_from(b, i, o),
{
    law_switches(a, i, o);
    law_switches(b, i, o);
    let x = step(a, i, o)->Next_0;
    let y = step(b, i, o)->Next_0;
    law_switches(a, i + 1, x);
    law_switches(b, i + 1, y);
    let z = step(a, i + 1, x)->Next_0;
    assert(z == step(b, i + 1, y)->Next_0);
    lemma_same_rest(a, b, i + 2, z);
    assert(options_from(a, i, o) == options_from(a, i + 1, x));
    assert(options_from(a, i + 1, x) == options_from(a, i + 2, z));
    assert(options_from(b, i, o) == options_from(b, i + 1, y));
    assert(options_from(b, i + 1, y) == options_from(b, i + 2, z));
}

proof fn lemma_same_rest(a: Seq<Seq<char>>, b: Seq<Seq<char>>, i: int, o: OptsModel)
    requires
        a.len() == b.len(),
        0 <= i,
        forall|k: int| i <= k < a.len() ==> a[k] == b[k],
    ensures
        options_from(a, i, o) == options_from(b, i, o),
    decreases a.len() - i,
{
    if i < a.len() {
        assert(step(a, i, o) == step(b, i, o));
        if let Step::Next(p, next) = step(a, i, o) {
            lemma_same_rest(a, b, next, p);
        }
    }
}

} // verus!
