//! Command-line front end: argument parsing, format dispatch, output and
//! the documented exit codes (0 = ok, 1 = parse failure or `--strict`
//! problems, 2 = usage error or unreadable file). Everything here is a
//! function from values to values; reading files and writing to the standard
//! streams is left to the program.

use vstd::prelude::*;
use vstd::slice::slice_subrange;
use vstd::string::*;
use crate::gguf;
use crate::json::{docs, lemma_view_arr, lemma_view_obj, members_of, written, Doc, Json};
use crate::npy;
use crate::npz;
use crate::render::{listing, tensor_table};
use crate::report::{put_member, put_text, report_members, texts, PeekError, Report, ReportModel};
use crate::safetensors;
use crate::sniff::{detect, detected, named_format, Format};
use crate::text::{chars_of, chars_start_with, dec, parse_unsigned, put_dec, read_unsigned, same, starts_with, text_of};
use crate::VERSION;

verus! {

pub const DEFAULT_ARRAY_LIMIT: usize = 16;

#[derive(Debug, Clone, Copy, PartialEq, Eq, Structural)]
pub enum Cmd {
    Inspect,
    Ls,
    Formats,
    Help,
    Version,
}

#[derive(Debug)]
pub struct Opts {
    pub command: Cmd,
    pub files: Vec<String>,
    pub compact: bool,
    pub no_tensors: bool,
    pub filter: Option<String>,
    pub array_limit: usize,
    pub strict: bool,
    pub forced: Option<Format>,
}

/// The mathematical value of [`Opts`].
#[verifier::ext_equal]
pub struct OptsModel {
    pub command: Cmd,
    pub files: Seq<Seq<char>>,
    pub compact: bool,
    pub no_tensors: bool,
    pub filter: Option<Seq<char>>,
    pub array_limit: nat,
    pub strict: bool,
    pub forced: Option<Format>,
}

pub open spec fn opt_text(s: Option<String>) -> Option<Seq<char>> {
    match s {
        Some(t) => Some(t@),
        None => None,
    }
}

impl View for Opts {
    type V = OptsModel;

    open spec fn view(&self) -> OptsModel {
        OptsModel {
            command: self.command,
            files: texts(self.files@),
            compact: self.compact,
            no_tensors: self.no_tensors,
            filter: opt_text(self.filter),
            array_limit: self.array_limit as nat,
            strict: self.strict,
            forced: self.forced,
        }
    }
}

pub open spec fn default_opts(command: Cmd) -> OptsModel {
    OptsModel {
        command,
        files: seq![],
        compact: false,
        no_tensors: false,
        filter: None,
        array_limit: DEFAULT_ARRAY_LIMIT as nat,
        strict: false,
        forced: None,
    }
}

// ---------------------------------------------------------------------------
// What arguments mean
// ---------------------------------------------------------------------------

/// Where the first `=` at or after `from` stands, or the end.
pub open spec fn equals_from(s: Seq<char>, from: int) -> int
    decreases s.len() - from,
{
    if !(0 <= from < s.len()) || s[from] == '=' {
        from
    } else {
        equals_from(s, from + 1)
    }
}

/// A long option may carry its value behind `=`.
pub open spec fn split_arg(arg: Seq<char>) -> (Seq<char>, Option<Seq<char>>) {
    let p = equals_from(arg, 0);
    if p < arg.len() && starts_with(arg.take(p), "--"@) {
        (arg.take(p), Some(arg.skip(p + 1)))
    } else {
        (arg, None)
    }
}

/// The long options without a value.
pub open spec fn is_switch(flag: Seq<char>) -> bool {
    flag == "--compact"@ || flag == "--no-tensors"@ || flag == "--strict"@ || flag
        == "--full-arrays"@ || flag == "--help"@ || flag == "--version"@
}

/// The value of the option at `i`: behind its `=`, or the next argument; and
/// the position of the next option.
pub open spec fn value_of(
    args: Seq<Seq<char>>,
    i: int,
    inline: Option<Seq<char>>,
    name: Seq<char>,
) -> Result<(Seq<char>, int), Seq<char>> {
    match inline {
        Some(v) => Ok((v, i + 1)),
        None => if i + 1 < args.len() {
            Ok((args[i + 1], i + 2))
        } else {
            Err(name + " needs a value"@)
        },
    }
}

/// What one argument does.
pub enum Step {
    /// Go on at that position with these options.
    Next(OptsModel, int),
    /// Stop here with these options.
    Stop(OptsModel),
    Fail(Seq<char>),
}

pub open spec fn step(args: Seq<Seq<char>>, i: int, o: OptsModel) -> Step {
    let (flag, inline) = split_arg(args[i]);
    if is_switch(flag) && inline is Some {
        // `--strict=false` must not silently mean `--strict`.
        Step::Fail(flag + " does not take a value"@)
    } else if flag == "--compact"@ {
        Step::Next(OptsModel { compact: true, ..o }, i + 1)
    } else if flag == "--no-tensors"@ {
        Step::Next(OptsModel { no_tensors: true, ..o }, i + 1)
    } else if flag == "--strict"@ {
        Step::Next(OptsModel { strict: true, ..o }, i + 1)
    } else if flag == "--full-arrays"@ {
        Step::Next(OptsModel { array_limit: usize::MAX as nat, ..o }, i + 1)
    } else if flag == "--filter"@ {
        match value_of(args, i, inline, "--filter"@) {
            Err(e) => Step::Fail(e),
            Ok((v, next)) => Step::Next(OptsModel { filter: Some(v), ..o }, next),
        }
    } else if flag == "--array-limit"@ {
        match value_of(args, i, inline, "--array-limit"@) {
            Err(e) => Step::Fail(e),
            Ok((v, next)) => match read_unsigned(v, usize::MAX as nat) {
                Some(n) => Step::Next(OptsModel { array_limit: n, ..o }, next),
                None => Step::Fail(
                    "--array-limit needs a non-negative integer, got '"@ + v + "'"@,
                ),
            },
        }
    } else if flag == "--as"@ {
        match value_of(args, i, inline, "--as"@) {
            Err(e) => Step::Fail(e),
            Ok((v, next)) => match named_format(v) {
                Some(f) => Step::Next(OptsModel { forced: Some(f), ..o }, next),
                None => Step::Fail(
                    "unknown format '"@ + v + "' (expected safetensors, gguf, npy or npz)"@,
                ),
            },
        }
    } else if flag == "--help"@ || flag == "-h"@ {
        Step::Stop(OptsModel { command: Cmd::Help, ..o })
    } else if flag == "--version"@ || flag == "-V"@ {
        Step::Stop(OptsModel { command: Cmd::Version, ..o })
    } else if flag.len() > 1 && flag[0] == '-' {
        Step::Fail("unknown option '"@ + flag + "'"@)
    } else {
        Step::Next(OptsModel { files: o.files.push(args[i]), ..o }, i + 1)
    }
}

/// The options from argument `i` on.
pub open spec fn options_from(args: Seq<Seq<char>>, i: int, o: OptsModel) -> Result<
    OptsModel,
    Seq<char>,
>
    decreases args.len() - i,
{
    if !(0 <= i < args.len()) {
        Ok(o)
    } else {
        match step(args, i, o) {
            Step::Fail(e) => Err(e),
            Step::Stop(p) => Ok(p),
            Step::Next(p, next) => options_from(args, next, p),
        }
    }
}

/// Whether a command has the files it needs.
pub open spec fn checked_opts(o: OptsModel) -> Result<OptsModel, Seq<char>> {
    if (o.command == Cmd::Inspect || o.command == Cmd::Ls) && o.files.len() == 0 {
        Err("no input files given"@)
    } else if o.command == Cmd::Formats && o.files.len() > 0 {
        Err("'formats' takes no arguments"@)
    } else {
        Ok(o)
    }
}

/// The command the first argument names. Anything else is a file (or an
/// option) for the implicit `inspect`.
pub open spec fn named_command(arg: Seq<char>) -> Option<Cmd> {
    if arg == "inspect"@ {
        Some(Cmd::Inspect)
    } else if arg == "ls"@ {
        Some(Cmd::Ls)
    } else if arg == "formats"@ {
        Some(Cmd::Formats)
    } else if arg == "help"@ {
        Some(Cmd::Help)
    } else {
        None
    }
}

/// The meaning of a command line.
pub open spec fn args_model(args: Seq<Seq<char>>) -> Result<OptsModel, Seq<char>> {
    if args.len() == 0 {
        Ok(default_opts(Cmd::Help))
    } else {
        match named_command(args[0]) {
            Some(Cmd::Help) => Ok(default_opts(Cmd::Help)),
            Some(c) => match options_from(args, 1, default_opts(c)) {
                Err(e) => Err(e),
                Ok(o) => checked_opts(o),
            },
            None => match options_from(args, 0, default_opts(Cmd::Inspect)) {
                Err(e) => Err(e),
                Ok(o) => checked_opts(o),
            },
        }
    }
}

// ---------------------------------------------------------------------------
// Argument parsing
// ---------------------------------------------------------------------------

fn split_at_equals(arg: &str) -> (r: (String, Option<String>))
    ensures
        split_arg(arg@) == (r.0@, opt_text(r.1)),
{
    let v: Vec<char> = chars_of(arg);
    let n: usize = v.len();
    let mut p: usize = 0;
    while p < n && v[p] != '='
        invariant
            p <= n,
            n == v@.len(),
            v@ == arg@,
            equals_from(arg@, p as int) == equals_from(arg@, 0),
        decreases n - p,
    {
        p = p + 1;
    }
    if p < n {
        let flag: String = text_of(v.as_slice(), 0, p);
        assert(flag@ =~= arg@.take(p as int));
        if chars_start_with(chars_of(flag.as_str()).as_slice(), "--") {
            let value: String = text_of(v.as_slice(), p + 1, n);
            assert(value@ =~= arg@.skip(p + 1));
            return (flag, Some(value));
        }
    }
    (arg.to_owned(), None)
}

fn switch(flag: &str) -> (r: bool)
    ensures
        r == is_switch(flag@),
{
    same(flag, "--compact") || same(flag, "--no-tensors") || same(flag, "--strict") || same(
        flag,
        "--full-arrays",
    ) || same(flag, "--help") || same(flag, "--version")
}

fn take_value(args: &[String], i: usize, inline: &Option<String>, name: &str) -> (r: Result<
    (String, usize),
    String,
>)
    requires
        i < args@.len(),
    ensures
        value_of(texts(args@), i as int, opt_text(*inline), name@) == match r {
            Ok((v, next)) => Ok::<(Seq<char>, int), Seq<char>>((v@, next as int)),
            Err(e) => Err(e@),
        },
        r matches Ok((v, next)) ==> i < next <= args@.len(),
{
    let n: usize = args.len();
    match inline {
        Some(v) => Ok((v.clone(), i + 1)),
        None => {
            if n - i > 1 {
                Ok((args[i + 1].clone(), i + 2))
            } else {
                let mut s: String = name.to_owned();
                s.append(" needs a value");
                Err(s)
            }
        },
    }
}

fn quoted(before: &str, text: &str, after: &str) -> (r: String)
    ensures
        r@ == before@ + text@ + after@,
{
    let mut s: String = before.to_owned();
    s.append(text);
    s.append(after);
    s
}

/// Apply the argument at `i`; the result is the position of the next one, or
/// nothing when the rest does not matter.
fn apply(args: &[String], i: usize, o: &mut Opts) -> (r: Result<Option<usize>, String>)
    requires
        i < args@.len(),
    ensures
        step(texts(args@), i as int, old(o)@) == match r {
            Ok(Some(next)) => Step::Next(final(o)@, next as int),
            Ok(None) => Step::Stop(final(o)@),
            Err(e) => Step::Fail(e@),
        },
        r matches Ok(Some(next)) ==> i < next <= args@.len(),
{
    let (flag_text, inline) = split_at_equals(args[i].as_str());
    let flag: &str = flag_text.as_str();
    if inline.is_some() && switch(flag) {
        let mut s: String = flag.to_owned();
        s.append(" does not take a value");
        return Err(s);
    }
    if same(flag, "--compact") {
        o.compact = true;
        assert(o@ =~= (OptsModel { compact: true, ..old(o)@ }));
    } else if same(flag, "--no-tensors") {
        o.no_tensors = true;
        assert(o@ =~= (OptsModel { no_tensors: true, ..old(o)@ }));
    } else if same(flag, "--strict") {
        o.strict = true;
        assert(o@ =~= (OptsModel { strict: true, ..old(o)@ }));
    } else if same(flag, "--full-arrays") {
        o.array_limit = usize::MAX;
        assert(o@ =~= (OptsModel { array_limit: usize::MAX as nat, ..old(o)@ }));
    } else if same(flag, "--filter") {
        return match take_value(args, i, &inline, "--filter") {
            Ok((v, next)) => {
                o.filter = Some(v);
                assert(o@ =~= (OptsModel { filter: Some(v@), ..old(o)@ }));
                Ok(Some(next))
            },
            Err(e) => Err(e),
        };
    } else if same(flag, "--array-limit") {
        return match take_value(args, i, &inline, "--array-limit") {
            Ok((v, next)) => {
                let cs: Vec<char> = chars_of(v.as_str());
                assert(cs@.subrange(0, cs@.len() as int) =~= v@);
                match parse_unsigned(cs.as_slice(), 0, cs.len(), usize::MAX as u64) {
                    Some(n) => {
                        o.array_limit = n as usize;
                        assert(o@ =~= (OptsModel { array_limit: n as nat, ..old(o)@ }));
                        Ok(Some(next))
                    },
                    None => Err(
                        quoted(
                            "--array-limit needs a non-negative integer, got '",
                            v.as_str(),
                            "'",
                        ),
                    ),
                }
            },
            Err(e) => Err(e),
        };
    } else if same(flag, "--as") {
        return match take_value(args, i, &inline, "--as") {
            Ok((v, next)) => match Format::from_name(v.as_str()) {
                Some(f) => {
                    o.forced = Some(f);
                    assert(o@ =~= (OptsModel { forced: Some(f), ..old(o)@ }));
                    Ok(Some(next))
                },
                None => Err(
                    quoted(
                        "unknown format '",
                        v.as_str(),
                        "' (expected safetensors, gguf, npy or npz)",
                    ),
                ),
            },
            Err(e) => Err(e),
        };
    } else if same(flag, "--help") || same(flag, "-h") {
        o.command = Cmd::Help;
        assert(o@ =~= (OptsModel { command: Cmd::Help, ..old(o)@ }));
        return Ok(None);
    } else if same(flag, "--version") || same(flag, "-V") {
        o.command = Cmd::Version;
        assert(o@ =~= (OptsModel { command: Cmd::Version, ..old(o)@ }));
        return Ok(None);
    } else {
        let cs: Vec<char> = chars_of(flag);
        if cs.len() > 1 && cs[0] == '-' {
            return Err(quoted("unknown option '", flag, "'"));
        }
        put_text(&mut o.files, args[i].clone());
        assert(o@ =~= (OptsModel { files: old(o)@.files.push(texts(args@)[i as int]), ..old(o)@ }));
    }
    Ok(Some(i + 1))
}

fn new_opts(command: Cmd) -> (r: Opts)
    ensures
        r@ == default_opts(command),
{
    let r = Opts {
        command,
        files: Vec::new(),
        compact: false,
        no_tensors: false,
        filter: None,
        array_limit: DEFAULT_ARRAY_LIMIT,
        strict: false,
        forced: None,
    };
    assert(r@ =~= default_opts(command));
    r
}

fn check_opts(o: Opts) -> (r: Result<Opts, String>)
    ensures
        checked_opts(o@) == match r {
            Ok(p) => Ok::<OptsModel, Seq<char>>(p@),
            Err(e) => Err(e@),
        },
{
    if (o.command == Cmd::Inspect || o.command == Cmd::Ls) && o.files.len() == 0 {
        return Err("no input files given".to_owned());
    }
    if o.command == Cmd::Formats && o.files.len() > 0 {
        return Err("'formats' takes no arguments".to_owned());
    }
    Ok(o)
}

/// Read a command line.
pub fn parse_args(args: &[String]) -> (r: Result<Opts, String>)
    ensures
        args_model(texts(args@)) == match r {
            Ok(o) => Ok::<OptsModel, Seq<char>>(o@),
            Err(e) => Err(e@),
        },
{
    if args.len() == 0 {
        return Ok(new_opts(Cmd::Help));
    }
    let first: &str = args[0].as_str();
    let mut i: usize = 1;
    let command: Cmd = if same(first, "inspect") {
        Cmd::Inspect
    } else if same(first, "ls") {
        Cmd::Ls
    } else if same(first, "formats") {
        Cmd::Formats
    } else if same(first, "help") {
        return Ok(new_opts(Cmd::Help));
    } else {
        i = 0;
        Cmd::Inspect
    };
    let mut opts: Opts = new_opts(command);
    let ghost start = i as int;
    let ghost all = options_from(texts(args@), start, default_opts(command));
    while i < args.len()
        invariant
            i <= args@.len(),
            options_from(texts(args@), i as int, opts@) == all,
            args_model(texts(args@)) == (match all {
                Err(e) => Err::<OptsModel, Seq<char>>(e),
                Ok(o) => checked_opts(o),
            }),
        decreases args@.len() - i,
    {
        match apply(args, i, &mut opts) {
            Ok(Some(next)) => {
                i = next;
            },
            Ok(None) => {
                return check_opts(opts);
            },
            Err(e) => {
                return Err(e);
            },
        }
    }
    check_opts(opts)
}

// ---------------------------------------------------------------------------
// Static text
// ---------------------------------------------------------------------------

pub const HELP_HEAD: &'static str = " — safetensors / GGUF / npy / npz header inspector

USAGE:
    tensorpeek [COMMAND] [OPTIONS] <FILE>...

COMMANDS:
    inspect     Report file headers as JSON (the default command)
    ls          Human-readable tensor table
    formats     List supported formats and how they are detected
    help        Show this message

OPTIONS:
    --compact          Single-line JSON output
    --no-tensors       Omit the tensor list (counts are kept)
    --filter <GLOB>    Only list tensors whose name matches, e.g. 'blk.*.weight'
                       (comma separates alternatives; * and ? wildcards)
    --array-limit <N>  Summarize GGUF metadata arrays longer than N (default ";

pub const HELP_TAIL: &'static str = ")
    --full-arrays      Keep every element of GGUF metadata arrays
    --strict           Exit 1 when a file has problems (truncation, size mismatches)
    --as <FORMAT>      Skip detection: safetensors | gguf | npy | npz
    -h, --help         Show this message
    -V, --version      Show the version

EXIT CODES:
    0   every file parsed (and, with --strict, no problems were found)
    1   a file could not be parsed, or --strict found problems
    2   usage error or unreadable input";

pub const FORMATS: &'static str = "FORMAT       DETECTED BY                                WHAT IS READ
safetensors  8-byte LE header length + '{' (no magic)   JSON header: dtype, shape, data_offsets, __metadata__
gguf         magic 'GGUF', versions 2-3 little-endian   metadata KVs, tensor infos, alignment, expected layout
npy          magic '\\x93NUMPY', versions 1.0-3.0        header dict: descr, fortran_order, shape
npz          ZIP signature 'PK' (ZIP64 supported)       central directory + every member's npy header

Only header regions are read; tensor data is never loaded.
Detection order: magic bytes, then the safetensors heuristic, then the
file extension. Force a format with --as <FORMAT>.";

pub open spec fn version_line() -> Seq<char> {
    "tensorpeek "@ + VERSION@
}

pub open spec fn help_message() -> Seq<char> {
    version_line() + HELP_HEAD@ + dec(DEFAULT_ARRAY_LIMIT as nat) + HELP_TAIL@
}

fn version_text() -> (r: String)
    ensures
        r@ == version_line(),
{
    let mut s: String = "tensorpeek ".to_owned();
    s.append(VERSION);
    s
}

pub fn help_text() -> (r: String)
    ensures
        r@ == help_message(),
{
    let mut s: String = version_text();
    s.append(HELP_HEAD);
    put_dec(&mut s, DEFAULT_ARRAY_LIMIT as u128);
    s.append(HELP_TAIL);
    s
}

pub fn formats_text() -> (r: &'static str)
    ensures
        r@ == FORMATS@,
{
    FORMATS
}

// ---------------------------------------------------------------------------
// One file
// ---------------------------------------------------------------------------

/// How many bytes of a file are looked at to detect its format.
pub const SNIFF_LEN: usize = 16;

/// The report on a file, or the exit code and the message of its failure: 2
/// for unreadable input, 1 for content that cannot be parsed.
pub open spec fn file_model(r: Result<Report, (i32, String)>) -> Result<
    ReportModel,
    (int, Seq<char>),
> {
    match r {
        Ok(report) => Ok(report@),
        Err((code, msg)) => Err((code as int, msg@)),
    }
}

/// The format to read a file as.
pub open spec fn chosen_format(
    forced: Option<Format>,
    prefix: Seq<u8>,
    file_len: nat,
    path: Seq<char>,
) -> Result<Format, (int, Seq<char>)> {
    match (forced, detected(prefix, file_len, path)) {
        (Some(f), _) => Ok(f),
        (None, Some(f)) => Ok(f),
        (None, None) => Err(
            (
                1,
                "unrecognized format (not safetensors, GGUF, npy or npz; use --as to override detection)"@,
            ),
        ),
    }
}

pub fn choose_format(forced: Option<Format>, prefix: &[u8], file_len: u64, path: &str) -> (r:
    Result<Format, (i32, String)>)
    ensures
        chosen_format(forced, prefix@, file_len as nat, path@) == match r {
            Ok(f) => Ok::<Format, (int, Seq<char>)>(f),
            Err((code, msg)) => Err((code as int, msg@)),
        },
{
    match forced {
        Some(f) => Ok(f),
        None => match detect(prefix, file_len, path) {
            Some(f) => Ok(f),
            None => Err(
                (
                    1,
                    "unrecognized format (not safetensors, GGUF, npy or npz; use --as to override detection)".to_owned(),
                ),
            ),
        },
    }
}

/// What a file with the bytes `b` contains, read as format `f`.
pub open spec fn parsed_as(f: Format, b: Seq<u8>, path: Seq<char>, limit: nat) -> Result<
    ReportModel,
    Seq<char>,
> {
    match f {
        Format::Safetensors => safetensors::parse_model(b, b.len(), path),
        Format::Gguf => gguf::parse_model(b, b.len(), path, limit),
        Format::Npy => npy::parse_model(b, b.len(), path),
        Format::Npz => npz::parse_model(npz::in_memory(b), b.len(), path),
    }
}

/// The first bytes of a file.
pub open spec fn sniffed(b: Seq<u8>) -> Seq<u8> {
    if b.len() <= SNIFF_LEN {
        b
    } else {
        b.take(SNIFF_LEN as int)
    }
}

/// The report on a file with the bytes `b`.
pub open spec fn inspected(
    b: Seq<u8>,
    path: Seq<char>,
    forced: Option<Format>,
    limit: nat,
) -> Result<ReportModel, (int, Seq<char>)> {
    match chosen_format(forced, sniffed(b), b.len(), path) {
        Err(e) => Err(e),
        Ok(f) => match parsed_as(f, b, path, limit) {
            Ok(r) => Ok(r),
            Err(msg) => Err((1, msg)),
        },
    }
}

/// Detect and parse one file that is already in memory.
pub fn inspect_bytes(
    data: &[u8],
    path: &str,
    forced: Option<Format>,
    array_limit: usize,
) -> (r: Result<Report, (i32, String)>)
    ensures
        inspected(data@, path@, forced, array_limit as nat) == file_model(r),
{
    let file_len: u64 = data.len() as u64;
    let n: usize = if data.len() <= SNIFF_LEN {
        data.len()
    } else {
        SNIFF_LEN
    };
    assert(data@.subrange(0, n as int) =~= sniffed(data@));
    let format: Format = match choose_format(
        forced,
        slice_subrange(data, 0, n),
        file_len,
        path,
    ) {
        Ok(f) => f,
        Err(e) => {
            return Err(e);
        },
    };
    let result: Result<Report, PeekError> = match format {
        Format::Safetensors => safetensors::parse(data, file_len, path),
        Format::Gguf => gguf::parse(data, file_len, path, array_limit),
        Format::Npy => npy::parse(data, file_len, path),
        Format::Npz => npz::parse(data, file_len, path),
    };
    match result {
        Ok(r) => Ok(r),
        Err(e) => Err((1, e.0)),
    }
}

// ---------------------------------------------------------------------------
// Commands
// ---------------------------------------------------------------------------

/// What a run writes to the standard streams, and its exit code.
#[derive(Debug)]
pub struct Output {
    pub stdout: String,
    pub stderr: String,
    pub code: i32,
}

/// The mathematical value of an [`Output`].
#[verifier::ext_equal]
pub struct OutputModel {
    pub stdout: Seq<char>,
    pub stderr: Seq<char>,
    pub code: int,
}

impl View for Output {
    type V = OutputModel;

    open spec fn view(&self) -> OutputModel {
        OutputModel { stdout: self.stdout@, stderr: self.stderr@, code: self.code as int }
    }
}

pub open spec fn file_models(rs: Seq<Result<Report, (i32, String)>>) -> Seq<
    Result<ReportModel, (int, Seq<char>)>,
> {
    Seq::new(rs.len(), |i: int| file_model(rs[i]))
}

pub open spec fn worse(a: int, b: int) -> int {
    if a >= b {
        a
    } else {
        b
    }
}

/// Start of a line about a file.
pub open spec fn about(path: Seq<char>) -> Seq<char> {
    "tensorpeek: "@ + path + ": "@
}

/// The JSON document on one file; a file that failed among several has one
/// that names the error.
pub open spec fn file_doc(
    o: OptsModel,
    path: Seq<char>,
    r: Result<ReportModel, (int, Seq<char>)>,
) -> Doc {
    match r {
        Ok(report) => Doc::Obj(report_members(report, !o.no_tensors, o.filter)),
        Err((_, msg)) => Doc::Obj(
            seq![("file"@, Doc::Str(path)), ("error"@, Doc::Str(msg))],
        ),
    }
}

pub open spec fn problem_notes(path: Seq<char>, problems: Seq<Seq<char>>) -> Seq<char>
    decreases problems.len(),
{
    if problems.len() == 0 {
        seq![]
    } else {
        problem_notes(path, problems.drop_last()) + about(path) + "problem: "@ + problems.last()
            + "\n"@
    }
}

/// The exit code one file asks for.
pub open spec fn file_code(strict: bool, r: Result<ReportModel, (int, Seq<char>)>) -> int {
    match r {
        Ok(report) => if strict && report.problems.len() > 0 {
            1
        } else {
            0
        },
        Err((code, _)) => code,
    }
}

/// The exit code of a run: the worst that any of the first `n` files asks for.
pub open spec fn worst_code(
    strict: bool,
    rs: Seq<Result<ReportModel, (int, Seq<char>)>>,
    n: nat,
) -> int
    decreases n,
{
    if n == 0 || n > rs.len() {
        0
    } else {
        worse(worst_code(strict, rs, (n - 1) as nat), file_code(strict, rs[n - 1]))
    }
}

/// What `inspect` says about one file on the error stream.
pub open spec fn inspect_note(
    o: OptsModel,
    path: Seq<char>,
    r: Result<ReportModel, (int, Seq<char>)>,
) -> Seq<char> {
    match r {
        Ok(report) => if o.strict {
            problem_notes(path, report.problems)
        } else {
            seq![]
        },
        Err((_, msg)) => about(path) + msg + "\n"@,
    }
}

pub open spec fn inspect_notes(
    o: OptsModel,
    rs: Seq<Result<ReportModel, (int, Seq<char>)>>,
    n: nat,
) -> Seq<char>
    decreases n,
{
    if n == 0 || n > rs.len() {
        seq![]
    } else {
        inspect_notes(o, rs, (n - 1) as nat) + inspect_note(o, o.files[n - 1], rs[n - 1])
    }
}

pub open spec fn file_docs(o: OptsModel, rs: Seq<Result<ReportModel, (int, Seq<char>)>>) -> Seq<Doc> {
    Seq::new(rs.len(), |i: int| file_doc(o, o.files[i], rs[i]))
}

/// One document for one file, an array of them for several.
pub open spec fn inspect_doc(o: OptsModel, rs: Seq<Result<ReportModel, (int, Seq<char>)>>) -> Doc {
    let ds = file_docs(o, rs);
    if ds.len() == 1 {
        ds[0]
    } else {
        Doc::Arr(ds)
    }
}

/// Whether the only file of a run failed. There is nothing to report then but
/// the error, and that goes to the error stream.
pub open spec fn lone_failure(rs: Seq<Result<ReportModel, (int, Seq<char>)>>) -> bool {
    rs.len() == 1 && rs[0] is Err
}

/// What `inspect` prints.
pub open spec fn inspect_output(
    o: OptsModel,
    rs: Seq<Result<ReportModel, (int, Seq<char>)>>,
) -> OutputModel {
    OutputModel {
        stdout: if lone_failure(rs) {
            seq![]
        } else {
            written(
                inspect_doc(o, rs),
                if o.compact {
                    None
                } else {
                    Some(0)
                },
            ) + "\n"@
        },
        stderr: inspect_notes(o, rs, rs.len()),
        code: worst_code(o.strict, rs, rs.len()),
    }
}

/// What `ls` prints for the first `n` files: tables with blank lines between
/// them, and error lines.
pub open spec fn ls_tables(
    o: OptsModel,
    rs: Seq<Result<ReportModel, (int, Seq<char>)>>,
    n: nat,
) -> Seq<char>
    decreases n,
{
    if n == 0 || n > rs.len() {
        seq![]
    } else {
        ls_tables(o, rs, (n - 1) as nat) + match rs[n - 1] {
            Ok(report) => (if n > 1 {
                "\n"@
            } else {
                seq![]
            }) + listing(report, o.filter),
            Err(_) => seq![],
        }
    }
}

pub open spec fn ls_notes(
    o: OptsModel,
    rs: Seq<Result<ReportModel, (int, Seq<char>)>>,
    n: nat,
) -> Seq<char>
    decreases n,
{
    if n == 0 || n > rs.len() {
        seq![]
    } else {
        ls_notes(o, rs, (n - 1) as nat) + match rs[n - 1] {
            Ok(_) => seq![],
            Err((_, msg)) => about(o.files[n - 1]) + msg + "\n"@,
        }
    }
}

pub open spec fn ls_output(o: OptsModel, rs: Seq<Result<ReportModel, (int, Seq<char>)>>) -> OutputModel {
    OutputModel {
        stdout: ls_tables(o, rs, rs.len()),
        stderr: ls_notes(o, rs, rs.len()),
        code: worst_code(o.strict, rs, rs.len()),
    }
}

/// What a run prints, given the outcome for each of its files.
pub open spec fn run_output(o: OptsModel, rs: Seq<Result<ReportModel, (int, Seq<char>)>>) -> OutputModel {
    match o.command {
        Cmd::Help => OutputModel { stdout: help_message() + "\n"@, stderr: seq![], code: 0 },
        Cmd::Version => OutputModel { stdout: version_line() + "\n"@, stderr: seq![], code: 0 },
        Cmd::Formats => OutputModel { stdout: FORMATS@ + "\n"@, stderr: seq![], code: 0 },
        Cmd::Inspect => inspect_output(o, rs),
        Cmd::Ls => ls_output(o, rs),
    }
}

pub open spec fn usage_model(msg: Seq<char>) -> OutputModel {
    OutputModel {
        stdout: seq![],
        stderr: "tensorpeek: "@ + msg + "\ntry 'tensorpeek --help'\n"@,
        code: 2,
    }
}

/// What a run prints when its command line is wrong.
pub fn usage_error(msg: &str) -> (r: Output)
    ensures
        r@ == usage_model(msg@),
{
    let mut s: String = "tensorpeek: ".to_owned();
    s.append(msg);
    s.append("\ntry 'tensorpeek --help'\n");
    let r = Output { stdout: String::new(), stderr: s, code: 2 };
    assert(r@ =~= usage_model(msg@));
    r
}

fn put_about(out: &mut String, path: &str)
    ensures
        final(out)@ == old(out)@ + about(path@),
{
    out.append("tensorpeek: ");
    out.append(path);
    out.append(": ");
    assert(out@ =~= old(out)@ + about(path@));
}

fn put_error(out: &mut String, path: &str, msg: &str)
    ensures
        final(out)@ == old(out)@ + (about(path@) + msg@ + "\n"@),
{
    put_about(out, path);
    out.append(msg);
    out.append("\n");
    assert(out@ =~= old(out)@ + (about(path@) + msg@ + "\n"@));
}

fn put_problems(out: &mut String, path: &str, problems: &Vec<String>)
    ensures
        final(out)@ == old(out)@ + problem_notes(path@, texts(problems@)),
{
    let ghost ps = texts(problems@);
    let mut i: usize = 0;
    assert(ps.take(0) =~= seq![]);
    assert(out@ =~= old(out)@ + problem_notes(path@, ps.take(0)));
    while i < problems.len()
        invariant
            i <= problems@.len(),
            ps == texts(problems@),
            out@ == old(out)@ + problem_notes(path@, ps.take(i as int)),
        decreases problems@.len() - i,
    {
        assert(ps.take(i + 1).drop_last() =~= ps.take(i as int));
        put_about(out, path);
        out.append("problem: ");
        out.append(problems[i].as_str());
        out.append("\n");
        i = i + 1;
        assert(out@ =~= old(out)@ + problem_notes(path@, ps.take(i as int)));
    }
    assert(ps.take(i as int) =~= ps);
}

fn error_doc(path: &str, msg: &str) -> (r: Json)
    ensures
        r@ == Doc::Obj(seq![("file"@, Doc::Str(path@)), ("error"@, Doc::Str(msg@))]),
{
    let mut o: Vec<(String, Json)> = Vec::new();
    put_member(&mut o, "file", Json::Str(path.to_owned()));
    put_member(&mut o, "error", Json::Str(msg.to_owned()));
    proof {
        lemma_view_obj(o);
        assert(members_of(o@) =~= seq![("file"@, Doc::Str(path@)), ("error"@, Doc::Str(msg@))]);
    }
    Json::Obj(o)
}

fn filter_of(opts: &Opts) -> (r: Option<&str>)
    ensures
        opts@.filter == match r {
            Some(f) => Some(f@),
            None => None,
        },
{
    match &opts.filter {
        Some(f) => Some(f.as_str()),
        None => None,
    }
}

fn code_of(strict: bool, r: &Result<Report, (i32, String)>) -> (code: i32)
    ensures
        code == file_code(strict, file_model(*r)),
{
    match r {
        Ok(report) => if strict && report.problems.len() > 0 {
            1
        } else {
            0
        },
        Err((code, _)) => *code,
    }
}

fn run_inspect(opts: &Opts, results: &Vec<Result<Report, (i32, String)>>) -> (r: Output)
    requires
        results@.len() == opts.files@.len(),
    ensures
        r@ == inspect_output(opts@, file_models(results@)),
{
    let ghost o = opts@;
    let ghost rs = file_models(results@);
    let mut list: Vec<Json> = Vec::new();
    let mut notes: String = String::new();
    let mut worst: i32 = 0;
    let mut i: usize = 0;
    assert(docs(list@) =~= file_docs(o, rs).take(0));
    assert(notes@ =~= inspect_notes(o, rs, 0));
    while i < results.len()
        invariant
            i <= results@.len(),
            results@.len() == opts.files@.len(),
            o == opts@,
            rs == file_models(results@),
            docs(list@) == file_docs(o, rs).take(i as int),
            notes@ == inspect_notes(o, rs, i as nat),
            worst == worst_code(o.strict, rs, i as nat),
        decreases results@.len() - i,
    {
        let path: &str = opts.files[i].as_str();
        let ghost before = list@;
        let doc: Json = match &results[i] {
            Ok(report) => {
                if opts.strict {
                    put_problems(&mut notes, path, &report.problems);
                }
                report.to_json(!opts.no_tensors, filter_of(opts))
            },
            Err((_, msg)) => {
                put_error(&mut notes, path, msg.as_str());
                error_doc(path, msg.as_str())
            },
        };
        let code: i32 = code_of(opts.strict, &results[i]);
        if code > worst {
            worst = code;
        }
        list.push(doc);
        i = i + 1;
        proof {
            assert(docs(list@) =~= docs(before).push(doc@));
            assert(file_docs(o, rs).take(i as int) =~= file_docs(o, rs).take(i - 1).push(
                file_doc(o, o.files[i - 1], rs[i - 1]),
            ));
            assert(notes@ =~= inspect_notes(o, rs, i as nat));
        }
    }
    assert(file_docs(o, rs).take(i as int) =~= file_docs(o, rs));
    if results.len() == 1 && results[0].is_err() {
        let r = Output { stdout: String::new(), stderr: notes, code: worst };
        assert(r@ =~= inspect_output(o, rs));
        return r;
    }
    let mut out: String = if list.len() == 1 {
        assert(list@[0]@ == docs(list@)[0]);
        if opts.compact {
            list[0].compact()
        } else {
            list[0].pretty()
        }
    } else {
        proof {
            lemma_view_arr(list);
        }
        let all: Json = Json::Arr(list);
        if opts.compact {
            all.compact()
        } else {
            all.pretty()
        }
    };
    out.append("\n");
    let r = Output { stdout: out, stderr: notes, code: worst };
    assert(r@ =~= inspect_output(o, rs));
    r
}

#[verifier::rlimit(50)]
fn run_ls(opts: &Opts, results: &Vec<Result<Report, (i32, String)>>) -> (r: Output)
    requires
        results@.len() == opts.files@.len(),
    ensures
        r@ == ls_output(opts@, file_models(results@)),
{
    let ghost o = opts@;
    let ghost rs = file_models(results@);
    let mut out: String = String::new();
    let mut notes: String = String::new();
    let mut worst: i32 = 0;
    let mut i: usize = 0;
    assert(out@ =~= ls_tables(o, rs, 0));
    assert(notes@ =~= ls_notes(o, rs, 0));
    while i < results.len()
        invariant
            i <= results@.len(),
            results@.len() == opts.files@.len(),
            o == opts@,
            rs == file_models(results@),
            out@ == ls_tables(o, rs, i as nat),
            notes@ == ls_notes(o, rs, i as nat),
            worst == worst_code(o.strict, rs, i as nat),
        decreases results@.len() - i,
    {
        match &results[i] {
            Ok(report) => {
                if i > 0 {
                    out.append("\n");
                }
                out.append(tensor_table(report, filter_of(opts)).as_str());
            },
            Err((_, msg)) => put_error(&mut notes, opts.files[i].as_str(), msg.as_str()),
        }
        let code: i32 = code_of(opts.strict, &results[i]);
        if code > worst {
            worst = code;
        }
        i = i + 1;
        assert(out@ =~= ls_tables(o, rs, i as nat));
        assert(notes@ =~= ls_notes(o, rs, i as nat));
    }
    let r = Output { stdout: out, stderr: notes, code: worst };
    assert(r@ =~= ls_output(o, rs));
    r
}

/// What a run prints, given the outcome for each of its files.
pub fn run(opts: &Opts, results: &Vec<Result<Report, (i32, String)>>) -> (r: Output)
    requires
        results@.len() == opts.files@.len() || !(opts.command == Cmd::Inspect || opts.command
            == Cmd::Ls),
    ensures
        r@ == run_output(opts@, file_models(results@)),
{
    match opts.command {
        Cmd::Inspect => run_inspect(opts, results),
        Cmd::Ls => run_ls(opts, results),
        Cmd::Help => {
            let mut s: String = help_text();
            s.append("\n");
            text_output(s)
        },
        Cmd::Version => {
            let mut s: String = version_text();
            s.append("\n");
            text_output(s)
        },
        Cmd::Formats => {
            let mut s: String = formats_text().to_owned();
            s.append("\n");
            text_output(s)
        },
    }
}

fn text_output(s: String) -> (r: Output)
    ensures
        r@ == (OutputModel { stdout: s@, stderr: seq![], code: 0 }),
{
    let r = Output { stdout: s, stderr: String::new(), code: 0 };
    assert(r@ =~= (OutputModel { stdout: s@, stderr: seq![], code: 0 }));
    r
}

} // verus!
