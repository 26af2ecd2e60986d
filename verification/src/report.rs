//! The unified report model every format parser produces, plus its JSON
//! rendering. One schema for four formats is the whole point of tensorpeek:
//! `.tensors[].shape` means the same thing whether the file was written by a
//! Python training loop or a llama.cpp quantizer.

use vstd::prelude::*;
use vstd::slice::slice_subrange;
use crate::json::{docs, lemma_view_arr, lemma_view_obj, members_of, Doc, Json};
use crate::text::{chars_of, is_space, space};

verus! {

/// A parse failure that makes the file undecidable (bad magic, malformed
/// header, implausible counts). Non-fatal irregularities go into
/// [`Report::problems`] instead.
#[derive(Debug)]
pub struct PeekError(pub String);

impl PeekError {
    /// The message.
    pub fn to_string(&self) -> (r: String)
        ensures
            r@ == self.0@,
    {
        self.0.clone()
    }
}

/// One tensor as described by the file header.
#[derive(Debug, Clone)]
pub struct Tensor {
    /// Tensor name; empty for the single unnamed array in an `.npy` file.
    pub name: String,
    /// Canonical dtype name (`f32`, `bf16`, `q4_k`, …) or the raw name when
    /// the dtype is unknown to tensorpeek.
    pub dtype: String,
    /// Shape exactly as stored in the file.
    pub shape: Vec<u64>,
    /// Element count (product of the shape; 1 for a scalar).
    pub numel: u128,
    /// Byte offset of this tensor within the data region it lives in.
    pub offset: u64,
    /// Size in bytes, computed from dtype and shape (or taken from the
    /// header when the format stores it directly).
    pub bytes: u64,
    /// Format-specific extras (e.g. `member` and `compression` for npz).
    pub extra: Vec<(String, Json)>,
}

/// Everything tensorpeek learned about one file.
#[derive(Debug)]
pub struct Report {
    pub file: String,
    /// Format name: `safetensors`, `gguf`, `npy` or `npz`.
    pub format: &'static str,
    /// Total size of the file on disk.
    pub file_bytes: u64,
    /// Bytes occupied by header/index structures (everything that is not
    /// tensor data).
    pub header_bytes: u64,
    /// Bytes of tensor data the header promises (for npz: the compressed
    /// member payloads actually present in the archive).
    pub data_bytes: u64,
    /// File-level metadata as JSON (safetensors `__metadata__`, GGUF KVs).
    pub metadata: Json,
    /// One format-specific detail object, keyed by format name in the output.
    pub details: Json,
    pub tensors: Vec<Tensor>,
    /// Non-fatal irregularities: truncated data section, size mismatches,
    /// unknown dtypes. `--strict` turns these into a failing exit code.
    pub problems: Vec<String>,
}

// ---------------------------------------------------------------------------
// Models
// ---------------------------------------------------------------------------

/// The mathematical value of a [`Tensor`].
#[verifier::ext_equal]
pub struct TensorModel {
    pub name: Seq<char>,
    pub dtype: Seq<char>,
    pub shape: Seq<u64>,
    pub numel: nat,
    pub offset: nat,
    pub bytes: nat,
    pub extra: Seq<(Seq<char>, Doc)>,
}

/// The mathematical value of a [`Report`].
#[verifier::ext_equal]
pub struct ReportModel {
    pub file: Seq<char>,
    pub format: Seq<char>,
    pub file_bytes: nat,
    pub header_bytes: nat,
    pub data_bytes: nat,
    pub metadata: Doc,
    pub details: Doc,
    pub tensors: Seq<TensorModel>,
    pub problems: Seq<Seq<char>>,
}

impl View for Tensor {
    type V = TensorModel;

    open spec fn view(&self) -> TensorModel {
        TensorModel {
            name: self.name@,
            dtype: self.dtype@,
            shape: self.shape@,
            numel: self.numel as nat,
            offset: self.offset as nat,
            bytes: self.bytes as nat,
            extra: members_of(self.extra@),
        }
    }
}

pub open spec fn tensors_of(ts: Seq<Tensor>) -> Seq<TensorModel> {
    Seq::new(ts.len(), |i: int| ts[i]@)
}

/// The texts of a vector of strings.
pub open spec fn texts(v: Seq<String>) -> Seq<Seq<char>> {
    Seq::new(v.len(), |i: int| v[i]@)
}

impl View for Report {
    type V = ReportModel;

    open spec fn view(&self) -> ReportModel {
        ReportModel {
            file: self.file@,
            format: self.format@,
            file_bytes: self.file_bytes as nat,
            header_bytes: self.header_bytes as nat,
            data_bytes: self.data_bytes as nat,
            metadata: self.metadata@,
            details: self.details@,
            tensors: tensors_of(self.tensors@),
            problems: texts(self.problems@),
        }
    }
}

pub open spec fn min_nat(a: nat, b: nat) -> nat {
    if a <= b {
        a
    } else {
        b
    }
}

/// The exact product of the dimensions.
pub open spec fn product(shape: Seq<u64>) -> nat
    decreases shape.len(),
{
    if shape.len() == 0 {
        1
    } else {
        product(shape.drop_last()) * shape.last() as nat
    }
}

/// The element count a tensor records: exact, or the largest `u128` when the
/// dimensions multiply to more than that.
pub open spec fn numel_of(shape: Seq<u64>) -> nat {
    min_nat(product(shape), u128::MAX as nat)
}

pub open spec fn tensor_model(
    name: Seq<char>,
    dtype: Seq<char>,
    shape: Seq<u64>,
    offset: nat,
    bytes: nat,
) -> TensorModel {
    TensorModel { name, dtype, shape, numel: numel_of(shape), offset, bytes, extra: seq![] }
}

/// The exact sum of the element counts.
pub open spec fn total_numel(ts: Seq<TensorModel>) -> nat
    decreases ts.len(),
{
    if ts.len() == 0 {
        0
    } else {
        total_numel(ts.drop_last()) + ts.last().numel
    }
}

/// An element count as JSON shows it: exact, or the largest `i128` when it is
/// beyond that.
pub open spec fn count_doc(n: nat) -> Doc {
    Doc::Int(min_nat(n, i128::MAX as nat) as int)
}

pub open spec fn shape_docs(shape: Seq<u64>) -> Seq<Doc> {
    Seq::new(shape.len(), |i: int| Doc::Int(shape[i] as int))
}

/// The JSON form of a tensor.
pub open spec fn tensor_doc(t: TensorModel) -> Doc {
    Doc::Obj(
        seq![
            ("name"@, Doc::Str(t.name)),
            ("dtype"@, Doc::Str(t.dtype)),
            ("shape"@, Doc::Arr(shape_docs(t.shape))),
            ("numel"@, count_doc(t.numel)),
            ("offset"@, Doc::Int(t.offset as int)),
            ("bytes"@, Doc::Int(t.bytes as int)),
        ] + t.extra,
    )
}

/// Whether a tensor passes an optional filter.
pub open spec fn passes(filter: Option<Seq<char>>, t: TensorModel) -> bool {
    match filter {
        None => true,
        Some(f) => filter_matches(f, t.name),
    }
}

/// The JSON forms of the tensors that pass, in order.
pub open spec fn tensor_docs(ts: Seq<TensorModel>, filter: Option<Seq<char>>) -> Seq<Doc>
    decreases ts.len(),
{
    if ts.len() == 0 {
        seq![]
    } else if passes(filter, ts.last()) {
        tensor_docs(ts.drop_last(), filter).push(tensor_doc(ts.last()))
    } else {
        tensor_docs(ts.drop_last(), filter)
    }
}

pub open spec fn str_docs(v: Seq<Seq<char>>) -> Seq<Doc> {
    Seq::new(v.len(), |i: int| Doc::Str(v[i]))
}

/// The members of a report's JSON form.
pub open spec fn report_members(
    r: ReportModel,
    with_tensors: bool,
    filter: Option<Seq<char>>,
) -> Seq<(Seq<char>, Doc)> {
    let fixed = seq![
        ("file"@, Doc::Str(r.file)),
        ("format"@, Doc::Str(r.format)),
        ("file_bytes"@, Doc::Int(r.file_bytes as int)),
        ("header_bytes"@, Doc::Int(r.header_bytes as int)),
        ("data_bytes"@, Doc::Int(r.data_bytes as int)),
        ("tensor_count"@, Doc::Int(r.tensors.len() as int)),
        ("parameters"@, count_doc(total_numel(r.tensors))),
    ];
    let details = if r.details == Doc::Obj(seq![]) {
        seq![]
    } else {
        seq![(r.format, r.details)]
    };
    let metadata = if r.metadata == Doc::Obj(seq![]) {
        seq![]
    } else {
        seq![("metadata"@, r.metadata)]
    };
    let tensors = if with_tensors {
        seq![("tensors"@, Doc::Arr(tensor_docs(r.tensors, filter)))]
    } else {
        seq![]
    };
    let problems = if r.problems.len() == 0 {
        seq![]
    } else {
        seq![("problems"@, Doc::Arr(str_docs(r.problems)))]
    };
    fixed + details + metadata + tensors + problems
}

// ---------------------------------------------------------------------------
// Glob filters
// ---------------------------------------------------------------------------

/// Whether the pattern from `i` on matches the text from `j` on: `*` stands
/// for any run of characters, `?` for any one, everything else for itself.
pub open spec fn glob_from(p: Seq<char>, t: Seq<char>, i: int, j: int) -> bool
    decreases (p.len() - i) + (t.len() - j),
{
    if i < 0 || j < 0 || i > p.len() || j > t.len() {
        false
    } else if i == p.len() {
        j == t.len()
    } else if p[i] == '*' {
        glob_from(p, t, i + 1, j) || (j < t.len() && glob_from(p, t, i, j + 1))
    } else {
        j < t.len() && (p[i] == '?' || p[i] == t[j]) && glob_from(p, t, i + 1, j + 1)
    }
}

/// Where the run of non-commas that starts at `from` ends.
pub open spec fn comma_from(s: Seq<char>, from: int) -> int
    decreases s.len() - from,
{
    if !(0 <= from < s.len()) || s[from] == ',' {
        from
    } else {
        comma_from(s, from + 1)
    }
}

/// The first character at or after `from` that is not white space.
pub open spec fn trim_left(s: Seq<char>, from: int, to: int) -> int
    decreases to - from,
{
    if from < to && is_space(s[from]) {
        trim_left(s, from + 1, to)
    } else {
        from
    }
}

pub open spec fn trim_right(s: Seq<char>, from: int, to: int) -> int
    decreases to - from,
{
    if from < to && is_space(s[to - 1]) {
        trim_right(s, from, to - 1)
    } else {
        to
    }
}

/// `s[from..to]` without the white space around it.
pub open spec fn trimmed(s: Seq<char>, from: int, to: int) -> Seq<char> {
    let a = trim_left(s, from, to);
    s.subrange(a, trim_right(s, a, to))
}

/// Whether one of the comma-separated alternatives of `s` from `from` on
/// matches the name.
pub open spec fn any_alternative(s: Seq<char>, from: int, name: Seq<char>) -> bool
    decreases s.len() - from,
{
    let end = comma_from(s, from);
    ||| glob_from(trimmed(s, from, end), name, 0, 0)
    ||| from <= end < s.len() && any_alternative(s, end + 1, name)
}

/// Whether a name matches a filter.
pub open spec fn filter_matches(patterns: Seq<char>, name: Seq<char>) -> bool {
    any_alternative(patterns, 0, name)
}

/// A pattern that starts with `*` matches a text when it matches one of its
/// suffixes.
proof fn lemma_star_absorbs(p: Seq<char>, t: Seq<char>, i: int, j: int, k: int)
    requires
        0 <= i < p.len(),
        p[i] == '*',
        0 <= j <= k <= t.len(),
        glob_from(p, t, i, k),
    ensures
        glob_from(p, t, i, j),
    decreases k - j,
{
    if j < k {
        lemma_star_absorbs(p, t, i, j + 1, k);
    }
}

/// A run of `n` ordinary pattern characters uses up `n` text characters.
proof fn lemma_segment(p: Seq<char>, t: Seq<char>, i: int, k: int, n: int)
    requires
        0 <= i,
        0 <= n,
        i + n <= p.len(),
        forall|x: int| i <= x < i + n ==> p[x] != '*',
        glob_from(p, t, i, k),
    ensures
        k + n <= t.len(),
        glob_from(p, t, i + n, k + n),
    decreases n,
{
    if n > 0 {
        lemma_segment(p, t, i + 1, k + 1, n - 1);
    }
}

/// If a star at `s` matches from `k0` on, the ordinary characters between it
/// and `e` match somewhere at or after `k0`, and the rest matches after them.
proof fn lemma_star_segment(p: Seq<char>, t: Seq<char>, s: int, k0: int, e: int) -> (k: int)
    requires
        0 <= s < e <= p.len(),
        p[s] == '*',
        forall|x: int| s < x < e ==> p[x] != '*',
        glob_from(p, t, s, k0),
    ensures
        k0 <= k,
        k + e - s - 1 <= t.len(),
        glob_from(p, t, e, k + e - s - 1),
    decreases t.len() - k0,
{
    if glob_from(p, t, s + 1, k0) {
        lemma_segment(p, t, s + 1, k0, e - s - 1);
        k0
    } else {
        lemma_star_segment(p, t, s, k0 + 1, e)
    }
}

/// With only stars left, the pattern matches the empty rest of the text.
proof fn lemma_stars_match_end(p: Seq<char>, t: Seq<char>, i: int)
    requires
        0 <= i <= p.len(),
    ensures
        glob_from(p, t, i, t.len() as int) == (forall|x: int| i <= x < p.len() ==> p[x] == '*'),
    decreases p.len() - i,
{
    if i < p.len() {
        lemma_stars_match_end(p, t, i + 1);
    }
}

fn glob_match(p: &[char], t: &[char]) -> (r: bool)
    ensures
        r == glob_from(p@, t@, 0, 0),
{
    let mut pi: usize = 0;
    let mut ti: usize = 0;
    let mut star: Option<(usize, usize)> = None;
    let ghost want = glob_from(p@, t@, 0, 0);
    let tn: usize = t.len();
    let pn: usize = p.len();
    while ti < tn
        invariant
            pn == p@.len(),
            tn == t@.len(),
            pi <= pn,
            ti <= tn,
            want == glob_from(p@, t@, 0, 0),
            match star {
                None => want == glob_from(p@, t@, pi as int, ti as int),
                Some((sp, st)) => {
                    &&& sp < pi
                    &&& st <= ti
                    &&& pi - sp - 1 == ti - st
                    &&& p@[sp as int] == '*'
                    &&& forall|x: int| sp < x < pi ==> p@[x] != '*'
                    &&& want == (glob_from(p@, t@, pi as int, ti as int) || glob_from(
                        p@,
                        t@,
                        sp as int,
                        st + 1,
                    ))
                },
            },
        decreases
            match star {
                None => pn + 1,
                Some((sp, st)) => pn - sp,
            },
            match star {
                None => tn as int,
                Some((sp, st)) => tn - st,
            },
            tn - ti,
    {
        if pi < pn && p[pi] == '*' {
            proof {
                if let Some((sp, st)) = star {
                    if glob_from(p@, t@, sp as int, st + 1) {
                        let k = lemma_star_segment(p@, t@, sp as int, st + 1, pi as int);
                        lemma_star_absorbs(p@, t@, pi as int, ti as int, k + pi - sp - 1);
                    }
                }
            }
            star = Some((pi, ti));
            pi = pi + 1;
        } else if pi < pn && (p[pi] == '?' || p[pi] == t[ti]) {
            pi = pi + 1;
            ti = ti + 1;
        } else if let Some((sp, st)) = star {
            star = Some((sp, st + 1));
            pi = sp + 1;
            ti = st + 1;
        } else {
            return false;
        }
    }
    let from: usize = pi;
    proof {
        lemma_stars_match_end(p@, t@, from as int);
        if let Some((sp, st)) = star {
            if glob_from(p@, t@, sp as int, st + 1) {
                let k = lemma_star_segment(p@, t@, sp as int, st + 1, pi as int);
            }
        }
    }
    while pi < pn && p[pi] == '*'
        invariant
            from <= pi <= pn,
            pn == p@.len(),
            forall|x: int| from <= x < pi ==> p@[x] == '*',
        decreases pn - pi,
    {
        pi = pi + 1;
    }
    pi == pn
}

/// Match `name` against a comma-separated list of glob alternatives
/// (`*` = any run, `?` = any one character). Used by `--filter`.
pub fn filter_match(patterns: &str, name: &str) -> (r: bool)
    ensures
        r == filter_matches(patterns@, name@),
{
    let s: Vec<char> = chars_of(patterns);
    let t: Vec<char> = chars_of(name);
    let n: usize = s.len();
    let mut from: usize = 0;
    loop
        invariant
            from <= n,
            n == s@.len(),
            s@ == patterns@,
            t@ == name@,
            any_alternative(s@, from as int, t@) == filter_matches(patterns@, name@),
        decreases n - from,
    {
        let mut end: usize = from;
        while end < n && s[end] != ','
            invariant
                from <= end <= n,
                n == s@.len(),
                comma_from(s@, end as int) == comma_from(s@, from as int),
            decreases n - end,
        {
            end = end + 1;
        }
        let mut a: usize = from;
        while a < end && space(s[a])
            invariant
                from <= a <= end <= n,
                n == s@.len(),
                trim_left(s@, a as int, end as int) == trim_left(s@, from as int, end as int),
            decreases end - a,
        {
            a = a + 1;
        }
        let mut b: usize = end;
        while a < b && space(s[b - 1])
            invariant
                a <= b <= end <= n,
                n == s@.len(),
                trim_right(s@, a as int, b as int) == trim_right(s@, a as int, end as int),
            decreases b - a,
        {
            b = b - 1;
        }
        if glob_match(slice_subrange(s.as_slice(), a, b), t.as_slice()) {
            return true;
        }
        if end == n {
            return false;
        }
        from = end + 1;
    }
}

// ---------------------------------------------------------------------------
// Building reports
// ---------------------------------------------------------------------------

/// Append a member to an object under construction.
pub fn put_member(o: &mut Vec<(String, Json)>, key: &str, v: Json)
    ensures
        members_of(final(o)@) == members_of(old(o)@).push((key@, v@)),
{
    o.push((key.to_owned(), v));
    assert(members_of(o@) =~= members_of(old(o)@).push((key@, v@)));
}

/// Append a text to a list of problems.
pub fn put_text(v: &mut Vec<String>, s: String)
    ensures
        texts(final(v)@) == texts(old(v)@).push(s@),
{
    v.push(s);
    assert(texts(v@) =~= texts(old(v)@).push(s@));
}

/// Saturating at every factor is saturating once at the end.
proof fn lemma_saturation(exact: nat, d: nat, max: nat)
    ensures
        min_nat(min_nat(exact, max) * d, max) == min_nat(exact * d, max),
{
    if exact > max && d > 0 {
        assert(exact * d >= exact) by (nonlinear_arith)
            requires
                d > 0,
        ;
        assert(max * d >= max) by (nonlinear_arith)
            requires
                d > 0,
        ;
    } else if d == 0 {
        assert(exact * d == 0) by (nonlinear_arith)
            requires
                d == 0,
        ;
        assert(min_nat(exact, max) * d == 0) by (nonlinear_arith)
            requires
                d == 0,
        ;
    }
}

/// The product of the dimensions, held at the largest `u128`.
pub fn saturating_product(shape: &[u64]) -> (r: u128)
    ensures
        r == numel_of(shape@),
{
    let mut n: u128 = 1;
    let mut i: usize = 0;
    assert(shape@.take(0) =~= seq![]);
    while i < shape.len()
        invariant
            i <= shape@.len(),
            n == numel_of(shape@.take(i as int)),
        decreases shape@.len() - i,
    {
        let d: u128 = shape[i] as u128;
        assert(shape@.take(i + 1).drop_last() =~= shape@.take(i as int));
        let ghost exact = product(shape@.take(i as int));
        let next: u128 = saturating_mul(n, d);
        proof {
            assert(product(shape@.take(i + 1)) == exact * d as nat);
            lemma_saturation(exact, d as nat, u128::MAX as nat);
        }
        n = next;
        i = i + 1;
    }
    assert(shape@.take(i as int) =~= shape@);
    n
}

fn saturating_mul(a: u128, b: u128) -> (r: u128)
    ensures
        r == min_nat(a as nat * b as nat, u128::MAX as nat),
{
    match a.checked_mul(b) {
        Some(n) => n,
        None => u128::MAX,
    }
}

impl Tensor {
    pub fn new(name: &str, dtype: &str, shape: Vec<u64>, offset: u64, bytes: u64) -> (r: Tensor)
        ensures
            r@ == tensor_model(name@, dtype@, shape@, offset as nat, bytes as nat),
    {
        let numel: u128 = saturating_product(shape.as_slice());
        let r = Tensor {
            name: name.to_owned(),
            dtype: dtype.to_owned(),
            shape,
            numel,
            offset,
            bytes,
            extra: Vec::new(),
        };
        assert(r@ =~= tensor_model(name@, dtype@, shape@, offset as nat, bytes as nat));
        r
    }
}

pub open spec fn empty_report(file: Seq<char>, format: Seq<char>, file_bytes: nat) -> ReportModel {
    ReportModel {
        file,
        format,
        file_bytes,
        header_bytes: 0,
        data_bytes: 0,
        metadata: Doc::Obj(seq![]),
        details: Doc::Obj(seq![]),
        tensors: seq![],
        problems: seq![],
    }
}

impl Report {
    pub fn new(file: &str, format: &'static str, file_bytes: u64) -> (r: Report)
        ensures
            r@ == empty_report(file@, format@, file_bytes as nat),
    {
        let r = Report {
            file: file.to_owned(),
            format,
            file_bytes,
            header_bytes: 0,
            data_bytes: 0,
            metadata: Json::Obj(Vec::new()),
            details: Json::Obj(Vec::new()),
            tensors: Vec::new(),
            problems: Vec::new(),
        };
        proof {
            assert(r.metadata@->Obj_0 =~= seq![]);
            assert(r.details@->Obj_0 =~= seq![]);
            assert(r@ =~= empty_report(file@, format@, file_bytes as nat));
        }
        r
    }

    /// Total parameter count across all tensors.
    pub fn parameters(&self) -> (r: u128)
        ensures
            r == min_nat(total_numel(self@.tensors), u128::MAX as nat),
    {
        let mut n: u128 = 0;
        let mut i: usize = 0;
        let ghost ts = self@.tensors;
        assert(ts.take(0) =~= seq![]);
        while i < self.tensors.len()
            invariant
                i <= self.tensors@.len(),
                ts == tensors_of(self.tensors@),
                n == min_nat(total_numel(ts.take(i as int)), u128::MAX as nat),
            decreases self.tensors@.len() - i,
        {
            assert(ts.take(i + 1).drop_last() =~= ts.take(i as int));
            n = n.saturating_add(self.tensors[i].numel);
            i = i + 1;
        }
        assert(ts.take(i as int) =~= ts);
        n
    }

    /// Render as a JSON object. `filter` keeps only matching tensor names
    /// (glob, comma-separated alternatives); `with_tensors=false` drops the
    /// tensor list entirely but keeps the counts.
    pub fn to_json(&self, with_tensors: bool, filter: Option<&str>) -> (r: Json)
        ensures
            r@ == Doc::Obj(
                report_members(
                    self@,
                    with_tensors,
                    match filter {
                        Some(f) => Some(f@),
                        None => None,
                    },
                ),
            ),
    {
        let ghost filter_model = match filter {
            Some(f) => Some(f@),
            None => None,
        };
        let mut o: Vec<(String, Json)> = Vec::new();
        put_member(&mut o, "file", Json::Str(self.file.clone()));
        put_member(&mut o, "format", Json::Str(self.format.to_owned()));
        put_member(&mut o, "file_bytes", Json::Int(self.file_bytes as i128));
        put_member(&mut o, "header_bytes", Json::Int(self.header_bytes as i128));
        put_member(&mut o, "data_bytes", Json::Int(self.data_bytes as i128));
        put_member(&mut o, "tensor_count", Json::Int(self.tensors.len() as i128));
        put_member(&mut o, "parameters", count_json(self.parameters()));
        if !is_empty_object(&self.details) {
            put_member(&mut o, self.format, self.details.clone());
        }
        if !is_empty_object(&self.metadata) {
            put_member(&mut o, "metadata", self.metadata.clone());
        }
        if with_tensors {
            let items: Vec<Json> = self.tensor_list(filter);
            proof {
                lemma_view_arr(items);
            }
            put_member(&mut o, "tensors", Json::Arr(items));
        }
        if self.problems.len() > 0 {
            let items: Vec<Json> = text_list(&self.problems);
            proof {
                lemma_view_arr(items);
            }
            put_member(&mut o, "problems", Json::Arr(items));
        }
        proof {
            lemma_view_obj(o);
            assert(members_of(o@) =~= report_members(self@, with_tensors, filter_model));
        }
        Json::Obj(o)
    }

    fn tensor_list(&self, filter: Option<&str>) -> (r: Vec<Json>)
        ensures
            docs(r@) == tensor_docs(
                self@.tensors,
                match filter {
                    Some(f) => Some(f@),
                    None => None,
                },
            ),
    {
        let ghost filter_model = match filter {
            Some(f) => Some(f@),
            None => None,
        };
        let ghost ts = self@.tensors;
        let mut items: Vec<Json> = Vec::new();
        let mut i: usize = 0;
        assert(ts.take(0) =~= seq![]);
        assert(docs(items@) =~= seq![]);
        while i < self.tensors.len()
            invariant
                i <= self.tensors@.len(),
                ts == tensors_of(self.tensors@),
                filter_model == (match filter {
                    Some(f) => Some(f@),
                    None => None,
                }),
                docs(items@) == tensor_docs(ts.take(i as int), filter_model),
            decreases self.tensors@.len() - i,
        {
            assert(ts.take(i + 1).drop_last() =~= ts.take(i as int));
            let t: &Tensor = &self.tensors[i];
            let keep: bool = match filter {
                None => true,
                Some(f) => filter_match(f, t.name.as_str()),
            };
            let ghost before = items@;
            if keep {
                items.push(tensor_json(t));
                assert(docs(items@) =~= docs(before).push(tensor_doc(t@)));
            }
            i = i + 1;
        }
        assert(ts.take(i as int) =~= ts);
        items
    }
}

pub fn text_list(v: &Vec<String>) -> (r: Vec<Json>)
    ensures
        docs(r@) == str_docs(texts(v@)),
{
    let mut items: Vec<Json> = Vec::new();
    let mut i: usize = 0;
    while i < v.len()
        invariant
            i <= v@.len(),
            items@.len() == i,
            forall|k: int| 0 <= k < i ==> (#[trigger] items@[k])@ == Doc::Str(v@[k]@),
        decreases v@.len() - i,
    {
        items.push(Json::Str(v[i].clone()));
        i = i + 1;
    }
    assert(docs(items@) =~= str_docs(texts(v@)));
    items
}

fn is_empty_object(j: &Json) -> (r: bool)
    ensures
        r == (j@ == Doc::Obj(seq![])),
{
    match j {
        Json::Obj(m) => {
            proof {
                lemma_view_obj(*m);
                if m@.len() == 0 {
                    assert(members_of(m@) =~= seq![]);
                } else {
                    assert(members_of(m@).len() != 0);
                }
            }
            m.len() == 0
        },
        _ => false,
    }
}

fn count_json(n: u128) -> (r: Json)
    ensures
        r@ == count_doc(n as nat),
{
    if n <= 0x7fff_ffff_ffff_ffff_ffff_ffff_ffff_ffff {
        Json::Int(n as i128)
    } else {
        Json::Int(i128::MAX)
    }
}

pub fn shape_list(shape: &[u64]) -> (r: Vec<Json>)
    ensures
        docs(r@) == shape_docs(shape@),
{
    let mut items: Vec<Json> = Vec::new();
    let mut i: usize = 0;
    while i < shape.len()
        invariant
            i <= shape@.len(),
            items@.len() == i,
            forall|k: int| 0 <= k < i ==> (#[trigger] items@[k])@ == Doc::Int(shape@[k] as int),
        decreases shape@.len() - i,
    {
        items.push(Json::Int(shape[i] as i128));
        i = i + 1;
    }
    assert(docs(items@) =~= shape_docs(shape@));
    items
}

fn tensor_json(t: &Tensor) -> (r: Json)
    ensures
        r@ == tensor_doc(t@),
{
    let mut o: Vec<(String, Json)> = Vec::new();
    put_member(&mut o, "name", Json::Str(t.name.clone()));
    put_member(&mut o, "dtype", Json::Str(t.dtype.clone()));
    let shape: Vec<Json> = shape_list(t.shape.as_slice());
    proof {
        lemma_view_arr(shape);
    }
    put_member(&mut o, "shape", Json::Arr(shape));
    put_member(&mut o, "numel", count_json(t.numel));
    put_member(&mut o, "offset", Json::Int(t.offset as i128));
    put_member(&mut o, "bytes", Json::Int(t.bytes as i128));
    let ghost fixed = members_of(o@);
    let mut i: usize = 0;
    assert(fixed =~= fixed + members_of(t.extra@).take(0));
    while i < t.extra.len()
        invariant
            i <= t.extra@.len(),
            members_of(o@) == fixed + members_of(t.extra@).take(i as int),
        decreases t.extra@.len() - i,
    {
        put_member(&mut o, t.extra[i].0.as_str(), t.extra[i].1.clone());
        i = i + 1;
        assert(fixed + members_of(t.extra@).take(i as int) =~= (fixed + members_of(
            t.extra@,
        ).take(i - 1)).push(members_of(t.extra@)[i - 1]));
    }
    proof {
        lemma_view_obj(o);
        assert(members_of(t.extra@).take(i as int) =~= members_of(t.extra@));
        assert(members_of(o@) =~= tensor_doc(t@)->Obj_0);
    }
    Json::Obj(o)
}

} // verus!
