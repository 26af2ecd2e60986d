//! What the type descriptions in an npy header mean.

use vstd::prelude::*;
use crate::npy::{bracket_from, descr_of, dims_of, dtype_of, entries_from, entry_step, field_size, fields_size, header_of, meaning_of, no_entries, order_of, py_doc, report_of, repeat_of, Entries, NpyModel, PyModel};
use crate::report::{product, ReportModel};
use crate::text::{all_digits, dec, digit, digits_value, read_unsigned};

verus! {

// ---------------------------------------------------------------------------
// Simple types
// ---------------------------------------------------------------------------

/// Where the bytes of a number are: the first character of a description, or
/// nothing.
pub ghost enum Order {
    Little,
    Big,
    Native,
    NotStated,
    Irrelevant,
}

pub open spec fn order_mark(order: Order) -> Seq<char> {
    match order {
        Order::Little => "<"@,
        Order::Big => ">"@,
        Order::Native => "="@,
        Order::NotStated => ""@,
        Order::Irrelevant => "|"@,
    }
}

pub open spec fn order_name(order: Order) -> Seq<char> {
    match order {
        Order::Little => "little"@,
        Order::Big => "big"@,
        Order::Native => "native"@,
        Order::NotStated => "native"@,
        Order::Irrelevant => "none"@,
    }
}

/// A description: the byte order, the kind, the size, and a unit in brackets
/// where there is one.
pub open spec fn descr(order: Order, kind: char, size: nat, unit: Option<Seq<char>>) -> Seq<char> {
    order_mark(order) + seq![kind] + dec(size) + match unit {
        Some(u) => "["@ + u,
        None => ""@,
    }
}

/// A description means a type of `bytes` bytes an element; one byte has no
/// order.
pub open spec fn means(s: Seq<char>, order: Order, dtype: Seq<char>, bytes: nat) -> bool {
    descr_of(s) == Some(
        (
            dtype,
            bytes,
            if bytes <= 1 {
                "none"@
            } else {
                order_name(order)
            },
        ),
    )
}

pub proof fn lemma_dec_digits(n: nat)
    ensures
        dec(n).len() > 0,
        all_digits(dec(n)),
        digits_value(dec(n)) == n,
    decreases n,
{
    let d = (n % 10) as int;
    assert(digit(d) as nat == 48 + d);
    if n < 10 {
        assert(d == n);
        assert(dec(n).drop_last() =~= seq![]);
        assert(digits_value(seq![]) == 0);
    } else {
        lemma_dec_digits(n / 10);
        assert(dec(n).drop_last() =~= dec(n / 10));
    }
}

/// A number is read as what its digits say.
pub proof fn lemma_read_dec(n: nat, max: nat)
    requires
        n <= max,
    ensures
        read_unsigned(dec(n), max) == Some(n),
{
    lemma_dec_digits(n);
    assert(crate::text::is_digit(dec(n)[0]));
}

proof fn lemma_bracket(s: Seq<char>, from: int, to: int)
    requires
        0 <= from <= to <= s.len(),
        to == s.len() || s[to] == '[',
        forall|i: int| from <= i < to ==> s[i] != '[',
    ensures
        bracket_from(s, from) == to,
    decreases to - from,
{
    if from < to {
        lemma_bracket(s, from + 1, to);
    }
}

proof fn lemma_descr(
    order: Order,
    kind: char,
    size: nat,
    unit: Option<Seq<char>>,
    dtype: Seq<char>,
    bytes: nat,
)
    requires
        size <= u64::MAX,
        bytes <= u64::MAX,
        order_of(kind) is None,
        dtype_of(kind, size) == Some(dtype),
        bytes == if kind == 'U' {
            4 * size
        } else {
            size
        },
    ensures
        means(descr(order, kind, size, unit), order, dtype, bytes),
{
    reveal_strlit("<");
    reveal_strlit(">");
    reveal_strlit("=");
    reveal_strlit("|");
    reveal_strlit("");
    reveal_strlit("[");
    let s = descr(order, kind, size, unit);
    let k = order_mark(order).len() as int;
    let num = dec(size);
    let to = k + 1 + num.len();
    lemma_dec_digits(size);
    lemma_read_dec(size, u64::MAX as nat);
    assert(s[k] == kind);
    if k == 1 {
        assert(s[0] == order_mark(order)[0]);
    }
    assert forall|i: int| k + 1 <= i < to implies s[i] != '[' by {
        assert(s[i] == num[i - k - 1]);
        assert(crate::text::is_digit(num[i - k - 1]));
    }
    lemma_bracket(s, k + 1, to);
    assert(s.subrange(k + 1, to) =~= num);
}

/// What each simple description means: a name, a size and a byte order.
#[verifier::rlimit(40)]
pub proof fn law_simple_types(order: Order, unit: Option<Seq<char>>)
    ensures
        means(descr(order, 'f', 2, unit), order, "f16"@, 2),
        means(descr(order, 'f', 4, unit), order, "f32"@, 4),
        means(descr(order, 'f', 8, unit), order, "f64"@, 8),
        means(descr(order, 'f', 16, unit), order, "f128"@, 16),
        means(descr(order, 'i', 1, unit), order, "i8"@, 1),
        means(descr(order, 'i', 2, unit), order, "i16"@, 2),
        means(descr(order, 'i', 4, unit), order, "i32"@, 4),
        means(descr(order, 'i', 8, unit), order, "i64"@, 8),
        means(descr(order, 'u', 1, unit), order, "u8"@, 1),
        means(descr(order, 'u', 2, unit), order, "u16"@, 2),
        means(descr(order, 'u', 4, unit), order, "u32"@, 4),
        means(descr(order, 'u', 8, unit), order, "u64"@, 8),
        means(descr(order, 'b', 1, unit), order, "bool"@, 1),
        means(descr(order, 'c', 8, unit), order, "complex64"@, 8),
        means(descr(order, 'c', 16, unit), order, "complex128"@, 16),
        means(descr(order, 'c', 32, unit), order, "complex256"@, 32),
        means(descr(order, 'm', 8, unit), order, "timedelta64"@, 8),
        means(descr(order, 'M', 8, unit), order, "datetime64"@, 8),
{
    lemma_descr(order, 'f', 2, unit, "f16"@, 2);
    lemma_descr(order, 'f', 4, unit, "f32"@, 4);
    lemma_descr(order, 'f', 8, unit, "f64"@, 8);
    lemma_descr(order, 'f', 16, unit, "f128"@, 16);
    lemma_descr(order, 'i', 1, unit, "i8"@, 1);
    lemma_descr(order, 'i', 2, unit, "i16"@, 2);
    lemma_descr(order, 'i', 4, unit, "i32"@, 4);
    lemma_descr(order, 'i', 8, unit, "i64"@, 8);
    lemma_descr(order, 'u', 1, unit, "u8"@, 1);
    lemma_descr(order, 'u', 2, unit, "u16"@, 2);
    lemma_descr(order, 'u', 4, unit, "u32"@, 4);
    lemma_descr(order, 'u', 8, unit, "u64"@, 8);
    lemma_descr(order, 'b', 1, unit, "bool"@, 1);
    lemma_descr(order, 'c', 8, unit, "complex64"@, 8);
    lemma_descr(order, 'c', 16, unit, "complex128"@, 16);
    lemma_descr(order, 'c', 32, unit, "complex256"@, 32);
    lemma_descr(order, 'm', 8, unit, "timedelta64"@, 8);
    lemma_descr(order, 'M', 8, unit, "datetime64"@, 8);
}

/// Strings and raw bytes of any length: one byte each, or four for a character.
pub proof fn law_string_types(order: Order, n: nat, unit: Option<Seq<char>>)
    requires
        4 * n <= u64::MAX,
    ensures
        means(descr(order, 'S', n, unit), order, "bytes"@ + dec(n), n),
        means(descr(order, 'a', n, unit), order, "bytes"@ + dec(n), n),
        means(descr(order, 'U', n, unit), order, "str"@ + dec(n), 4 * n),
        means(descr(order, 'V', n, unit), order, "void"@ + dec(n), n),
{
    lemma_descr(order, 'S', n, unit, "bytes"@ + dec(n), n);
    lemma_descr(order, 'a', n, unit, "bytes"@ + dec(n), n);
    lemma_descr(order, 'U', n, unit, "str"@ + dec(n), 4 * n);
    lemma_descr(order, 'V', n, unit, "void"@ + dec(n), n);
}

// ---------------------------------------------------------------------------
// Records
// ---------------------------------------------------------------------------

/// A field: a name, a type, and how often it is repeated.
pub open spec fn plain_field(name: PyModel, of: PyModel, tuple: bool) -> PyModel {
    PyModel::Items(seq![name, of], tuple)
}

pub open spec fn repeated_field(name: PyModel, of: PyModel, n: PyModel, tuple: bool) -> PyModel {
    PyModel::Items(seq![name, of, n], tuple)
}

/// How many bytes a type takes: what its description says, or what its fields
/// take together.
pub open spec fn type_size(of: PyModel) -> Option<nat> {
    match of {
        PyModel::Str(s) => match descr_of(s) {
            Some((_, size, _)) => Some(size),
            None => None,
        },
        PyModel::Items(fields, _) => fields_size(of, fields.len()),
        _ => None,
    }
}

/// A field takes as many bytes as its type, and a repeated one that many times
/// over; dimensions multiply.
#[verifier::rlimit(40)]
pub proof fn law_field_sizes(
    name: PyModel,
    of: PyModel,
    size: nat,
    n: nat,
    dims: Seq<u64>,
    tuple: bool,
    inner: bool,
)
    requires
        type_size(of) == Some(size),
        size <= u64::MAX,
    ensures
        field_size(plain_field(name, of, tuple)) == Some(size),
        size * n <= u64::MAX ==> field_size(
            repeated_field(name, of, PyModel::Int(n as int), tuple),
        ) == Some(size * n),
        small_products(dims) && size * product(dims) <= u64::MAX ==> field_size(
            repeated_field(name, of, PyModel::Items(int_items(dims), inner), tuple),
        ) == Some(size * product(dims)),
{
    assert(size * 1 == size);
    let f = plain_field(name, of, tuple);
    let g = repeated_field(name, of, PyModel::Int(n as int), tuple);
    let h = repeated_field(name, of, PyModel::Items(int_items(dims), inner), tuple);
    assert(seq![name, of][1] == of);
    assert(seq![name, of, PyModel::Int(n as int)][1] == of);
    assert(seq![name, of, PyModel::Int(n as int)][2] == PyModel::Int(n as int));
    assert(seq![name, of, PyModel::Items(int_items(dims), inner)][1] == of);
    if small_products(dims) {
        lemma_repeat(dims);
    }
}

pub open spec fn int_items(dims: Seq<u64>) -> Seq<PyModel> {
    dims.map_values(|d: u64| PyModel::Int(d as int))
}

/// No product of the first dimensions leaves 64 bits.
pub open spec fn small_products(dims: Seq<u64>) -> bool {
    forall|k: int| 0 <= k <= dims.len() ==> #[trigger] product(dims.take(k)) <= u64::MAX
}

proof fn lemma_repeat(dims: Seq<u64>)
    requires
        small_products(dims),
    ensures
        repeat_of(int_items(dims)) == Some(product(dims)),
    decreases dims.len(),
{
    assert(dims.take(dims.len() as int) =~= dims);
    if dims.len() > 0 {
        let s = dims.drop_last();
        assert forall|k: int| 0 <= k <= s.len() implies #[trigger] product(s.take(k))
            <= u64::MAX by {
            assert(s.take(k) =~= dims.take(k));
        }
        lemma_repeat(s);
        assert(int_items(dims).drop_last() =~= int_items(s));
        assert(product(dims) == product(s) * dims.last() as nat);
    }
}

proof fn lemma_fields_prefix(a: PyModel, b: PyModel, n: nat)
    requires
        a matches PyModel::Items(x, _) && b matches PyModel::Items(y, _) && n <= x.len() && n
            <= y.len() && forall|i: int| 0 <= i < n ==> x[i] == y[i],
    ensures
        fields_size(a, n) == fields_size(b, n),
    decreases n,
{
    if n > 0 {
        lemma_fields_prefix(a, b, (n - 1) as nat);
    }
}

/// The fields of a record lie one behind the other: their sizes add up. A
/// record of no fields is empty, and one field more adds its size.
pub proof fn law_record_sizes(fields: Seq<PyModel>, f: PyModel, tuple: bool, size: nat, more: nat)
    requires
        type_size(PyModel::Items(fields, tuple)) == Some(size),
        field_size(f) == Some(more),
        size + more <= u64::MAX,
    ensures
        type_size(PyModel::Items(Seq::empty(), tuple)) == Some(0nat),
        type_size(PyModel::Items(fields.push(f), tuple)) == Some(size + more),
{
    let a = PyModel::Items(fields, tuple);
    let b = PyModel::Items(fields.push(f), tuple);
    lemma_fields_prefix(a, b, fields.len());
    assert(fields.push(f)[fields.len() as int] == f);
}

/// A record is a type named `struct`, of its size.
pub proof fn law_records_are_structs(fields: Seq<PyModel>, tuple: bool, size: nat)
    requires
        type_size(PyModel::Items(fields, tuple)) == Some(size),
    ensures
        meaning_of(PyModel::Items(fields, tuple)) == (
            "struct"@,
            Some(size),
            "none"@,
            Seq::<Seq<char>>::empty(),
        ),
{
    assert(Seq::<Seq<char>>::empty() =~= seq![]);
}

// ---------------------------------------------------------------------------
// The header's keys
// ---------------------------------------------------------------------------

/// The three keys of a header, in one of their orders.
pub open spec fn three_keys(
    pairs: Seq<(Seq<char>, PyModel)>,
    descr: PyModel,
    fortran: bool,
    shape: PyModel,
) -> bool {
    &&& pairs.len() == 3
    &&& exists|i: int, j: int, k: int|
        0 <= i < 3 && 0 <= j < 3 && 0 <= k < 3 && i != j && j != k && i != k && #[trigger] pairs[i]
            == ("descr"@, descr) && #[trigger] pairs[j] == (
            "fortran_order"@,
            PyModel::Bool(fortran),
        ) && #[trigger] pairs[k] == ("shape"@, shape)
}

/// The order of the keys does not matter: the header is the type, the order and
/// the shape that stand under them, with the dimensions as they are listed.
pub proof fn law_key_order_is_free(
    pairs: Seq<(Seq<char>, PyModel)>,
    descr: PyModel,
    fortran: bool,
    shape: Seq<u64>,
    tuple: bool,
    version: (u8, u8),
    total: nat,
)
    requires
        three_keys(pairs, descr, fortran, PyModel::Items(int_items(shape), tuple)),
    ensures
        entries_from(pairs, 0, no_entries()) matches Ok(e) && header_of(version, total, e) matches Ok(
            h,
        ) && {
            &&& h.version == version
            &&& h.header_total == total
            &&& h.fortran_order == fortran
            &&& h.shape == shape
            &&& h.descr == py_doc(descr)
            &&& (h.dtype, h.itemsize, h.byte_order, h.problems) == meaning_of(descr)
        },
{
    reveal_strlit("descr");
    reveal_strlit("fortran_order");
    reveal_strlit("shape");
    assert("descr"@.len() == 5 && "shape"@.len() == 5 && "fortran_order"@.len() == 13);
    assert("descr"@[0] == 'd' && "shape"@[0] == 's');
    reveal_with_fuel(entries_from, 4);
    lemma_dims(shape);
    let none: Seq<Seq<char>> = seq![];
    assert(none + meaning_of(descr).3 =~= meaning_of(descr).3);
}

proof fn lemma_dims(shape: Seq<u64>)
    ensures
        dims_of(int_items(shape)) == Some(shape),
    decreases shape.len(),
{
    if shape.len() > 0 {
        lemma_dims(shape.drop_last());
        assert(int_items(shape).drop_last() =~= int_items(shape.drop_last()));
        assert(shape.drop_last().push(shape.last()) =~= shape);
    } else {
        assert(shape =~= seq![]);
    }
}

// ---------------------------------------------------------------------------
// Sizes
// ---------------------------------------------------------------------------

/// An array takes its elements times the size of one, behind the header. A
/// file of just that size is in order; one that is `k` bytes shorter or longer
/// has that problem more.
pub proof fn law_size_of_array(path: Seq<char>, h: NpyModel, size: nat, k: nat)
    requires
        h.itemsize == Some(size),
        product(h.shape) <= u128::MAX,
        product(h.shape) * size <= u64::MAX,
        k > 0,
    ensures
        ({
            let need = product(h.shape) * size;
            let r = report_of(path, h.header_total + need, h);
            &&& r.header_bytes == h.header_total
            &&& r.data_bytes == need
            &&& r.problems == h.problems
            &&& r.tensors.len() == 1
            &&& r.tensors[0].bytes == need
            &&& r.tensors[0].offset == 0
            &&& r.tensors[0].shape == h.shape
            &&& r.tensors[0].dtype == h.dtype
            &&& r.tensors[0].name.len() == 0
            &&& report_of(path, h.header_total + need + k, h) == (ReportModel {
                file_bytes: h.header_total + need + k,
                problems: h.problems.push(
                    dec(k) + " trailing byte"@ + (if k == 1 {
                        ""@
                    } else {
                        "s"@
                    }) + " after the array data"@,
                ),
                ..r
            })
            &&& k <= need ==> report_of(path, (h.header_total + need - k) as nat, h) == (
            ReportModel {
                file_bytes: (h.header_total + need - k) as nat,
                problems: h.problems.push(
                    "array data needs "@ + dec(need) + " bytes but only "@ + dec((need - k) as nat)
                        + " are present ("@ + dec(k) + " missing) — truncated file"@,
                ),
                ..r
            })
        }),
{
    reveal_strlit("");
}

/// A description that means nothing known is kept as it is, and noted; so is
/// one that is neither text nor a list.
pub proof fn law_unknown_types(s: Seq<char>, descr: PyModel)
    ensures
        descr_of(s) is None ==> meaning_of(PyModel::Str(s)) == (
            s,
            None::<nat>,
            "none"@,
            seq!["unknown dtype descr '"@ + s + "'"@],
        ),
        descr is Bool || descr is Int ==> meaning_of(descr) == (
            "unknown"@,
            None::<nat>,
            "none"@,
            seq!["descr is neither a string nor a field list"@],
        ),
{
}

/// A key that does not belong in a header is noted and changes nothing else.
pub proof fn law_other_keys_are_noted(e: Entries, key: Seq<char>, v: PyModel)
    requires
        key != "descr"@,
        key != "fortran_order"@,
        key != "shape"@,
    ensures
        entry_step(e, key, v) == Ok::<Entries, Seq<char>>(
            Entries {
                problems: e.problems.push("unexpected npy header key '"@ + key + "'"@),
                ..e
            },
        ),
{
}

/// The value under `fortran_order` must be a truth value, and what stands last
/// under a key counts.
pub proof fn law_later_keys_count(e: Entries, v: PyModel, b: bool)
    ensures
        entry_step(e, "descr"@, v) == Ok::<Entries, Seq<char>>(Entries { descr: Some(v), ..e }),
        entry_step(e, "shape"@, v) == Ok::<Entries, Seq<char>>(Entries { shape: Some(v), ..e }),
        entry_step(e, "fortran_order"@, PyModel::Bool(b)) == Ok::<Entries, Seq<char>>(
            Entries { fortran_order: Some(b), ..e },
        ),
        !(v is Bool) ==> entry_step(e, "fortran_order"@, v) == Err::<Entries, Seq<char>>(
            "fortran_order is not a boolean"@,
        ),
{
    reveal_strlit("descr");
    reveal_strlit("fortran_order");
    reveal_strlit("shape");
    assert("descr"@.len() == 5 && "shape"@.len() == 5 && "fortran_order"@.len() == 13);
    assert("descr"@[0] == 'd' && "shape"@[0] == 's');
}

/// The problems of the keys come before those of the type.
pub proof fn law_header_problems(
    version: (u8, u8),
    total: nat,
    e: Entries,
    descr: PyModel,
    fortran: bool,
    shape: Seq<u64>,
    tuple: bool,
)
    requires
        e.descr == Some(descr),
        e.fortran_order == Some(fortran),
        e.shape == Some(PyModel::Items(int_items(shape), tuple)),
    ensures
        header_of(version, total, e) matches Ok(h) && h.problems == e.problems + meaning_of(
            descr,
        ).3,
{
    lemma_dims(shape);
}

} // verus!
