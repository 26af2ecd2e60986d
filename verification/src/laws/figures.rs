//! What the listing says of each tensor, and the figures in it.

use vstd::prelude::*;
use crate::bignat::{lemma_power_add, lemma_power_positive, power};
use crate::float::{exponent_from, half_even, step_den, step_num, P53};
use crate::laws::decimals::lemma_half_even_near;
use crate::render::{as_double, bytes_text, byte_unit, count_tenths, count_text, excess_bits, lemma_half_even_scaled, listing, problem_lines, row_of, row_text, rows_of, rows_text, summary, table_text, widths_of, RowModel};
use crate::report::{passes, total_numel, ReportModel, TensorModel};
use crate::text::{dec, digit};

verus! {

// ---------------------------------------------------------------------------
// Decimal figures
// ---------------------------------------------------------------------------

/// A number is written digit by digit, the units last, without leading zeros.
pub proof fn law_decimal_digits(n: nat, d: nat)
    requires
        d < 10,
    ensures
        dec(d) == seq![("0123456789"@)[d as int]],
        n > 0 ==> dec(10 * n + d) == dec(n).push(("0123456789"@)[d as int]),
{
    reveal_strlit("0123456789");
    let c = ("0123456789"@)[d as int];
    assert(c == digit(d as int)) by {
        if d == 0 {
        } else if d == 1 {
        } else if d == 2 {
        } else if d == 3 {
        } else if d == 4 {
        } else if d == 5 {
        } else if d == 6 {
        } else if d == 7 {
        } else if d == 8 {
        } else {
            assert(d == 9);
        }
    }
    if n > 0 {
        assert((10 * n + d) / 10 == n && (10 * n + d) % 10 == d);
    }
}

/// Different numbers are written differently.
pub proof fn law_decimal_is_unique(n: nat, m: nat)
    requires
        dec(n) == dec(m),
    ensures
        n == m,
    decreases n,
{
    if n < 10 {
        if m >= 10 {
            lemma_dec_nonempty(m / 10);
            assert(dec(m).len() >= 2);
        } else {
            assert(dec(n)[0] == digit(n as int) && dec(m)[0] == digit(m as int));
            assert(digit(n as int) as int == 48 + n && digit(m as int) as int == 48 + m);
        }
    } else if m < 10 {
        lemma_dec_nonempty(n / 10);
        assert(dec(n).len() >= 2);
    } else {
        assert(dec(n).drop_last() =~= dec(n / 10));
        assert(dec(m).drop_last() =~= dec(m / 10));
        law_decimal_is_unique(n / 10, m / 10);
        assert(dec(n).last() == digit((n % 10) as int) && dec(m).last() == digit((m % 10) as int));
        let x = (n % 10) as int;
        let y = (m % 10) as int;
        assert(digit(x) as int == 48 + x && digit(y) as int == 48 + y);
    }
}

proof fn lemma_dec_nonempty(n: nat)
    ensures
        dec(n).len() >= 1,
{
}

// ---------------------------------------------------------------------------
// Sizes
// ---------------------------------------------------------------------------

/// A number of tenths with one decimal.
pub open spec fn with_tenth(t: nat) -> Seq<char> {
    dec(t / 10) + "."@ + dec(t % 10)
}

/// `t` is the number of tenths of `unit` nearest to `n`, the even one of two.
pub open spec fn nearest_tenths(t: nat, n: nat, unit: nat) -> bool {
    &&& (2 * t - 1) * unit <= 20 * n <= (2 * t + 1) * unit
    &&& t % 2 == 1 ==> (2 * t - 1) * unit < 20 * n < (2 * t + 1) * unit
}

proof fn lemma_exact(n: nat)
    requires
        n < P53,
    ensures
        as_double(n) == n,
{
    assert(power(2, 0) == 1);
    assert(n / 1 == n && n % 1 == 0);
    assert(half_even(n, 1) == n);
    assert(n * 1 == n);
}

proof fn lemma_kilos()
    ensures
        power(1024, 1) == 1024,
        power(1024, 2) == 1048576,
        power(1024, 3) == 1073741824,
        power(1024, 4) == 1099511627776,
        power(1024, 5) == 1125899906842624,
{
    reveal_with_fuel(power, 6);
}

proof fn lemma_unit_found(n: nat, u: nat)
    requires
        1 <= u <= 5,
        n >= power(1024, u),
        u < 5 ==> n < power(1024, u + 1),
    ensures
        byte_unit(n, 1) == u,
{
    lemma_kilos();
    reveal_with_fuel(byte_unit, 6);
}

proof fn lemma_size_text(n: nat, u: nat, unit: nat, t: nat)
    requires
        1 <= u <= 5,
        unit == power(1024, u),
        n >= unit,
        u < 5 ==> n < power(1024, u + 1),
        n < P53,
        nearest_tenths(t, n, unit),
    ensures
        bytes_text(n) == with_tenth(t) + crate::render::byte_unit_name(u),
{
    lemma_exact(n);
    lemma_kilos();
    lemma_unit_found(n, u);
    assert((2 * t - 1) * unit <= 2 * (10 * n) <= (2 * t + 1) * unit);
    lemma_half_even_near(10 * n, unit, t);
    reveal_strlit(".");
    assert(with_tenth(t) =~= crate::render::tenths_text(t));
}

/// How a size is shown: exactly, in bytes, below 1024; else in the largest
/// unit that it reaches, each 1024 times the one before, with the nearest
/// tenth. (Sizes that a double holds exactly.)
pub proof fn law_sizes_in_figures(n: nat, t: nat)
    requires
        n < 0x20_0000_0000_0000,
    ensures
        n < 1024 ==> bytes_text(n) == dec(n) + " B"@,
        1024 <= n < 1048576 && nearest_tenths(t, n, 1024) ==> bytes_text(n) == with_tenth(t)
            + " KiB"@,
        1048576 <= n < 1073741824 && nearest_tenths(t, n, 1048576) ==> bytes_text(n) == with_tenth(
            t,
        ) + " MiB"@,
        1073741824 <= n < 1099511627776 && nearest_tenths(t, n, 1073741824) ==> bytes_text(n)
            == with_tenth(t) + " GiB"@,
        1099511627776 <= n < 1125899906842624 && nearest_tenths(t, n, 1099511627776) ==> bytes_text(
            n,
        ) == with_tenth(t) + " TiB"@,
        1125899906842624 <= n && nearest_tenths(t, n, 1125899906842624) ==> bytes_text(n)
            == with_tenth(t) + " PiB"@,
{
    lemma_kilos();
    if 1024 <= n < 1048576 && nearest_tenths(t, n, 1024) {
        lemma_size_text(n, 1, 1024, t);
    }
    if 1048576 <= n < 1073741824 && nearest_tenths(t, n, 1048576) {
        lemma_size_text(n, 2, 1048576, t);
    }
    if 1073741824 <= n < 1099511627776 && nearest_tenths(t, n, 1073741824) {
        lemma_size_text(n, 3, 1073741824, t);
    }
    if 1099511627776 <= n < 1125899906842624 && nearest_tenths(t, n, 1099511627776) {
        lemma_size_text(n, 4, 1099511627776, t);
    }
    if 1125899906842624 <= n && nearest_tenths(t, n, 1125899906842624) {
        lemma_size_text(n, 5, 1125899906842624, t);
    }
}

proof fn lemma_excess_range(n: nat)
    requires
        n >= P53,
    ensures
        excess_bits(n) > 0,
        power(2, excess_bits(n)) * 0x10_0000_0000_0000 <= n,
    decreases n,
{
    let k = excess_bits(n / 2);
    assert(excess_bits(n) == 1 + k);
    assert(power(2, k + 1) == 2 * power(2, k));
    if n / 2 >= P53 {
        lemma_excess_range(n / 2);
        let p = power(2, k);
        assert((2 * p) * 0x10_0000_0000_0000 == 2 * (p * 0x10_0000_0000_0000)) by (nonlinear_arith);
    } else {
        assert(power(2, 0) == 1);
    }
}

/// A size that no double holds exactly is taken for one that is off by less
/// than one part in 2^52; it is shown in the largest unit.
pub proof fn law_largest_sizes(n: nat, t: nat)
    requires
        n >= 0x20_0000_0000_0000,
    ensures
        2 * n - n / 0x10_0000_0000_0000 <= 2 * as_double(n) <= 2 * n + n / 0x10_0000_0000_0000,
        nearest_tenths(t, as_double(n), 1125899906842624) ==> bytes_text(n) == with_tenth(t)
            + " PiB"@,
{
    let k = excess_bits(n);
    let p = power(2, k);
    lemma_excess_range(n);
    lemma_power_positive(2, k);
    lemma_rounding_error(n, p);
    assert(p <= n / 0x10_0000_0000_0000);
    let v = as_double(n);
    lemma_kilos();
    if nearest_tenths(t, v, 1125899906842624) {
        lemma_unit_found(v, 5);
        lemma_half_even_near(10 * v, 1125899906842624, t);
        reveal_strlit(".");
        assert(with_tenth(t) =~= crate::render::tenths_text(t));
    }
}

// ---------------------------------------------------------------------------
// Counts
// ---------------------------------------------------------------------------

/// Rounding stays within half a unit.
pub proof fn lemma_rounding_error(n: nat, d: nat)
    requires
        d > 0,
    ensures
        2 * n - d <= 2 * (half_even(n, d) * d) <= 2 * n + d,
{
    let q = n / d;
    let r = n % d;
    vstd::arithmetic::div_mod::lemma_fundamental_div_mod(n as int, d as int);
    vstd::arithmetic::div_mod::lemma_mod_bound(n as int, d as int);
    assert(q * d == d * q && (q + 1) * d == d * q + d) by (nonlinear_arith);
}

proof fn lemma_exponent_at_most(a: nat, b: nat, e: int, from: int)
    requires
        -1074 <= from <= e <= 971,
        step_num(a) < step_den(b, e) * P53,
    ensures
        from <= exponent_from(a, b, from) <= e,
    decreases e - from,
{
    if !(step_num(a) < step_den(b, from) * P53) {
        lemma_exponent_at_most(a, b, e, from + 1);
    }
}

/// A double holds a count of thousands to more than three binary places.
proof fn lemma_quotient_places(n: nat, step: nat)
    requires
        n < P53,
        step >= 1000,
    ensures
        -1074 <= exponent_from(n, step, -1074) <= -9,
{
    let d = power(2, 1065);
    lemma_power_positive(2, 1065);
    lemma_power_add(2, 1065, 9);
    assert(power(2, 9) == 512) by {
        reveal_with_fuel(power, 10);
    }
    assert((-9 + 1074) as nat == 1065);
    assert(n * (d * 512) < (step * d) * P53) by (nonlinear_arith)
        requires
            n < P53,
            step >= 1000,
            d > 0,
    ;
    lemma_exponent_at_most(n, step, -9, -1074);
}

proof fn lemma_count_near(n: nat, step: nat)
    requires
        n < P53,
        step >= 1000,
    ensures
        10 * n - step < count_tenths(n, step) * step < 10 * n + step,
{
    lemma_exact(n);
    lemma_quotient_places(n, step);
    let e = exponent_from(n, step, -1074);
    let d = power(2, (e + 1074) as nat);
    let k = power(2, (-e) as nat);
    lemma_power_positive(2, (e + 1074) as nat);
    lemma_power_add(2, (e + 1074) as nat, (-e) as nat);
    assert((e + 1074) as nat + (-e) as nat == 1074);
    assert(step_num(n) == (n * k) * d) by (nonlinear_arith)
        requires
            step_num(n) == n * (d * k),
    ;
    assert(step_den(step, e) == step * d);
    lemma_half_even_scaled(n * k, step, d);
    let m = half_even(n * k, step);
    lemma_rounding_error(n * k, step);
    let t = half_even(10 * m, k);
    lemma_power_add(2, 9, (-e - 9) as nat);
    lemma_power_positive(2, (-e - 9) as nat);
    assert(power(2, 9) == 512) by {
        reveal_with_fuel(power, 10);
    }
    let rest = power(2, (-e - 9) as nat);
    assert(9 + (-e - 9) as nat == (-e) as nat);
    assert(k >= 512) by (nonlinear_arith)
        requires
            k == 512 * rest,
            rest > 0,
    ;
    lemma_rounding_error(10 * m, k);
    assert(count_tenths(n, step) == t);
    assert(10 * n - step < t * step < 10 * n + step) by (nonlinear_arith)
        requires
            2 * (n * k) - step <= 2 * (m * step) <= 2 * (n * k) + step,
            2 * (10 * m) - k <= 2 * (t * k) <= 2 * (10 * m) + k,
            k >= 512,
            step >= 1000,
    ;
}

/// A count shown as `t` tenths of `step`.
pub open spec fn counted_in(n: nat, step: nat, suffix: Seq<char>) -> bool {
    exists|t: nat|
        10 * n - step < #[trigger] (t * step) < 10 * n + step && count_text(n) == with_tenth(t)
            + suffix
}

/// How a count is shown: exactly below a thousand; else in thousands,
/// millions, billions or trillions, less than a tenth off. (Counts that a
/// double holds exactly.)
pub proof fn law_counts_in_figures(n: nat)
    requires
        n < 0x20_0000_0000_0000,
    ensures
        n < 1000 ==> count_text(n) == dec(n),
        1000 <= n < 1_000_000 ==> counted_in(n, 1000, " K"@),
        1_000_000 <= n < 1_000_000_000 ==> counted_in(n, 1_000_000, " M"@),
        1_000_000_000 <= n < 1_000_000_000_000 ==> counted_in(n, 1_000_000_000, " B"@),
        1_000_000_000_000 <= n ==> counted_in(n, 1_000_000_000_000, " T"@),
{
    reveal_strlit(".");
    if n >= 1000 {
        let step: nat = if n < 1_000_000 {
            1000
        } else if n < 1_000_000_000 {
            1_000_000
        } else if n < 1_000_000_000_000 {
            1_000_000_000
        } else {
            1_000_000_000_000
        };
        lemma_count_near(n, step);
        let t = count_tenths(n, step);
        assert(with_tenth(t) =~= crate::render::tenths_text(t));
        assert(10 * n - step < t * step < 10 * n + step);
    }
}

// ---------------------------------------------------------------------------
// Rows
// ---------------------------------------------------------------------------

/// The row of a tensor shows that tensor: its name, or a dash where it has
/// none, its type, its dimensions and its size. Nothing else of it changes the
/// row.
pub proof fn law_row_shows_its_tensor(t: TensorModel, u: TensorModel, k: nat)
    ensures
        t.name.len() > 0 ==> row_of(t).name == t.name,
        t.name.len() == 0 ==> row_of(t).name == "-"@,
        row_of(t).dtype == t.dtype,
        t.bytes < 1024 ==> row_of(t).bytes == dec(t.bytes) + " B"@,
        t.bytes == 1024 * k && 1 <= k < 1024 ==> row_of(t).bytes == dec(k) + ".0 KiB"@,
        t.bytes == 1048576 * k && 1 <= k < 1024 ==> row_of(t).bytes == dec(k) + ".0 MiB"@,
        t.bytes == 1073741824 * k && 1 <= k < 1024 ==> row_of(t).bytes == dec(k) + ".0 GiB"@,
        t.name == u.name && t.dtype == u.dtype && t.shape == u.shape && t.bytes == u.bytes
            ==> row_of(t) == row_of(u),
        t.bytes < 1024 && u.bytes < 1024 && t.bytes != u.bytes ==> row_of(t).bytes != row_of(
            u,
        ).bytes,
{
    lemma_whole(t.bytes, k);
    if t.bytes < 1024 && u.bytes < 1024 && row_of(t).bytes == row_of(u).bytes {
        let x = dec(t.bytes) + " B"@;
        let y = dec(u.bytes) + " B"@;
        assert(x == y);
        assert(x.len() == dec(t.bytes).len() + (" B"@).len());
        assert(y.len() == dec(u.bytes).len() + (" B"@).len());
        assert(x.take(dec(t.bytes).len() as int) =~= dec(t.bytes));
        assert(y.take(dec(u.bytes).len() as int) =~= dec(u.bytes));
        law_decimal_is_unique(t.bytes, u.bytes);
    }
}

proof fn lemma_whole(n: nat, k: nat)
    ensures
        n == 1024 * k && 1 <= k < 1024 ==> bytes_text(n) == dec(k) + ".0 KiB"@,
        n == 1048576 * k && 1 <= k < 1024 ==> bytes_text(n) == dec(k) + ".0 MiB"@,
        n == 1073741824 * k && 1 <= k < 1024 ==> bytes_text(n) == dec(k) + ".0 GiB"@,
{
    if 1 <= k < 1024 && (n == 1024 * k || n == 1048576 * k || n == 1073741824 * k) {
        law_sizes_in_figures(n, 10 * k);
        law_decimal_digits(k, 0);
        reveal_strlit("0123456789");
        reveal_strlit(".");
        reveal_strlit(" KiB");
        reveal_strlit(" MiB");
        reveal_strlit(" GiB");
        reveal_strlit(".0 KiB");
        reveal_strlit(".0 MiB");
        reveal_strlit(".0 GiB");
        assert((10 * k) / 10 == k && (10 * k) % 10 == 0);
        assert(with_tenth(10 * k) + " KiB"@ =~= dec(k) + ".0 KiB"@);
        assert(with_tenth(10 * k) + " MiB"@ =~= dec(k) + ".0 MiB"@);
        assert(with_tenth(10 * k) + " GiB"@ =~= dec(k) + ".0 GiB"@);
    }
}

/// The dimensions of a tensor are joined by a multiplication sign, in order; a
/// tensor without any is a scalar.
pub proof fn law_row_shows_dimensions(t: TensorModel, u: TensorModel, n: u64)
    ensures
        t.shape.len() == 0 ==> row_of(t).shape == "scalar"@,
        t.shape == seq![n] ==> row_of(t).shape == dec(n as nat),
        u.shape.len() > 0 && t.shape == u.shape.push(n) ==> row_of(t).shape == row_of(u).shape
            + "×"@ + dec(n as nat),
{
    if u.shape.len() > 0 {
        assert(u.shape.push(n).drop_last() =~= u.shape);
    }
}

// ---------------------------------------------------------------------------
// The listing
// ---------------------------------------------------------------------------

/// The rows are those of the tensors that pass the filter, in order.
pub proof fn law_rows_follow_tensors(
    ts: Seq<TensorModel>,
    us: Seq<TensorModel>,
    t: TensorModel,
    filter: Option<Seq<char>>,
)
    ensures
        rows_of(ts + us, filter) == rows_of(ts, filter) + rows_of(us, filter),
        passes(filter, t) ==> rows_of(seq![t], filter) == seq![row_of(t)],
        !passes(filter, t) ==> rows_of(seq![t], filter) == Seq::<RowModel>::empty(),
        passes(None, t),
    decreases us.len(),
{
    assert(seq![t].drop_last() =~= Seq::empty());
    assert(rows_of(Seq::empty(), filter) == Seq::<RowModel>::empty());
    assert(Seq::<RowModel>::empty().push(row_of(t)) =~= seq![row_of(t)]);
    if us.len() == 0 {
        assert(ts + us =~= ts);
        assert(rows_of(ts, filter) + rows_of(us, filter) =~= rows_of(ts, filter));
    } else {
        assert((ts + us).drop_last() =~= ts + us.drop_last());
        law_rows_follow_tensors(ts, us.drop_last(), t, filter);
        assert(rows_of(ts + us, filter) =~= rows_of(ts, filter) + rows_of(us, filter));
    }
}

/// Without a filter every tensor has its row, at its place.
pub proof fn law_every_tensor_has_its_row(ts: Seq<TensorModel>, i: int)
    requires
        0 <= i < ts.len(),
    ensures
        rows_of(ts, None).len() == ts.len(),
        rows_of(ts, None)[i] == row_of(ts[i]),
{
    lemma_all_rows(ts);
}

proof fn lemma_all_rows(ts: Seq<TensorModel>)
    ensures
        rows_of(ts, None) == ts.map_values(|t: TensorModel| row_of(t)),
    decreases ts.len(),
{
    let f = |t: TensorModel| row_of(t);
    if ts.len() > 0 {
        lemma_all_rows(ts.drop_last());
        assert(ts.drop_last().map_values(f).push(row_of(ts.last())) =~= ts.map_values(f));
    } else {
        assert(ts.map_values(f) =~= seq![]);
    }
}

/// `part` stands somewhere in `text`.
pub open spec fn stands_in(part: Seq<char>, text: Seq<char>) -> bool {
    exists|at: int| part_at(part, text, at)
}

pub open spec fn part_at(part: Seq<char>, text: Seq<char>, at: int) -> bool {
    0 <= at && at + part.len() <= text.len() && text.subrange(at, at + part.len()) == part
}

proof fn lemma_part(part: Seq<char>, x: Seq<char>, y: Seq<char>)
    ensures
        stands_in(part, x + part + y),
        stands_in(part, x) ==> stands_in(part, x + y),
        stands_in(part, y) ==> stands_in(part, x + y),
{
    let w = x + part + y;
    assert(w.subrange(x.len() as int, x.len() as int + part.len()) =~= part);
    assert(part_at(part, w, x.len() as int));
    if stands_in(part, x) {
        let at = choose|at: int| part_at(part, x, at);
        assert((x + y).subrange(at, at + part.len()) =~= x.subrange(at, at + part.len()));
        assert(part_at(part, x + y, at));
    }
    if stands_in(part, y) {
        let at = choose|at: int| part_at(part, y, at);
        let to = x.len() as int + at;
        assert((x + y).subrange(to, to + part.len()) =~= y.subrange(at, at + part.len()));
        assert(part_at(part, x + y, to));
    }
}

proof fn lemma_row_in_rows(rows: Seq<RowModel>, n: nat, w: crate::render::Widths, i: int)
    requires
        0 <= i < n <= rows.len(),
    ensures
        stands_in(row_text(rows[i], w), rows_text(rows, n, w)),
    decreases n,
{
    let part = row_text(rows[i], w);
    let before = rows_text(rows, (n - 1) as nat, w);
    if i == n - 1 {
        lemma_part(part, before, Seq::empty());
        assert(before + part + Seq::<char>::empty() =~= before + part);
    } else {
        lemma_row_in_rows(rows, (n - 1) as nat, w, i);
        lemma_part(part, before, row_text(rows[n - 1], w));
    }
}

/// The listing has a line for each tensor that passes the filter.
pub proof fn law_listing_has_every_row(r: ReportModel, filter: Option<Seq<char>>, i: int)
    requires
        0 <= i < rows_of(r.tensors, filter).len(),
    ensures
        ({
            let rows = rows_of(r.tensors, filter);
            stands_in(row_text(rows[i], widths_of(rows)), listing(r, filter))
        }),
{
    let rows = rows_of(r.tensors, filter);
    let w = widths_of(rows);
    let part = row_text(rows[i], w);
    let head = row_text(crate::render::header_row(), w);
    lemma_row_in_rows(rows, rows.len(), w, i);
    lemma_part(part, head, rows_text(rows, rows.len(), w));
    lemma_part(part, summary(r), table_text(rows));
    lemma_part(part, summary(r) + table_text(rows), problem_lines(r.problems));
}

/// Each problem has a line of its own, in order.
pub proof fn law_problems_have_lines(ps: Seq<Seq<char>>, qs: Seq<Seq<char>>, p: Seq<char>)
    ensures
        problem_lines(Seq::empty()) == Seq::<char>::empty(),
        problem_lines(seq![p]) == "problem: "@ + p + "\n"@,
        problem_lines(ps + qs) == problem_lines(ps) + problem_lines(qs),
    decreases qs.len(),
{
    assert(seq![p].drop_last() =~= Seq::empty());
    assert(problem_lines(Seq::empty()) =~= Seq::empty());
    assert(problem_lines(seq![p]) =~= "problem: "@ + p + "\n"@);
    if qs.len() == 0 {
        assert(ps + qs =~= ps);
        assert(problem_lines(ps) + problem_lines(qs) =~= problem_lines(ps));
    } else {
        assert((ps + qs).drop_last() =~= ps + qs.drop_last());
        law_problems_have_lines(ps, qs.drop_last(), p);
        assert(problem_lines(ps + qs) =~= problem_lines(ps) + problem_lines(qs));
    }
}

/// The listing ends with the problems.
pub proof fn law_listing_ends_with_problems(r: ReportModel, filter: Option<Seq<char>>)
    ensures
        ({
            let k = listing(r, filter).len() - problem_lines(r.problems).len();
            k >= 0 && listing(r, filter).skip(k) == problem_lines(r.problems)
        }),
{
    let x = summary(r) + table_text(rows_of(r.tensors, filter));
    assert(listing(r, filter).skip(x.len() as int) =~= problem_lines(r.problems));
}

/// The counts of elements of two lists of tensors add up.
pub proof fn law_counts_add_up(ts: Seq<TensorModel>, us: Seq<TensorModel>, t: TensorModel)
    ensures
        total_numel(Seq::empty()) == 0,
        total_numel(seq![t]) == t.numel,
        total_numel(ts + us) == total_numel(ts) + total_numel(us),
    decreases us.len(),
{
    assert(seq![t].drop_last() =~= Seq::empty());
    assert(total_numel(Seq::empty()) == 0);
    if us.len() == 0 {
        assert(ts + us =~= ts);
    } else {
        assert((ts + us).drop_last() =~= ts + us.drop_last());
        law_counts_add_up(ts, us.drop_last(), t);
    }
}

/// The first line names the file and its format, how many tensors it has, how
/// many parameters and how many bytes of data.
pub proof fn law_summary_in_figures(r: ReportModel)
    ensures
        ({
            let params = total_numel(r.tensors);
            let tensors = if r.tensors.len() == 1 {
                " tensor · "@
            } else {
                " tensors · "@
            };
            let what = if params == 1 {
                " param · "@
            } else {
                " params · "@
            };
            params <= u128::MAX ==> summary(r) == r.file + " · "@ + r.format + " · "@ + dec(
                r.tensors.len(),
            ) + tensors + count_text(params) + what + bytes_text(r.data_bytes) + " data\n"@
        }),
{
    reveal_strlit(" · ");
    reveal_strlit("");
    reveal_strlit("s");
    reveal_strlit(" tensor");
    reveal_strlit(" param");
    reveal_strlit(" tensor · ");
    reveal_strlit(" param · ");
    reveal_strlit(" tensors · ");
    reveal_strlit(" params · ");
    let params = total_numel(r.tensors);
    let tensors = if r.tensors.len() == 1 {
        " tensor · "@
    } else {
        " tensors · "@
    };
    let what = if params == 1 {
        " param · "@
    } else {
        " params · "@
    };
    if params <= u128::MAX {
        assert(summary(r) =~= r.file + " · "@ + r.format + " · "@ + dec(r.tensors.len()) + tensors
            + count_text(params) + what + bytes_text(r.data_bytes) + " data\n"@);
    }
}

/// Where no tensor is to be shown there is no table at all; where there is one,
/// the headings stand above it.
pub proof fn law_table_or_none(r: ReportModel, filter: Option<Seq<char>>)
    ensures
        rows_of(r.tensors, filter).len() == 0 ==> listing(r, filter) == summary(r) + problem_lines(
            r.problems,
        ),
        rows_of(r.tensors, filter).len() > 0 ==> ({
            let rows = rows_of(r.tensors, filter);
            let heading = RowModel {
                name: "NAME"@,
                dtype: "DTYPE"@,
                shape: "SHAPE"@,
                bytes: "BYTES"@,
            };
            let top = summary(r) + row_text(heading, widths_of(rows));
            listing(r, filter).len() >= top.len() && listing(r, filter).take(top.len() as int)
                == top
        }),
{
    let rows = rows_of(r.tensors, filter);
    if rows.len() == 0 {
        assert(summary(r) + table_text(rows) =~= summary(r));
    } else {
        let top = summary(r) + row_text(crate::render::header_row(), widths_of(rows));
        assert(listing(r, filter).take(top.len() as int) =~= top);
    }
}

} // verus!
