//! What the table looks like.

use vstd::prelude::*;
use crate::render::{header_row, padded, row_text, widths_of, RowModel, Widths};

verus! {

/// Every cell of a row fits in its column.
spec fn fits(r: RowModel, w: Widths) -> bool {
    r.name.len() <= w.name && r.dtype.len() <= w.dtype && r.shape.len() <= w.shape
}

proof fn lemma_fits(rows: Seq<RowModel>, i: int)
    requires
        0 <= i < rows.len(),
    ensures
        fits(rows[i], widths_of(rows)),
    decreases rows.len(),
{
    if i < rows.len() - 1 {
        lemma_fits(rows.drop_last(), i);
        assert(rows.drop_last()[i] == rows[i]);
    }
}

proof fn lemma_header_fits(rows: Seq<RowModel>)
    ensures
        fits(header_row(), widths_of(rows)),
    decreases rows.len(),
{
    reveal_strlit("NAME");
    reveal_strlit("DTYPE");
    reveal_strlit("SHAPE");
    if rows.len() > 0 {
        lemma_header_fits(rows.drop_last());
    }
}

/// Where the columns of a table with these widths start; between the cells
/// there are blanks, and the line ends behind the last.
pub open spec fn columns_at(line: Seq<char>, r: RowModel, w: Widths) -> bool {
    let dtype = w.name as int + 2;
    let shape = dtype + w.dtype + 2;
    let bytes = shape + w.shape + 2;
    &&& line.len() == bytes + r.bytes.len() + 1
    &&& line.subrange(0, r.name.len() as int) == r.name
    &&& line.subrange(dtype, dtype + r.dtype.len()) == r.dtype
    &&& line.subrange(shape, shape + r.shape.len()) == r.shape
    &&& line.subrange(bytes, bytes + r.bytes.len()) == r.bytes
    &&& forall|i: int|
        r.name.len() <= i < dtype || dtype + r.dtype.len() <= i < shape || shape + r.shape.len()
            <= i < bytes ==> #[trigger] line[i] == ' '
    &&& line.last() == '\n'
}

proof fn lemma_columns(r: RowModel, w: Widths)
    requires
        fits(r, w),
    ensures
        columns_at(row_text(r, w), r, w),
{
    let line = row_text(r, w);
    reveal_strlit("  ");
    reveal_strlit("\n");
    let dtype = w.name as int + 2;
    let shape = dtype + w.dtype + 2;
    let bytes = shape + w.shape + 2;
    assert(padded(r.name, w.name).len() == w.name);
    assert(padded(r.dtype, w.dtype).len() == w.dtype);
    assert(padded(r.shape, w.shape).len() == w.shape);
    assert(line.subrange(0, r.name.len() as int) =~= r.name);
    assert(line.subrange(dtype, dtype + r.dtype.len()) =~= r.dtype);
    assert(line.subrange(shape, shape + r.shape.len()) =~= r.shape);
    assert(line.subrange(bytes, bytes + r.bytes.len()) =~= r.bytes);
}

/// The columns of a table line up: in every row, and in the header, each cell
/// starts at the same place.
pub proof fn law_columns_line_up(rows: Seq<RowModel>)
    ensures
        columns_at(row_text(header_row(), widths_of(rows)), header_row(), widths_of(rows)),
        forall|i: int|
            0 <= i < rows.len() ==> columns_at(
                row_text(#[trigger] rows[i], widths_of(rows)),
                rows[i],
                widths_of(rows),
            ),
{
    let w = widths_of(rows);
    lemma_header_fits(rows);
    lemma_columns(header_row(), w);
    assert forall|i: int| 0 <= i < rows.len() implies columns_at(
        row_text(#[trigger] rows[i], w),
        rows[i],
        w,
    ) by {
        lemma_fits(rows, i);
        lemma_columns(rows[i], w);
    }
}

/// `w` is the length of a cell, and none is longer.
pub open spec fn longest(cells: Seq<Seq<char>>, w: nat) -> bool {
    &&& exists|i: int| 0 <= i < cells.len() && (#[trigger] cells[i]).len() == w
    &&& forall|i: int| 0 <= i < cells.len() ==> (#[trigger] cells[i]).len() <= w
}

proof fn lemma_longest_more(cells: Seq<Seq<char>>, w: nat, c: Seq<char>)
    requires
        longest(cells, w),
    ensures
        longest(
            cells.push(c),
            if c.len() > w {
                c.len()
            } else {
                w
            },
        ),
{
    let more = cells.push(c);
    let k = choose|i: int| 0 <= i < cells.len() && (#[trigger] cells[i]).len() == w;
    assert(more[k] == cells[k]);
    assert(more[cells.len() as int] == c);
}

/// The columns are as narrow as their heading and their cells let them be.
pub proof fn law_columns_are_tight(rows: Seq<RowModel>)
    ensures
        longest(seq!["NAME"@] + rows.map_values(|r: RowModel| r.name), widths_of(rows).name),
        longest(seq!["DTYPE"@] + rows.map_values(|r: RowModel| r.dtype), widths_of(rows).dtype),
        longest(seq!["SHAPE"@] + rows.map_values(|r: RowModel| r.shape), widths_of(rows).shape),
    decreases rows.len(),
{
    let f = |r: RowModel| r.name;
    let g = |r: RowModel| r.dtype;
    let h = |r: RowModel| r.shape;
    if rows.len() == 0 {
        reveal_strlit("NAME");
        reveal_strlit("DTYPE");
        reveal_strlit("SHAPE");
        assert((seq!["NAME"@] + rows.map_values(f))[0].len() == 4);
        assert((seq!["DTYPE"@] + rows.map_values(g))[0].len() == 5);
        assert((seq!["SHAPE"@] + rows.map_values(h))[0].len() == 5);
    } else {
        let s = rows.drop_last();
        let w = widths_of(s);
        let r = rows.last();
        law_columns_are_tight(s);
        lemma_longest_more(seq!["NAME"@] + s.map_values(f), w.name, r.name);
        lemma_longest_more(seq!["DTYPE"@] + s.map_values(g), w.dtype, r.dtype);
        lemma_longest_more(seq!["SHAPE"@] + s.map_values(h), w.shape, r.shape);
        assert((seq!["NAME"@] + s.map_values(f)).push(r.name) =~= seq!["NAME"@] + rows.map_values(
            f,
        ));
        assert((seq!["DTYPE"@] + s.map_values(g)).push(r.dtype) =~= seq!["DTYPE"@]
            + rows.map_values(g));
        assert((seq!["SHAPE"@] + s.map_values(h)).push(r.shape) =~= seq!["SHAPE"@]
            + rows.map_values(h));
    }
}

} // verus!
