//! How much of a GGUF file has to be at hand.

use vstd::prelude::*;
use crate::bytes::lemma_le_window;
use crate::gguf::{alignment_problems, dims_from, elements_from, entry_at, has_key, head_of, metadata_from, min_value_size, number_at, parse_model, string_at, tensor_at, tensors_from, value_at, MAX_ARRAY_DEPTH, MAX_DIMS, SHORT_READ};
use crate::json::Doc;
use crate::report::{ReportModel, TensorModel};

verus! {

/// `b` is the beginning of `c`.
pub open spec fn begins(c: Seq<u8>, b: Seq<u8>) -> bool {
    b.len() <= c.len() && c.take(b.len() as int) == b
}

proof fn lemma_begins_index(c: Seq<u8>, b: Seq<u8>, i: int)
    requires
        begins(c, b),
        0 <= i < b.len(),
    ensures
        b[i] == c[i],
{
    assert(c.take(b.len() as int)[i] == c[i]);
}

proof fn lemma_begins_part(c: Seq<u8>, b: Seq<u8>, i: int, j: int)
    requires
        begins(c, b),
        0 <= i <= j <= b.len(),
    ensures
        b.subrange(i, j) == c.subrange(i, j),
{
    assert(b.subrange(i, j) =~= c.subrange(i, j)) by {
        assert forall|k: int| i <= k < j implies b[k] == #[trigger] c[k] by {
            lemma_begins_index(c, b, k);
        }
    }
}

proof fn lemma_number(b: Seq<u8>, c: Seq<u8>, flen: nat, pos: int, n: nat)
    requires
        begins(c, b),
        0 <= pos,
    ensures
        number_at(b, flen, pos, n) == Err::<nat, Seq<char>>(SHORT_READ@) || number_at(
            b,
            flen,
            pos,
            n,
        ) == number_at(c, flen, pos, n),
{
    if pos + n <= b.len() {
        lemma_begins_part(c, b, pos, pos + n);
        lemma_le_window(b, pos, c, pos, n);
    }
}

proof fn lemma_string(b: Seq<u8>, c: Seq<u8>, flen: nat, pos: int)
    requires
        begins(c, b),
        0 <= pos,
    ensures
        string_at(b, flen, pos) == Err::<(Seq<char>, bool, int), Seq<char>>(SHORT_READ@)
            || string_at(b, flen, pos) == string_at(c, flen, pos),
        string_at(b, flen, pos) matches Ok((_, _, end)) ==> pos <= end,
{
    lemma_number(b, c, flen, pos, 8);
    if let Ok(len) = number_at(b, flen, pos, 8) {
        if pos + 8 + len <= b.len() {
            lemma_begins_part(c, b, pos + 8, pos + 8 + len);
        }
    }
}

proof fn lemma_value(
    b: Seq<u8>,
    c: Seq<u8>,
    flen: nat,
    pos: int,
    ty: u32,
    depth: int,
    limit: nat,
    probs: Seq<Seq<char>>,
)
    requires
        begins(c, b),
        0 <= pos,
    ensures
        value_at(b, flen, pos, ty, depth, limit, probs) == Err::<
            (Doc, int, Seq<Seq<char>>),
            Seq<char>,
        >(SHORT_READ@) || value_at(b, flen, pos, ty, depth, limit, probs) == value_at(
            c,
            flen,
            pos,
            ty,
            depth,
            limit,
            probs,
        ),
        value_at(b, flen, pos, ty, depth, limit, probs) matches Ok((_, end, _)) ==> pos <= end,
    decreases MAX_ARRAY_DEPTH - depth, 0nat,
{
    if ty == 8 {
        lemma_string(b, c, flen, pos);
    } else if ty == 9 {
        if depth < MAX_ARRAY_DEPTH {
            lemma_number(b, c, flen, pos, 4);
            lemma_number(b, c, flen, pos + 4, 8);
            if let Ok(elem) = number_at(b, flen, pos, 4) {
                if let Ok(count) = number_at(b, flen, pos + 4, 8) {
                    if pos + 12 + count * min_value_size(elem as u32) <= flen {
                        lemma_elements(
                            b,
                            c,
                            flen,
                            pos + 12,
                            elem as u32,
                            count,
                            depth + 1,
                            limit,
                            seq![],
                            probs,
                        );
                    }
                }
            }
        }
    } else {
        lemma_number(b, c, flen, pos, min_value_size(ty));
    }
}

proof fn lemma_elements(
    b: Seq<u8>,
    c: Seq<u8>,
    flen: nat,
    pos: int,
    elem: u32,
    k: nat,
    depth: int,
    limit: nat,
    items: Seq<Doc>,
    probs: Seq<Seq<char>>,
)
    requires
        begins(c, b),
        0 <= pos,
    ensures
        elements_from(b, flen, pos, elem, k, depth, limit, items, probs) == Err::<
            (Seq<Doc>, int, Seq<Seq<char>>),
            Seq<char>,
        >(SHORT_READ@) || elements_from(b, flen, pos, elem, k, depth, limit, items, probs)
            == elements_from(c, flen, pos, elem, k, depth, limit, items, probs),
        elements_from(b, flen, pos, elem, k, depth, limit, items, probs) matches Ok((_, end, _))
            ==> pos <= end,
    decreases MAX_ARRAY_DEPTH - depth, 1 + k,
{
    if k > 0 {
        lemma_value(b, c, flen, pos, elem, depth, limit, probs);
        if let Ok((v, end, ps)) = value_at(b, flen, pos, elem, depth, limit, probs) {
            lemma_elements(
                b,
                c,
                flen,
                end,
                elem,
                (k - 1) as nat,
                depth,
                limit,
                if items.len() < limit {
                    items.push(v)
                } else {
                    items
                },
                ps,
            );
        }
    }
}

proof fn lemma_entry(
    b: Seq<u8>,
    c: Seq<u8>,
    flen: nat,
    pos: int,
    limit: nat,
    meta: Seq<(Seq<char>, Doc)>,
    probs: Seq<Seq<char>>,
)
    requires
        begins(c, b),
        0 <= pos,
    ensures
        entry_at(b, flen, pos, limit, meta, probs) == Err::<
            (int, Seq<(Seq<char>, Doc)>, Seq<Seq<char>>),
            Seq<char>,
        >(SHORT_READ@) || entry_at(b, flen, pos, limit, meta, probs) == entry_at(
            c,
            flen,
            pos,
            limit,
            meta,
            probs,
        ),
        entry_at(b, flen, pos, limit, meta, probs) matches Ok((end, _, _)) ==> pos <= end,
{
    lemma_string(b, c, flen, pos);
    if let Ok((key, clean, p)) = string_at(b, flen, pos) {
        let unclean = if clean {
            probs
        } else {
            probs.push("metadata key '"@ + key + "' is not valid UTF-8"@)
        };
        let noted = if has_key(meta, key) {
            unclean.push("duplicate metadata key '"@ + key + "'"@)
        } else {
            unclean
        };
        lemma_number(b, c, flen, p, 4);
        if let Ok(ty) = number_at(b, flen, p, 4) {
            lemma_value(b, c, flen, p + 4, ty as u32, 0, limit, noted);
        }
    }
}

proof fn lemma_metadata(
    b: Seq<u8>,
    c: Seq<u8>,
    flen: nat,
    pos: int,
    k: nat,
    limit: nat,
    meta: Seq<(Seq<char>, Doc)>,
    probs: Seq<Seq<char>>,
)
    requires
        begins(c, b),
        0 <= pos,
    ensures
        metadata_from(b, flen, pos, k, limit, meta, probs) == Err::<
            (int, Seq<(Seq<char>, Doc)>, Seq<Seq<char>>),
            Seq<char>,
        >(SHORT_READ@) || metadata_from(b, flen, pos, k, limit, meta, probs) == metadata_from(
            c,
            flen,
            pos,
            k,
            limit,
            meta,
            probs,
        ),
        metadata_from(b, flen, pos, k, limit, meta, probs) matches Ok((end, _, _)) ==> pos <= end,
    decreases k,
{
    if k > 0 {
        lemma_entry(b, c, flen, pos, limit, meta, probs);
        if let Ok((end, m, ps)) = entry_at(b, flen, pos, limit, meta, probs) {
            lemma_metadata(b, c, flen, end, (k - 1) as nat, limit, m, ps);
        }
    }
}

proof fn lemma_dims(b: Seq<u8>, c: Seq<u8>, flen: nat, pos: int, k: nat, shape: Seq<u64>)
    requires
        begins(c, b),
        0 <= pos,
    ensures
        dims_from(b, flen, pos, k, shape) == Err::<(Seq<u64>, int), Seq<char>>(SHORT_READ@)
            || dims_from(b, flen, pos, k, shape) == dims_from(c, flen, pos, k, shape),
        dims_from(b, flen, pos, k, shape) matches Ok((_, end)) ==> pos <= end,
    decreases k,
{
    if k > 0 {
        lemma_number(b, c, flen, pos, 8);
        if let Ok(d) = number_at(b, flen, pos, 8) {
            lemma_dims(b, c, flen, pos + 8, (k - 1) as nat, shape.push(d as u64));
        }
    }
}

proof fn lemma_tensor(
    b: Seq<u8>,
    c: Seq<u8>,
    flen: nat,
    pos: int,
    i: nat,
    ts: Seq<TensorModel>,
    probs: Seq<Seq<char>>,
)
    requires
        begins(c, b),
        0 <= pos,
    ensures
        tensor_at(b, flen, pos, i, ts, probs) == Err::<
            (int, Seq<TensorModel>, Seq<Seq<char>>),
            Seq<char>,
        >(SHORT_READ@) || tensor_at(b, flen, pos, i, ts, probs) == tensor_at(
            c,
            flen,
            pos,
            i,
            ts,
            probs,
        ),
        tensor_at(b, flen, pos, i, ts, probs) matches Ok((end, _, _)) ==> pos <= end,
{
    lemma_string(b, c, flen, pos);
    if let Ok((name, clean, p)) = string_at(b, flen, pos) {
        lemma_number(b, c, flen, p, 4);
        if let Ok(n) = number_at(b, flen, p, 4) {
            if n <= MAX_DIMS {
                lemma_dims(b, c, flen, p + 4, n, seq![]);
                if let Ok((shape, q)) = dims_from(b, flen, p + 4, n, seq![]) {
                    lemma_number(b, c, flen, q, 4);
                    lemma_number(b, c, flen, q + 4, 8);
                }
            }
        }
    }
}

proof fn lemma_tensors(
    b: Seq<u8>,
    c: Seq<u8>,
    flen: nat,
    pos: int,
    i: nat,
    count: nat,
    ts: Seq<TensorModel>,
    probs: Seq<Seq<char>>,
)
    requires
        begins(c, b),
        0 <= pos,
    ensures
        tensors_from(b, flen, pos, i, count, ts, probs) == Err::<
            (int, Seq<TensorModel>, Seq<Seq<char>>),
            Seq<char>,
        >(SHORT_READ@) || tensors_from(b, flen, pos, i, count, ts, probs) == tensors_from(
            c,
            flen,
            pos,
            i,
            count,
            ts,
            probs,
        ),
    decreases count - i,
{
    if i < count {
        lemma_tensor(b, c, flen, pos, i, ts, probs);
        if let Ok((end, t, ps)) = tensor_at(b, flen, pos, i, ts, probs) {
            lemma_tensors(b, c, flen, end, i + 1, count, t, ps);
        }
    }
}

proof fn lemma_head(b: Seq<u8>, c: Seq<u8>, flen: nat)
    requires
        begins(c, b),
    ensures
        head_of(b, flen) == Err::<(nat, nat, nat), Seq<char>>(SHORT_READ@) || head_of(b, flen)
            == head_of(c, flen),
{
    if 4 <= b.len() {
        lemma_begins_part(c, b, 0, 4);
        assert(b.take(4) =~= c.take(4));
    }
    lemma_number(b, c, flen, 4, 4);
    lemma_number(b, c, flen, 8, 8);
    lemma_number(b, c, flen, 16, 8);
}

/// A prefix that does not run short decides: reading the beginning of a file
/// either runs out of bytes or gives the very result, report or error, that
/// reading more of the file gives. So a reader can begin with a small prefix
/// and double it until the answer is there.
pub proof fn law_prefix_decides(
    b: Seq<u8>,
    c: Seq<u8>,
    flen: nat,
    path: Seq<char>,
    limit: nat,
)
    requires
        begins(c, b),
    ensures
        parse_model(b, flen, path, limit) == Err::<ReportModel, Seq<char>>(SHORT_READ@)
            || parse_model(b, flen, path, limit) == parse_model(c, flen, path, limit),
{
    lemma_head(b, c, flen);
    if let Ok((version, tensors, keys)) = head_of(b, flen) {
        lemma_metadata(b, c, flen, 24, keys, limit, seq![], seq![]);
        if let Ok((p, meta, probs)) = metadata_from(b, flen, 24, keys, limit, seq![], seq![]) {
            lemma_tensors(
                b,
                c,
                flen,
                p,
                0,
                tensors,
                seq![],
                alignment_problems(meta, probs),
            );
        }
    }
}

// ---------------------------------------------------------------------------
// The header is enough
// ---------------------------------------------------------------------------

proof fn lemma_number_enough(b: Seq<u8>, c: Seq<u8>, flen: nat, pos: int, n: nat)
    requires
        begins(c, b),
        0 <= pos,
        pos + n <= b.len(),
    ensures
        number_at(b, flen, pos, n) == number_at(c, flen, pos, n),
{
    lemma_begins_part(c, b, pos, pos + n);
    lemma_le_window(b, pos, c, pos, n);
}

proof fn lemma_string_enough(b: Seq<u8>, c: Seq<u8>, flen: nat, pos: int)
    requires
        begins(c, b),
        0 <= pos,
        string_at(c, flen, pos) matches Ok((_, _, end)) && end <= b.len(),
    ensures
        string_at(b, flen, pos) == string_at(c, flen, pos),
{
    lemma_number_enough(b, c, flen, pos, 8);
    lemma_string(b, c, flen, pos);
}

/// A value ends at or after its start.
proof fn lemma_value_end(
    c: Seq<u8>,
    flen: nat,
    pos: int,
    ty: u32,
    depth: int,
    limit: nat,
    probs: Seq<Seq<char>>,
)
    requires
        0 <= pos,
    ensures
        value_at(c, flen, pos, ty, depth, limit, probs) matches Ok((_, end, _)) ==> pos <= end,
{
    assert(c.take(c.len() as int) =~= c);
    lemma_value(c, c, flen, pos, ty, depth, limit, probs);
}

proof fn lemma_value_enough(
    b: Seq<u8>,
    c: Seq<u8>,
    flen: nat,
    pos: int,
    ty: u32,
    depth: int,
    limit: nat,
    probs: Seq<Seq<char>>,
)
    requires
        begins(c, b),
        0 <= pos,
        value_at(c, flen, pos, ty, depth, limit, probs) matches Ok((_, end, _)) && end <= b.len(),
    ensures
        value_at(b, flen, pos, ty, depth, limit, probs) == value_at(
            c,
            flen,
            pos,
            ty,
            depth,
            limit,
            probs,
        ),
    decreases MAX_ARRAY_DEPTH - depth, 0nat,
{
    if ty == 8 {
        lemma_string_enough(b, c, flen, pos);
    } else if ty == 9 {
        let elem = number_at(c, flen, pos, 4)->Ok_0;
        let count = number_at(c, flen, pos + 4, 8)->Ok_0;
        assert(c.take(c.len() as int) =~= c);
        lemma_elements(
            c,
            c,
            flen,
            pos + 12,
            elem as u32,
            count,
            depth + 1,
            limit,
            seq![],
            probs,
        );
        lemma_number_enough(b, c, flen, pos, 4);
        lemma_number_enough(b, c, flen, pos + 4, 8);
        lemma_elements_enough(
            b,
            c,
            flen,
            pos + 12,
            elem as u32,
            count,
            depth + 1,
            limit,
            seq![],
            probs,
        );
    } else {
        lemma_number_enough(b, c, flen, pos, min_value_size(ty));
    }
}

proof fn lemma_elements_enough(
    b: Seq<u8>,
    c: Seq<u8>,
    flen: nat,
    pos: int,
    elem: u32,
    k: nat,
    depth: int,
    limit: nat,
    items: Seq<Doc>,
    probs: Seq<Seq<char>>,
)
    requires
        begins(c, b),
        0 <= pos,
        elements_from(c, flen, pos, elem, k, depth, limit, items, probs) matches Ok((_, end, _))
            && end <= b.len(),
    ensures
        elements_from(b, flen, pos, elem, k, depth, limit, items, probs) == elements_from(
            c,
            flen,
            pos,
            elem,
            k,
            depth,
            limit,
            items,
            probs,
        ),
    decreases MAX_ARRAY_DEPTH - depth, 1 + k,
{
    if k > 0 {
        let (v, end, ps) = value_at(c, flen, pos, elem, depth, limit, probs)->Ok_0;
        let more = if items.len() < limit {
            items.push(v)
        } else {
            items
        };
        lemma_value_end(c, flen, pos, elem, depth, limit, probs);
        assert(c.take(c.len() as int) =~= c);
        lemma_elements(c, c, flen, end, elem, (k - 1) as nat, depth, limit, more, ps);
        lemma_value_enough(b, c, flen, pos, elem, depth, limit, probs);
        lemma_elements_enough(b, c, flen, end, elem, (k - 1) as nat, depth, limit, more, ps);
    }
}

proof fn lemma_entry_enough(
    b: Seq<u8>,
    c: Seq<u8>,
    flen: nat,
    pos: int,
    limit: nat,
    meta: Seq<(Seq<char>, Doc)>,
    probs: Seq<Seq<char>>,
)
    requires
        begins(c, b),
        0 <= pos,
        entry_at(c, flen, pos, limit, meta, probs) matches Ok((end, _, _)) && end <= b.len(),
    ensures
        entry_at(b, flen, pos, limit, meta, probs) == entry_at(c, flen, pos, limit, meta, probs),
{
    let (key, clean, p) = string_at(c, flen, pos)->Ok_0;
    let unclean = if clean {
        probs
    } else {
        probs.push("metadata key '"@ + key + "' is not valid UTF-8"@)
    };
    let noted = if has_key(meta, key) {
        unclean.push("duplicate metadata key '"@ + key + "'"@)
    } else {
        unclean
    };
    assert(c.take(c.len() as int) =~= c);
    lemma_string(c, c, flen, pos);
    let ty = number_at(c, flen, p, 4)->Ok_0;
    lemma_value_end(c, flen, p + 4, ty as u32, 0, limit, noted);
    lemma_string_enough(b, c, flen, pos);
    lemma_number_enough(b, c, flen, p, 4);
    lemma_value_enough(b, c, flen, p + 4, ty as u32, 0, limit, noted);
}

proof fn lemma_metadata_enough(
    b: Seq<u8>,
    c: Seq<u8>,
    flen: nat,
    pos: int,
    k: nat,
    limit: nat,
    meta: Seq<(Seq<char>, Doc)>,
    probs: Seq<Seq<char>>,
)
    requires
        begins(c, b),
        0 <= pos,
        metadata_from(c, flen, pos, k, limit, meta, probs) matches Ok((end, _, _)) && end
            <= b.len(),
    ensures
        metadata_from(b, flen, pos, k, limit, meta, probs) == metadata_from(
            c,
            flen,
            pos,
            k,
            limit,
            meta,
            probs,
        ),
    decreases k,
{
    if k > 0 {
        let (end, m, ps) = entry_at(c, flen, pos, limit, meta, probs)->Ok_0;
        assert(c.take(c.len() as int) =~= c);
        lemma_entry(c, c, flen, pos, limit, meta, probs);
        lemma_metadata(c, c, flen, end, (k - 1) as nat, limit, m, ps);
        lemma_entry_enough(b, c, flen, pos, limit, meta, probs);
        lemma_metadata_enough(b, c, flen, end, (k - 1) as nat, limit, m, ps);
    }
}

proof fn lemma_dims_enough(b: Seq<u8>, c: Seq<u8>, flen: nat, pos: int, k: nat, shape: Seq<u64>)
    requires
        begins(c, b),
        0 <= pos,
        dims_from(c, flen, pos, k, shape) matches Ok((_, end)) && end <= b.len(),
    ensures
        dims_from(b, flen, pos, k, shape) == dims_from(c, flen, pos, k, shape),
    decreases k,
{
    if k > 0 {
        let d = number_at(c, flen, pos, 8)->Ok_0;
        assert(c.take(c.len() as int) =~= c);
        lemma_dims(c, c, flen, pos + 8, (k - 1) as nat, shape.push(d as u64));
        lemma_number_enough(b, c, flen, pos, 8);
        lemma_dims_enough(b, c, flen, pos + 8, (k - 1) as nat, shape.push(d as u64));
    }
}

proof fn lemma_tensor_enough(
    b: Seq<u8>,
    c: Seq<u8>,
    flen: nat,
    pos: int,
    i: nat,
    ts: Seq<TensorModel>,
    probs: Seq<Seq<char>>,
)
    requires
        begins(c, b),
        0 <= pos,
        tensor_at(c, flen, pos, i, ts, probs) matches Ok((end, _, _)) && end <= b.len(),
    ensures
        tensor_at(b, flen, pos, i, ts, probs) == tensor_at(c, flen, pos, i, ts, probs),
{
    let (name, clean, p) = string_at(c, flen, pos)->Ok_0;
    let n = number_at(c, flen, p, 4)->Ok_0;
    let (shape, q) = dims_from(c, flen, p + 4, n, seq![])->Ok_0;
    assert(c.take(c.len() as int) =~= c);
    lemma_string(c, c, flen, pos);
    lemma_dims(c, c, flen, p + 4, n, seq![]);
    lemma_string_enough(b, c, flen, pos);
    lemma_number_enough(b, c, flen, p, 4);
    lemma_dims_enough(b, c, flen, p + 4, n, seq![]);
    lemma_number_enough(b, c, flen, q, 4);
    lemma_number_enough(b, c, flen, q + 4, 8);
}

/// The table ends at or after its start.
proof fn lemma_tensors_end(
    c: Seq<u8>,
    flen: nat,
    pos: int,
    i: nat,
    count: nat,
    ts: Seq<TensorModel>,
    probs: Seq<Seq<char>>,
)
    requires
        0 <= pos,
    ensures
        tensors_from(c, flen, pos, i, count, ts, probs) matches Ok((end, _, _)) ==> pos <= end,
    decreases count - i,
{
    if i < count {
        assert(c.take(c.len() as int) =~= c);
        lemma_tensor(c, c, flen, pos, i, ts, probs);
        if let Ok((end, t, ps)) = tensor_at(c, flen, pos, i, ts, probs) {
            lemma_tensors_end(c, flen, end, i + 1, count, t, ps);
        }
    }
}

proof fn lemma_tensors_enough(
    b: Seq<u8>,
    c: Seq<u8>,
    flen: nat,
    pos: int,
    i: nat,
    count: nat,
    ts: Seq<TensorModel>,
    probs: Seq<Seq<char>>,
)
    requires
        begins(c, b),
        0 <= pos,
        tensors_from(c, flen, pos, i, count, ts, probs) matches Ok((end, _, _)) && end <= b.len(),
    ensures
        tensors_from(b, flen, pos, i, count, ts, probs) == tensors_from(
            c,
            flen,
            pos,
            i,
            count,
            ts,
            probs,
        ),
    decreases count - i,
{
    if i < count {
        let (end, t, ps) = tensor_at(c, flen, pos, i, ts, probs)->Ok_0;
        assert(c.take(c.len() as int) =~= c);
        lemma_tensor(c, c, flen, pos, i, ts, probs);
        lemma_tensors_end(c, flen, end, i + 1, count, t, ps);
        lemma_tensor_enough(b, c, flen, pos, i, ts, probs);
        lemma_tensors_enough(b, c, flen, end, i + 1, count, t, ps);
    }
}

/// Where the tensor table, and with it the header, ends in a file that can be
/// read.
pub open spec fn header_end(c: Seq<u8>, flen: nat, limit: nat) -> int {
    let (_, tensors, keys) = head_of(c, flen)->Ok_0;
    let (p, meta, probs) = metadata_from(c, flen, 24, keys, limit, seq![], seq![])->Ok_0;
    let (end, _, _) = tensors_from(
        c,
        flen,
        p,
        0,
        tensors,
        seq![],
        alignment_problems(meta, probs),
    )->Ok_0;
    end
}

proof fn lemma_head_enough(b: Seq<u8>, c: Seq<u8>, flen: nat)
    requires
        begins(c, b),
        24 <= b.len(),
    ensures
        head_of(b, flen) == head_of(c, flen),
{
    lemma_begins_part(c, b, 0, 4);
    assert(b.take(4) =~= c.take(4));
    lemma_number_enough(b, c, flen, 4, 4);
    lemma_number_enough(b, c, flen, 8, 8);
    lemma_number_enough(b, c, flen, 16, 8);
}

/// The header is enough: of a file that can be read, the bytes up to the end
/// of the tensor table give the very report that all of it gives. No tensor
/// data is needed.
pub proof fn law_header_is_enough(c: Seq<u8>, flen: nat, path: Seq<char>, limit: nat)
    requires
        parse_model(c, flen, path, limit) is Ok,
    ensures
        24 <= header_end(c, flen, limit) <= c.len(),
        parse_model(c.take(header_end(c, flen, limit)), flen, path, limit) == parse_model(
            c,
            flen,
            path,
            limit,
        ),
{
    let (version, tensors, keys) = head_of(c, flen)->Ok_0;
    let (p, meta, probs) = metadata_from(c, flen, 24, keys, limit, seq![], seq![])->Ok_0;
    let ps = alignment_problems(meta, probs);
    let end = header_end(c, flen, limit);
    assert(c.take(c.len() as int) =~= c);
    lemma_metadata(c, c, flen, 24, keys, limit, seq![], seq![]);
    lemma_tensors_end(c, flen, p, 0, tensors, seq![], ps);
    lemma_metadata_inside(c, flen, 24, keys, limit, seq![], seq![]);
    lemma_tensors_inside(c, flen, p, 0, tensors, seq![], ps);
    let b = c.take(end);
    assert(begins(c, b));
    lemma_head_enough(b, c, flen);
    lemma_metadata_enough(b, c, flen, 24, keys, limit, seq![], seq![]);
    lemma_tensors_enough(b, c, flen, p, 0, tensors, seq![], ps);
}

/// What was read of an array lies inside the bytes at hand.
proof fn lemma_value_inside(
    c: Seq<u8>,
    flen: nat,
    pos: int,
    ty: u32,
    depth: int,
    limit: nat,
    probs: Seq<Seq<char>>,
)
    requires
        0 <= pos <= c.len(),
    ensures
        value_at(c, flen, pos, ty, depth, limit, probs) matches Ok((_, end, _)) ==> end <= c.len(),
    decreases MAX_ARRAY_DEPTH - depth, 0nat,
{
    if ty == 9 && depth < MAX_ARRAY_DEPTH {
        if let Ok(elem) = number_at(c, flen, pos, 4) {
            if let Ok(count) = number_at(c, flen, pos + 4, 8) {
                lemma_elements_inside(
                    c,
                    flen,
                    pos + 12,
                    elem as u32,
                    count,
                    depth + 1,
                    limit,
                    seq![],
                    probs,
                );
            }
        }
    }
}

proof fn lemma_elements_inside(
    c: Seq<u8>,
    flen: nat,
    pos: int,
    elem: u32,
    k: nat,
    depth: int,
    limit: nat,
    items: Seq<Doc>,
    probs: Seq<Seq<char>>,
)
    requires
        0 <= pos <= c.len(),
    ensures
        elements_from(c, flen, pos, elem, k, depth, limit, items, probs) matches Ok((_, end, _))
            ==> end <= c.len(),
    decreases MAX_ARRAY_DEPTH - depth, 1 + k,
{
    if k > 0 {
        lemma_value_inside(c, flen, pos, elem, depth, limit, probs);
        lemma_value_end(c, flen, pos, elem, depth, limit, probs);
        if let Ok((v, end, ps)) = value_at(c, flen, pos, elem, depth, limit, probs) {
            lemma_elements_inside(
                c,
                flen,
                end,
                elem,
                (k - 1) as nat,
                depth,
                limit,
                if items.len() < limit {
                    items.push(v)
                } else {
                    items
                },
                ps,
            );
        }
    }
}

proof fn lemma_metadata_inside(
    c: Seq<u8>,
    flen: nat,
    pos: int,
    k: nat,
    limit: nat,
    meta: Seq<(Seq<char>, Doc)>,
    probs: Seq<Seq<char>>,
)
    requires
        0 <= pos <= c.len(),
    ensures
        metadata_from(c, flen, pos, k, limit, meta, probs) matches Ok((end, _, _)) ==> end
            <= c.len(),
    decreases k,
{
    if k > 0 {
        if let Ok((end, m, ps)) = entry_at(c, flen, pos, limit, meta, probs) {
            let (key, clean, p) = string_at(c, flen, pos)->Ok_0;
            let unclean = if clean {
                probs
            } else {
                probs.push("metadata key '"@ + key + "' is not valid UTF-8"@)
            };
            let noted = if has_key(meta, key) {
                unclean.push("duplicate metadata key '"@ + key + "'"@)
            } else {
                unclean
            };
            let ty = number_at(c, flen, p, 4)->Ok_0;
            lemma_value_inside(c, flen, p + 4, ty as u32, 0, limit, noted);
            lemma_value_end(c, flen, p + 4, ty as u32, 0, limit, noted);
            lemma_metadata_inside(c, flen, end, (k - 1) as nat, limit, m, ps);
        }
    }
}

proof fn lemma_tensors_inside(
    c: Seq<u8>,
    flen: nat,
    pos: int,
    i: nat,
    count: nat,
    ts: Seq<TensorModel>,
    probs: Seq<Seq<char>>,
)
    requires
        0 <= pos <= c.len(),
    ensures
        tensors_from(c, flen, pos, i, count, ts, probs) matches Ok((end, _, _)) ==> end <= c.len(),
    decreases count - i,
{
    if i < count {
        assert(c.take(c.len() as int) =~= c);
        lemma_tensor(c, c, flen, pos, i, ts, probs);
        if let Ok((end, t, ps)) = tensor_at(c, flen, pos, i, ts, probs) {
            lemma_tensors_inside(c, flen, end, i + 1, count, t, ps);
        }
    }
}

} // verus!
