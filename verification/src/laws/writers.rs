//! The writers write what the formats ask for.

use vstd::prelude::*;
use vstd::utf8::*;
use crate::builder::{alignment_after, archive, central_record, central_records, crc_of, elem_bytes, eocd_record, gguf_bytes, gguf_end, gguf_file, gguf_header, gguf_start, local_record, npy_padded, npz_body, npz_entries, numel64, padding, st_file, st_header, st_header_bytes, st_known, st_total, GgufTensor, GvModel, NpzMember, StTensor, ZipEntryModel};
use crate::bytes::{le_bytes, lemma_le_bytes_len, zeros};
use crate::gguf::{ceil_div, ggml_type, is_power_of_two};
use crate::json::{written, Doc};
use crate::laws::arrays::lemma_numel64_product;
use crate::laws::zip::{all_fit, archive_bytes, directory_bytes, end_bytes, extra_bytes, field, listed_bytes, listed_extra, listed_fits, local_bytes, mark, Listed};
use crate::npz::Sizes;
use crate::report::product;

verus! {

// ---------------------------------------------------------------------------
// ZIP archives
// ---------------------------------------------------------------------------

proof fn lemma_marks()
    ensures
        le_bytes(0x0403_4b50, 4) == mark(3, 4),
        le_bytes(0x0201_4b50, 4) == mark(1, 2),
        le_bytes(0x0605_4b50, 4) == mark(5, 6),
{
    reveal_with_fuel(le_bytes, 5);
    assert(le_bytes(0x0403_4b50, 4) =~= mark(3, 4));
    assert(le_bytes(0x0201_4b50, 4) =~= mark(1, 2));
    assert(le_bytes(0x0605_4b50, 4) =~= mark(5, 6));
}

proof fn lemma_zero_fields()
    ensures
        zeros(2) == field(0, 2),
        zeros(4) == field(0, 4),
{
    reveal_with_fuel(le_bytes, 5);
    assert(zeros(2) =~= field(0, 2));
    assert(zeros(4) =~= field(0, 4));
}

/// What stands in a local record between its mark and the length of the name:
/// the version that is needed, no flags, the method, no time, the checksum and
/// the two sizes.
pub open spec fn local_fixed(method: nat, crc: nat, comp: nat, uncomp: nat) -> Seq<u8> {
    field(20, 2) + field(0, 2) + field(method, 2) + field(0, 4) + field(crc, 4) + field(comp, 4)
        + field(uncomp, 4)
}

/// A member is written as a local record and its payload.
pub proof fn law_local_records_are_written(
    name: Seq<char>,
    method: nat,
    crc: nat,
    uncomp: nat,
    payload: Seq<u8>,
)
    ensures
        local_record(name, method, crc, uncomp, payload) == local_bytes(
            local_fixed(method, crc, payload.len(), uncomp),
            encode_utf8(name),
            Seq::empty(),
        ) + payload,
        local_fixed(method, crc, payload.len(), uncomp).len() == 22,
{
    lemma_marks();
    lemma_zero_fields();
    lemma_le_bytes_len(20, 2);
    lemma_le_bytes_len(0, 2);
    lemma_le_bytes_len(0, 4);
    lemma_le_bytes_len(method, 2);
    lemma_le_bytes_len(crc, 4);
    lemma_le_bytes_len(payload.len(), 4);
    lemma_le_bytes_len(uncomp, 4);
    let n = encode_utf8(name);
    let none = Seq::<u8>::empty();
    let f = local_fixed(method, crc, payload.len(), uncomp);
    let a = mark(3, 4) + f;
    let b = field(n.len(), 2);
    let c = field(0, 2);
    assert(local_record(name, method, crc, uncomp, payload) =~= a + b + c + n + payload);
    assert(n + none =~= n);
    assert(local_bytes(f, n, none) =~= a + b + c + n);
}

/// The entry of a member in the directory: version 3.20 on one side and 2.0 on
/// the other, no time, the checksum, no attributes and no comment.
pub open spec fn listed_of(e: ZipEntryModel) -> Listed {
    Listed {
        versions: field(0x0314, 2) + field(20, 2),
        flags: e.flags as u16,
        method: e.method as u16,
        stamps: field(0, 4) + field(e.crc, 4),
        sizes: Sizes { uncomp: e.uncomp_size, comp: e.comp_size, local: e.local_offset },
        attributes: zeros(8),
        name: e.name,
        before: Seq::empty(),
        large: false,
        more: Seq::empty(),
        after: Seq::empty(),
        comment: Seq::empty(),
    }
}

pub open spec fn small_entry(e: ZipEntryModel) -> bool {
    &&& e.flags <= u16::MAX
    &&& e.method <= u16::MAX
    &&& e.uncomp_size < 0xffff_ffff
    &&& e.comp_size < 0xffff_ffff
    &&& e.local_offset < 0xffff_ffff
    &&& encode_utf8(e.name).len() <= u16::MAX
}

/// The directory lists each member so.
pub proof fn law_directory_records_are_written(e: ZipEntryModel)
    requires
        small_entry(e),
    ensures
        central_record(e, false) == listed_bytes(listed_of(e)),
        listed_fits(listed_of(e)),
{
    lemma_marks();
    lemma_zero_fields();
    let x = listed_of(e);
    let none = Seq::<u8>::empty();
    lemma_le_bytes_len(0x0314, 2);
    lemma_le_bytes_len(20, 2);
    lemma_le_bytes_len(0, 4);
    lemma_le_bytes_len(e.crc, 4);
    assert(extra_bytes(Seq::empty()) =~= none);
    assert(listed_extra(x) =~= none);
    let n = encode_utf8(e.name);
    let a = mark(1, 2) + x.versions + field(e.flags, 2) + field(e.method, 2) + x.stamps;
    let b = field(e.comp_size, 4) + field(e.uncomp_size, 4) + field(n.len(), 2);
    let c = field(0, 2) + field(0, 2) + zeros(8) + field(e.local_offset, 4) + n;
    assert(central_record(e, false) =~= a + b + c);
    assert(n + (none + none) =~= n);
    assert(listed_bytes(x) =~= a + b + c);
}

proof fn lemma_directory(es: Seq<ZipEntryModel>, n: nat)
    requires
        n <= es.len(),
        forall|i: int| 0 <= i < es.len() ==> small_entry(#[trigger] es[i]),
    ensures
        central_records(es, n, false) == directory_bytes(
            es.take(n as int).map_values(|e: ZipEntryModel| listed_of(e)),
        ),
    decreases n,
{
    let f = |e: ZipEntryModel| listed_of(e);
    let xs = es.take(n as int).map_values(f);
    if n == 0 {
        assert(xs =~= seq![]);
    } else {
        lemma_directory(es, (n - 1) as nat);
        let ys = es.take(n - 1).map_values(f);
        assert(xs =~= ys.push(listed_of(es[n - 1])));
        law_directory_records_are_written(es[n - 1]);
        lemma_directory_push(ys, listed_of(es[n - 1]));
    }
}

proof fn lemma_directory_push(ys: Seq<Listed>, x: Listed)
    ensures
        directory_bytes(ys.push(x)) == directory_bytes(ys) + listed_bytes(x),
    decreases ys.len(),
{
    let all = ys.push(x);
    if ys.len() == 0 {
        assert(all.skip(1) =~= seq![]);
        assert(all[0] == x);
        assert(directory_bytes(all.skip(1)) =~= seq![]);
        assert(directory_bytes(all) =~= listed_bytes(x));
        assert(directory_bytes(ys) + listed_bytes(x) =~= listed_bytes(x));
    } else {
        assert(all.skip(1) =~= ys.skip(1).push(x));
        assert(all[0] == ys[0]);
        lemma_directory_push(ys.skip(1), x);
        assert(directory_bytes(all) =~= directory_bytes(ys) + listed_bytes(x));
    }
}

/// A whole archive: the members, the directory and the record at the end, with
/// the number of entries twice and no comment.
pub proof fn law_archives_are_written(buf: Seq<u8>, es: Seq<ZipEntryModel>)
    requires
        forall|i: int| 0 <= i < es.len() ==> small_entry(#[trigger] es[i]),
    ensures
        archive(buf, es, false) == archive_bytes(
            buf,
            es.map_values(|e: ZipEntryModel| listed_of(e)),
            Seq::empty(),
            field(0, 4) + field(es.len(), 2),
            Seq::empty(),
        ),
        all_fit(es.map_values(|e: ZipEntryModel| listed_of(e))),
{
    let f = |e: ZipEntryModel| listed_of(e);
    let xs = es.map_values(f);
    assert forall|i: int| 0 <= i < xs.len() implies listed_fits(#[trigger] xs[i]) by {
        assert(small_entry(es[i]));
        law_directory_records_are_written(es[i]);
    }
    assert(es.take(es.len() as int) =~= es);
    lemma_directory(es, es.len());
    lemma_marks();
    lemma_zero_fields();
    let cd = directory_bytes(xs);
    let none = Seq::<u8>::empty();
    let end = end_bytes(
        field(0, 4) + field(es.len(), 2),
        es.len(),
        cd.len(),
        buf.len(),
        none,
    );
    assert(field(0, 2) + none =~= field(0, 2));
    assert(eocd_record(es.len(), cd.len(), buf.len(), false) =~= end);
    assert(none + end =~= end);
    assert(archive(buf, es, false) =~= buf + (cd + (none + end)));
}

/// The directory of a written npz archive names each member with its method,
/// the checksum of its data, its sizes and where it starts.
pub proof fn law_members_are_entered(ms: Seq<NpzMember>, n: nat, i: int)
    requires
        0 <= i < n <= ms.len(),
    ensures
        npz_entries(ms, n).len() == n,
        npz_entries(ms, n)[i].name == ms[i].name,
        npz_entries(ms, n)[i].crc == crc_of(ms[i].data),
        npz_entries(ms, n)[i].uncomp_size == ms[i].data.len(),
        npz_entries(ms, n)[i].local_offset == npz_body(ms, i as nat).len(),
        !ms[i].deflate ==> npz_entries(ms, n)[i].method == 0 && npz_entries(ms, n)[i].comp_size
            == ms[i].data.len(),
        ms[i].deflate ==> npz_entries(ms, n)[i].method == 8,
        npz_entries(ms, n)[i].flags == 0,
    decreases n,
{
    lemma_entries_len(ms, (n - 1) as nat);
    if i < n - 1 {
        law_members_are_entered(ms, (n - 1) as nat, i);
    }
}

proof fn lemma_entries_len(ms: Seq<NpzMember>, n: nat)
    requires
        n <= ms.len(),
    ensures
        npz_entries(ms, n).len() == n,
    decreases n,
{
    if n > 0 {
        lemma_entries_len(ms, (n - 1) as nat);
    }
}

/// Padding reaches the next boundary, and no further.
pub proof fn law_padding_reaches_boundary(n: nat, a: nat)
    requires
        a > 0,
    ensures
        (n + padding(n, a)) % a == 0,
        padding(n, a) < a,
{
    if n % a != 0 {
        vstd::arithmetic::div_mod::lemma_fundamental_div_mod(n as int, a as int);
        vstd::arithmetic::div_mod::lemma_mod_bound(n as int, a as int);
        let q = n / a;
        assert(n + padding(n, a) == a * q + a);
        assert(a * q + a == (q + 1) * a) by (nonlinear_arith);
        vstd::arithmetic::div_mod::lemma_mod_multiples_basic((q + 1) as int, a as int);
    }
}

// ---------------------------------------------------------------------------
// Checkpoints and models
// ---------------------------------------------------------------------------

/// The tensors of a written safetensors file lie one right behind the other,
/// from the start of the data.
pub proof fn law_tensors_back_to_back(ts: Seq<StTensor>, n: nat)
    requires
        n < ts.len(),
        st_known(ts[n as int]),
    ensures
        st_total(ts, 0) == 0,
        st_total(ts, n + 1) == st_total(ts, n) + product(ts[n as int].shape) * elem_bytes(
            ts[n as int].dtype,
        )->0,
{
    lemma_numel64_product(ts[n as int].shape);
}

/// How many bytes an element takes that is written.
pub proof fn law_written_element_sizes()
    ensures
        elem_bytes("F64"@) == Some(8nat),
        elem_bytes("F32"@) == Some(4nat),
        elem_bytes("F16"@) == Some(2nat),
        elem_bytes("BF16"@) == Some(2nat),
        elem_bytes("I64"@) == Some(8nat),
        elem_bytes("I32"@) == Some(4nat),
        elem_bytes("U8"@) == Some(1nat),
        elem_bytes("BOOL"@) == Some(1nat),
{
    reveal_strlit("F64");
    reveal_strlit("I64");
    reveal_strlit("U64");
    reveal_strlit("F32");
    reveal_strlit("I32");
    reveal_strlit("U32");
    reveal_strlit("F16");
    reveal_strlit("BF16");
    reveal_strlit("I16");
    reveal_strlit("U16");
    reveal_strlit("F8_E4M3");
    reveal_strlit("F8_E5M2");
    reveal_strlit("I8");
    reveal_strlit("U8");
    reveal_strlit("BOOL");
    assert("F64"@[1] == '6' && "I64"@[1] == '6' && "U64"@[1] == '6' && "F32"@[1] == '3' && "I32"@[1]
        == '3' && "U32"@[1] == '3' && "F16"@[1] == '1' && "I16"@[1] == '1' && "U16"@[1] == '1');
    assert("F64"@[0] == 'F' && "I64"@[0] == 'I' && "U64"@[0] == 'U' && "F32"@[0] == 'F' && "I32"@[0]
        == 'I' && "U32"@[0] == 'U' && "F16"@[0] == 'F' && "I16"@[0] == 'I' && "U16"@[0] == 'U');
    assert("BF16"@.len() == 4 && "BOOL"@.len() == 4 && "BF16"@[1] == 'F' && "BOOL"@[1] == 'O');
    assert("I8"@.len() == 2 && "U8"@.len() == 2 && "I8"@[0] == 'I' && "U8"@[0] == 'U');
    assert("F8_E4M3"@.len() == 7 && "F8_E5M2"@.len() == 7);
}

/// The tensors of a written GGUF file start at multiples of the alignment, each
/// at the first behind the one before.
pub proof fn law_tensors_are_placed(ts: Seq<GgufTensor>, i: nat, a: nat)
    requires
        a > 0,
        i < ts.len(),
    ensures
        gguf_start(ts, 0, a) == 0,
        gguf_start(ts, i, a) % a == 0,
        gguf_end(ts, i + 1, a) == gguf_start(ts, i, a) + gguf_bytes(ts[i as int]),
        gguf_end(ts, i, a) <= gguf_start(ts, i, a) < gguf_end(ts, i, a) + a,
{
    lemma_rounded_up(gguf_end(ts, i, a), a);
    lemma_rounded_up(0, a);
    assert(gguf_end(ts, 0, a) == 0);
    assert(ceil_div(0, a) == 0) by {
        vstd::arithmetic::div_mod::lemma_basic_div((a - 1) as int, a as int);
    }
}

proof fn lemma_rounded_up(x: nat, a: nat)
    requires
        a > 0,
    ensures
        (ceil_div(x, a) * a) % a == 0,
        x <= ceil_div(x, a) * a < x + a,
{
    let n = (x + a - 1) as nat;
    let q = n / a;
    vstd::arithmetic::div_mod::lemma_fundamental_div_mod(n as int, a as int);
    vstd::arithmetic::div_mod::lemma_mod_bound(n as int, a as int);
    assert(a * q == q * a) by (nonlinear_arith);
    vstd::arithmetic::div_mod::lemma_mod_multiples_basic(q as int, a as int);
}

/// A written tensor takes the bytes of its blocks.
pub proof fn law_written_blocks(t: GgufTensor, len: nat, bytes: nat, dtype: Seq<char>, n: nat)
    requires
        ggml_type(t.id) == Some((dtype, len, bytes)),
        len > 0,
        numel64(t.shape) is Some,
        product(t.shape) <= len * n < product(t.shape) + len,
    ensures
        gguf_bytes(t) == n * bytes,
{
    lemma_numel64_product(t.shape);
    let e = product(t.shape);
    assert(len * n == n * len) by (nonlinear_arith);
    vstd::arithmetic::div_mod::lemma_fundamental_div_mod_converse(
        (e + len - 1) as int,
        len as int,
        n as int,
        e + len - 1 - len * n,
    );
}

/// The alignment changes only with the entry that is kept for it, and only to a
/// power of two.
pub proof fn law_alignment_of_writer(before: u64, key: Seq<char>, v: GvModel, a: u32)
    ensures
        key != "general.alignment"@ ==> alignment_after(before, key, v) == before,
        alignment_after(before, "general.alignment"@, GvModel::U32(a)) == (if is_power_of_two(
            a as nat,
        ) {
            a as u64
        } else {
            before
        }),
        !(v is U32) ==> alignment_after(before, key, v) == before,
{
}

// ---------------------------------------------------------------------------
// What fills the files
// ---------------------------------------------------------------------------

/// Nothing but the byte `c` from `from` on.
pub open spec fn filled(s: Seq<u8>, from: nat, c: u8) -> bool {
    from <= s.len() && forall|i: int| from <= i < s.len() ==> #[trigger] s[i] == c
}

/// The data that are written are zero, and there are as many as the header
/// says.
pub proof fn law_data_are_zero(
    ts: Seq<StTensor>,
    metadata: Seq<(Seq<char>, Doc)>,
    kvs: Seq<(Seq<char>, GvModel)>,
    gs: Seq<GgufTensor>,
    a: nat,
)
    ensures
        filled(st_file(ts, metadata), 8 + st_header_bytes(ts, metadata).len(), 0),
        filled(gguf_file(kvs, gs, a), gguf_header(kvs, gs, a).len(), 0),
        gguf_file(kvs, gs, a).take(gguf_header(kvs, gs, a).len() as int) == gguf_header(kvs, gs, a),
{
    let h = st_header_bytes(ts, metadata);
    lemma_le_bytes_len(h.len(), 8);
    let g = gguf_header(kvs, gs, a);
    assert(gguf_file(kvs, gs, a).take(g.len() as int) =~= g);
}

/// A safetensors header is JSON and blanks behind it.
pub proof fn law_header_is_padded_with_blanks(
    ts: Seq<StTensor>,
    metadata: Seq<(Seq<char>, Doc)>,
)
    ensures
        ({
            let text = encode_utf8(written(st_header(ts, metadata), None));
            let h = st_header_bytes(ts, metadata);
            &&& h.len() % 8 == 0
            &&& text.len() <= h.len() < text.len() + 8
            &&& h.take(text.len() as int) == text
            &&& filled(h, text.len(), 0x20)
        }),
{
    let text = encode_utf8(written(st_header(ts, metadata), None));
    law_padding_reaches_boundary(text.len(), 8);
    assert(st_header_bytes(ts, metadata).take(text.len() as int) =~= text);
}

/// An npy dictionary is padded with blanks and ends its line, so that the data
/// start at a multiple of 64.
pub proof fn law_dictionary_is_padded(dict: Seq<u8>, base: nat)
    ensures
        ({
            let h = npy_padded(dict, base);
            &&& (base + h.len()) % 64 == 0
            &&& dict.len() < h.len() <= dict.len() + 64
            &&& h.take(dict.len() as int) == dict
            &&& h.last() == 0x0a
            &&& filled(h.drop_last(), dict.len(), 0x20)
        }),
{
    let h = npy_padded(dict, base);
    law_padding_reaches_boundary(base + dict.len() + 1, 64);
    assert(h.take(dict.len() as int) =~= dict);
}

} // verus!
