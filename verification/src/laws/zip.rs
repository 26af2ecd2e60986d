//! How the records of a ZIP archive are found and read, whoever wrote them:
//! with names, extra fields and comments of any length.

use vstd::prelude::*;
use vstd::utf8::*;
use crate::bytes::{le, le_bytes, lemma_le_bytes_len, lemma_le_round_trip, lemma_le_window, pow256};
use crate::inflate::inflated;
use crate::laws::arrays::law_header_is_enough;
use crate::laws::deflate::law_smaller_budget_gives_prefix;
use crate::laws::layout::{lemma_occurs_index, lemma_occurs_part, lemma_occurs_split, occurs};
use crate::laws::lz77::{has_bits, law_stream_is_undone, stream_bits, stream_data, stream_sound, Block};
use crate::npy::header_model;
use crate::npz::{after_directory, declared, directory_error, empty_tally, entries_from, entry_at, eocd_before, eocd_in, in_memory, is_eocd, member_header, members_from, needs_zip64, parse_model, report_of, scan_len, sizes_from, wanted, widen_sizes, Directory, MemberModel, Sizes};
use crate::report::ReportModel;

verus! {

/// A field of two, four or eight bytes, lowest first.
pub open spec fn field(x: nat, n: nat) -> Seq<u8> {
    le_bytes(x, n)
}

proof fn lemma_read(b: Seq<u8>, pos: int, x: nat, n: nat)
    requires
        occurs(b, pos, field(x, n)),
        n == 2 || n == 4 || n == 8,
        n == 2 ==> x <= u16::MAX,
        n == 4 ==> x <= u32::MAX,
        n == 8 ==> x <= u64::MAX,
    ensures
        field(x, n).len() == n,
        le(b, pos, n) == x,
{
    assert(pow256(2) == 0x1_0000 && pow256(4) == 0x1_0000_0000 && pow256(8)
        == 0x1_0000_0000_0000_0000) by {
        reveal_with_fuel(pow256, 9);
    }
    lemma_le_bytes_len(x, n);
    lemma_le_round_trip(b, pos, x, n);
}

proof fn lemma_widths(x: nat)
    ensures
        field(x, 2).len() == 2,
        field(x, 4).len() == 4,
        field(x, 8).len() == 8,
{
    lemma_le_bytes_len(x, 2);
    lemma_le_bytes_len(x, 4);
    lemma_le_bytes_len(x, 8);
}

proof fn lemma_window(b: Seq<u8>, start: int, end: int, k: int, n: nat)
    requires
        0 <= start <= end <= b.len(),
        0 <= k,
        start + k + n <= end,
    ensures
        le(b.subrange(start, end), k, n) == le(b, start + k, n),
{
    let w = b.subrange(start, end);
    assert(w.subrange(k, k + n) =~= b.subrange(start + k, start + k + n));
    lemma_le_window(w, k, b, start + k, n);
}

/// Four bytes that mark a record: `P`, `K` and two more.
pub open spec fn mark(x: u8, y: u8) -> Seq<u8> {
    seq![0x50, 0x4b, x, y]
}

proof fn lemma_mark(b: Seq<u8>, pos: int, x: u8, y: u8)
    requires
        occurs(b, pos, mark(x, y)),
    ensures
        le(b, pos, 4) == 0x4b50 + 0x1_0000 * x + 0x100_0000 * y,
{
    reveal_with_fuel(le, 5);
    lemma_occurs_index(b, pos, mark(x, y), 0);
    lemma_occurs_index(b, pos, mark(x, y), 1);
    lemma_occurs_index(b, pos, mark(x, y), 2);
    lemma_occurs_index(b, pos, mark(x, y), 3);
    assert(pos + 1 + 1 == pos + 2);
    assert(pos + 1 + 1 + 1 == pos + 3);
}

// ---------------------------------------------------------------------------
// Local records
// ---------------------------------------------------------------------------

/// A local record: its mark, 22 bytes of what does not matter here, the lengths
/// of the name and of the extra field, and these two.
pub open spec fn local_bytes(fixed: Seq<u8>, name: Seq<u8>, extra: Seq<u8>) -> Seq<u8> {
    mark(3, 4) + (fixed + (field(name.len(), 2) + (field(extra.len(), 2) + (name + extra))))
}

/// A member stands in the archive `b`: a local record, and the payload.
pub open spec fn stands(
    b: Seq<u8>,
    m: MemberModel,
    fixed: Seq<u8>,
    name: Seq<u8>,
    extra: Seq<u8>,
    payload: Seq<u8>,
) -> bool {
    &&& fixed.len() == 22
    &&& name.len() <= 65535
    &&& extra.len() <= 65535
    &&& m.comp_size == payload.len()
    &&& b.len() <= u64::MAX
    &&& occurs(b, m.local_offset as int, local_bytes(fixed, name, extra))
    &&& occurs(b, m.local_offset as int + 30 + name.len() + extra.len(), payload)
}

/// What of a member is looked at: no more than a header can take, and no more
/// than the member has, but enough for the start of one.
pub open spec fn looked_at(m: MemberModel) -> nat {
    if m.uncomp_size > 65548 {
        65548
    } else if m.uncomp_size < 12 {
        12
    } else {
        m.uncomp_size
    }
}

pub open spec fn at_most(n: nat, k: nat) -> nat {
    if n <= k {
        n
    } else {
        k
    }
}

proof fn lemma_local(
    b: Seq<u8>,
    m: MemberModel,
    fixed: Seq<u8>,
    name: Seq<u8>,
    extra: Seq<u8>,
    payload: Seq<u8>,
)
    requires
        stands(b, m, fixed, name, extra, payload),
    ensures
        m.local_offset + 30 <= b.len(),
        ({
            let lh = b.subrange(m.local_offset as int, m.local_offset as int + 30);
            &&& le(lh, 0, 4) == 0x0403_4b50
            &&& le(lh, 26, 2) == name.len()
            &&& le(lh, 28, 2) == extra.len()
        }),
{
    let at = m.local_offset as int;
    let x1 = mark(3, 4);
    let x3 = field(name.len(), 2);
    let x4 = field(extra.len(), 2);
    let x5 = name + extra;
    lemma_widths(name.len());
    lemma_widths(extra.len());
    lemma_occurs_split(b, at, x1, fixed + (x3 + (x4 + x5)));
    lemma_occurs_split(b, at + 4, fixed, x3 + (x4 + x5));
    lemma_occurs_split(b, at + 26, x3, x4 + x5);
    lemma_occurs_split(b, at + 28, x4, x5);
    lemma_mark(b, at, 3, 4);
    lemma_read(b, at + 26, name.len(), 2);
    lemma_read(b, at + 28, extra.len(), 2);
    lemma_window(b, at, at + 30, 0, 4);
    lemma_window(b, at, at + 30, 26, 2);
    lemma_window(b, at, at + 30, 28, 2);
}

/// The payload of a member starts right behind the name and the extra field of
/// its local record, however long these are: what is read of a stored member is
/// the header at the start of its payload.
pub proof fn law_stored_member_is_found(
    b: Seq<u8>,
    m: MemberModel,
    fixed: Seq<u8>,
    name: Seq<u8>,
    extra: Seq<u8>,
    payload: Seq<u8>,
)
    requires
        stands(b, m, fixed, name, extra, payload),
        m.method == 0,
    ensures
        member_header(in_memory(b), b.len(), m) == header_model(
            payload.take(at_most(looked_at(m), payload.len()) as int),
        ),
{
    lemma_local(b, m, fixed, name, extra, payload);
    let at = m.local_offset as int + 30 + name.len() + extra.len();
    let n = at_most(looked_at(m), payload.len());
    assert(wanted(m) == looked_at(m));
    lemma_occurs_part(b, at, payload, 0, n as int);
    assert(payload.subrange(0, n as int) =~= payload.take(n as int));
    assert(b.subrange(at, at + n) == payload.take(n as int));
    assert(payload.take(0) =~= seq![]);
}

/// So a stored member whose header is in order is read as what it holds.
pub proof fn law_stored_member_is_read(
    b: Seq<u8>,
    m: MemberModel,
    fixed: Seq<u8>,
    name: Seq<u8>,
    extra: Seq<u8>,
    payload: Seq<u8>,
)
    requires
        stands(b, m, fixed, name, extra, payload),
        m.method == 0,
        m.uncomp_size == payload.len(),
        header_model(payload) matches Ok(h) && h.header_total <= 65548 && h.header_total
            <= payload.len(),
    ensures
        member_header(in_memory(b), b.len(), m) == header_model(payload),
{
    law_stored_member_is_found(b, m, fixed, name, extra, payload);
    let n = at_most(looked_at(m), payload.len());
    let t = header_model(payload)->Ok_0.header_total as int;
    let part = payload.take(n as int);
    assert(payload.take(t) =~= part.take(t));
    law_header_is_enough(payload, part);
}

/// A compressed member is read as what its stream inflates to.
pub proof fn law_deflated_member_is_read(
    b: Seq<u8>,
    m: MemberModel,
    fixed: Seq<u8>,
    name: Seq<u8>,
    extra: Seq<u8>,
    payload: Seq<u8>,
    max: nat,
    d: Seq<u8>,
)
    requires
        stands(b, m, fixed, name, extra, payload),
        m.method == 8,
        payload.len() <= 4194304,
        max >= 65548,
        inflated(payload, max) == Ok::<(Seq<u8>, bool), Seq<char>>((d, true)),
        m.uncomp_size == d.len(),
        header_model(d) matches Ok(h) && h.header_total <= 65548 && h.header_total <= d.len(),
    ensures
        member_header(in_memory(b), b.len(), m) == header_model(d),
{
    lemma_local(b, m, fixed, name, extra, payload);
    let at = m.local_offset as int + 30 + name.len() + extra.len();
    assert(b.subrange(at, at + payload.len()) == payload);
    if payload.len() == 0 {
        assert(payload =~= seq![]);
    }
    let w = wanted(m);
    assert(w == looked_at(m));
    law_smaller_budget_gives_prefix(payload, w, max);
    let part = if d.len() >= w {
        d.take(w as int)
    } else {
        d
    };
    let t = header_model(d)->Ok_0.header_total as int;
    assert(d.take(t) =~= part.take(t));
    law_header_is_enough(d, part);
}

/// In particular one that any encoder wrote, in blocks of any kind.
pub proof fn law_encoded_member_is_read(
    b: Seq<u8>,
    m: MemberModel,
    fixed: Seq<u8>,
    name: Seq<u8>,
    extra: Seq<u8>,
    payload: Seq<u8>,
    ks: Seq<Block>,
)
    requires
        stands(b, m, fixed, name, extra, payload),
        m.method == 8,
        payload.len() <= 4194304,
        ks.len() > 0,
        stream_sound(0, seq![], ks),
        has_bits(payload, 0, stream_bits(ks)),
        m.uncomp_size == stream_data(seq![], ks).len(),
        header_model(stream_data(seq![], ks)) matches Ok(h) && h.header_total <= 65548
            && h.header_total <= stream_data(seq![], ks).len(),
    ensures
        member_header(in_memory(b), b.len(), m) == header_model(stream_data(seq![], ks)),
{
    let d = stream_data(seq![], ks);
    let max = d.len() + 65548;
    law_stream_is_undone(payload, ks, max);
    law_deflated_member_is_read(b, m, fixed, name, extra, payload, max, d);
}

// ---------------------------------------------------------------------------
// Extra fields
// ---------------------------------------------------------------------------

/// Extra fields: each an id, a length and that many bytes.
pub open spec fn extra_bytes(fs: Seq<(u16, Seq<u8>)>) -> Seq<u8>
    decreases fs.len(),
{
    if fs.len() == 0 {
        seq![]
    } else {
        field(fs[0].0 as nat, 2) + (field(fs[0].1.len(), 2) + (fs[0].1 + extra_bytes(fs.skip(1))))
    }
}

pub open spec fn extra_fits(fs: Seq<(u16, Seq<u8>)>) -> bool {
    forall|i: int| 0 <= i < fs.len() ==> (#[trigger] fs[i]).1.len() <= 65535
}

/// None of the fields is the one that holds large sizes.
pub open spec fn no_large(fs: Seq<(u16, Seq<u8>)>) -> bool {
    forall|i: int| 0 <= i < fs.len() ==> (#[trigger] fs[i]).0 != 1
}

proof fn lemma_one_field(x: Seq<u8>, p: int, fs: Seq<(u16, Seq<u8>)>, s: Sizes)
    requires
        fs.len() > 0,
        extra_fits(fs),
        occurs(x, p, extra_bytes(fs)),
    ensures
        ({
            let end = p + 4 + fs[0].1.len();
            &&& occurs(x, end, extra_bytes(fs.skip(1)))
            &&& sizes_from(x, p, s) == sizes_from(
                x,
                end,
                if fs[0].0 == 1 {
                    widen_sizes(fs[0].1, s)
                } else {
                    s
                },
            )
        }),
{
    let x1 = field(fs[0].0 as nat, 2);
    let x2 = field(fs[0].1.len(), 2);
    let x3 = fs[0].1;
    let x4 = extra_bytes(fs.skip(1));
    lemma_widths(fs[0].0 as nat);
    lemma_widths(fs[0].1.len());
    lemma_occurs_split(x, p, x1, x2 + (x3 + x4));
    lemma_occurs_split(x, p + 2, x2, x3 + x4);
    lemma_occurs_split(x, p + 4, x3, x4);
    lemma_read(x, p, fs[0].0 as nat, 2);
    lemma_read(x, p + 2, fs[0].1.len(), 2);
}

proof fn lemma_skipped(x: Seq<u8>, p: int, fs: Seq<(u16, Seq<u8>)>, s: Sizes)
    requires
        extra_fits(fs),
        no_large(fs),
        occurs(x, p, extra_bytes(fs)),
    ensures
        sizes_from(x, p, s) == sizes_from(x, p + extra_bytes(fs).len(), s),
    decreases fs.len(),
{
    if fs.len() > 0 {
        lemma_one_field(x, p, fs, s);
        lemma_widths(fs[0].0 as nat);
        lemma_widths(fs[0].1.len());
        assert(fs[0].0 != 1);
        assert forall|i: int| 0 <= i < fs.skip(1).len() implies (#[trigger] fs.skip(1)[i]).0 != 1
            && fs.skip(1)[i].1.len() <= 65535 by {
            assert(fs.skip(1)[i] == fs[i + 1]);
        }
        lemma_skipped(x, p + 4 + fs[0].1.len(), fs.skip(1), s);
    }
}

/// The 32-bit field of a size: the size, or all ones where it is too large.
pub open spec fn short_size(x: nat) -> nat {
    if x >= 0xffff_ffff {
        0xffff_ffff
    } else {
        x
    }
}

/// The field of large sizes: those that the 32-bit fields cannot hold, in the
/// order uncompressed, compressed, offset.
pub open spec fn large_sizes(s: Sizes) -> Seq<u8> {
    (if s.uncomp >= 0xffff_ffff {
        field(s.uncomp, 8)
    } else {
        seq![]
    }) + ((if s.comp >= 0xffff_ffff {
        field(s.comp, 8)
    } else {
        seq![]
    }) + (if s.local >= 0xffff_ffff {
        field(s.local, 8)
    } else {
        seq![]
    }))
}

pub open spec fn short_sizes(s: Sizes) -> Sizes {
    Sizes { uncomp: short_size(s.uncomp), comp: short_size(s.comp), local: short_size(s.local) }
}

proof fn lemma_large_back(s: Sizes, more: Seq<u8>)
    requires
        s.uncomp <= u64::MAX,
        s.comp <= u64::MAX,
        s.local <= u64::MAX,
    ensures
        widen_sizes(large_sizes(s) + more, short_sizes(s)) == s,
{
    let x1 = if s.uncomp >= 0xffff_ffff {
        field(s.uncomp, 8)
    } else {
        seq![]
    };
    let x2 = if s.comp >= 0xffff_ffff {
        field(s.comp, 8)
    } else {
        seq![]
    };
    let x3 = if s.local >= 0xffff_ffff {
        field(s.local, 8)
    } else {
        seq![]
    };
    let f = large_sizes(s) + more;
    lemma_widths(s.uncomp);
    lemma_widths(s.comp);
    lemma_widths(s.local);
    assert(f.subrange(0, f.len() as int) =~= f);
    assert(f =~= x1 + (x2 + (x3 + more)));
    lemma_occurs_split(f, 0, x1, x2 + (x3 + more));
    lemma_occurs_split(f, x1.len() as int, x2, x3 + more);
    lemma_occurs_split(f, (x1.len() + x2.len()) as int, x3, more);
    if s.uncomp >= 0xffff_ffff {
        lemma_read(f, 0, s.uncomp, 8);
    }
    if s.comp >= 0xffff_ffff {
        lemma_read(f, x1.len() as int, s.comp, 8);
    }
    if s.local >= 0xffff_ffff {
        lemma_read(f, (x1.len() + x2.len()) as int, s.local, 8);
    }
}

proof fn lemma_extra_joined(x: Seq<(u16, Seq<u8>)>, y: Seq<(u16, Seq<u8>)>)
    ensures
        extra_bytes(x + y) == extra_bytes(x) + extra_bytes(y),
    decreases x.len(),
{
    if x.len() == 0 {
        assert(x + y =~= y);
        assert(extra_bytes(x) + extra_bytes(y) =~= extra_bytes(y));
    } else {
        lemma_extra_joined(x.skip(1), y);
        assert((x + y).skip(1) =~= x.skip(1) + y);
        assert((x + y)[0] == x[0]);
        assert(extra_bytes(x + y) =~= extra_bytes(x) + extra_bytes(y));
    }
}

// ---------------------------------------------------------------------------
// The central directory
// ---------------------------------------------------------------------------

/// A member as a directory lists it, with all that does not matter to the
/// reader: versions, times and a checksum, attributes, a comment, extra fields
/// before and after that of the large sizes, and more bytes in that one.
pub ghost struct Listed {
    pub versions: Seq<u8>,
    pub flags: u16,
    pub method: u16,
    pub stamps: Seq<u8>,
    pub sizes: Sizes,
    pub attributes: Seq<u8>,
    pub name: Seq<char>,
    pub before: Seq<(u16, Seq<u8>)>,
    pub large: bool,
    pub more: Seq<u8>,
    pub after: Seq<(u16, Seq<u8>)>,
    pub comment: Seq<u8>,
}

pub open spec fn large_field(e: Listed) -> Seq<(u16, Seq<u8>)> {
    if e.large {
        seq![(1u16, large_sizes(e.sizes) + e.more)]
    } else {
        seq![]
    }
}

pub open spec fn listed_extra(e: Listed) -> Seq<u8> {
    extra_bytes(e.before) + (extra_bytes(large_field(e)) + extra_bytes(e.after))
}

pub open spec fn listed_bytes(e: Listed) -> Seq<u8> {
    mark(1, 2) + (e.versions + (field(e.flags as nat, 2) + (field(e.method as nat, 2) + (e.stamps
        + (field(short_size(e.sizes.comp), 4) + (field(short_size(e.sizes.uncomp), 4) + (field(
        encode_utf8(e.name).len(),
        2,
    ) + (field(listed_extra(e).len(), 2) + (field(e.comment.len(), 2) + (e.attributes + (field(
        short_size(e.sizes.local),
        4,
    ) + (encode_utf8(e.name) + (listed_extra(e) + e.comment)))))))))))))
}

pub open spec fn listed_fits(e: Listed) -> bool {
    &&& e.versions.len() == 4
    &&& e.stamps.len() == 8
    &&& e.attributes.len() == 8
    &&& encode_utf8(e.name).len() <= 65535
    &&& listed_extra(e).len() <= 65535
    &&& e.comment.len() <= 65535
    &&& e.sizes.uncomp <= u64::MAX
    &&& e.sizes.comp <= u64::MAX
    &&& e.sizes.local <= u64::MAX
    &&& !e.large ==> e.sizes.uncomp < 0xffff_ffff && e.sizes.comp < 0xffff_ffff && e.sizes.local
        < 0xffff_ffff
    &&& e.more.len() <= 1000
    &&& extra_fits(e.before)
    &&& extra_fits(e.after)
    &&& no_large(e.before)
    &&& no_large(e.after)
}

/// The member that an entry lists.
pub open spec fn member_of(e: Listed) -> MemberModel {
    MemberModel {
        name: e.name,
        method: e.method as nat,
        flags: e.flags as nat,
        comp_size: e.sizes.comp,
        uncomp_size: e.sizes.uncomp,
        local_offset: e.sizes.local,
    }
}

/// The sizes come out of the extra fields whole, whatever other fields stand
/// around the one that holds them.
pub proof fn law_large_sizes_are_found(e: Listed)
    requires
        listed_fits(e),
    ensures
        sizes_from(listed_extra(e), 0, short_sizes(e.sizes)) == e.sizes,
{
    let x = listed_extra(e);
    let x1 = extra_bytes(e.before);
    let x2 = extra_bytes(large_field(e));
    let x3 = extra_bytes(e.after);
    let s = short_sizes(e.sizes);
    assert(x.subrange(0, x.len() as int) =~= x);
    lemma_occurs_split(x, 0, x1, x2 + x3);
    lemma_occurs_split(x, x1.len() as int, x2, x3);
    lemma_skipped(x, 0, e.before, s);
    if e.large {
        let f = large_sizes(e.sizes) + e.more;
        let fs = large_field(e);
        lemma_widths(e.sizes.uncomp);
        lemma_widths(e.sizes.comp);
        lemma_widths(e.sizes.local);
        lemma_widths(1);
        lemma_widths(f.len());
        assert(fs.skip(1) =~= seq![]);
        assert(extra_bytes(fs.skip(1)).len() == 0);
        assert(fs[0].1 == f);
        assert(x2.len() == 4 + f.len());
        lemma_one_field(x, x1.len() as int, fs, s);
        lemma_large_back(e.sizes, e.more);
    } else {
        assert(s == e.sizes);
    }
    lemma_skipped(x, (x1.len() + x2.len()) as int, e.after, e.sizes);
}

proof fn lemma_listed_head(cd: Seq<u8>, pos: int, e: Listed)
    requires
        listed_fits(e),
        occurs(cd, pos, listed_bytes(e)),
    ensures
        le(cd, pos, 4) == 0x0201_4b50,
        le(cd, pos + 8, 2) == e.flags,
        le(cd, pos + 10, 2) == e.method,
        le(cd, pos + 20, 4) == short_size(e.sizes.comp),
        le(cd, pos + 24, 4) == short_size(e.sizes.uncomp),
        occurs(
            cd,
            pos + 28,
            field(encode_utf8(e.name).len(), 2) + (field(listed_extra(e).len(), 2) + (field(
                e.comment.len(),
                2,
            ) + (e.attributes + (field(short_size(e.sizes.local), 4) + (encode_utf8(e.name) + (
            listed_extra(e) + e.comment)))))),
        ),
{
    let t8 = field(encode_utf8(e.name).len(), 2) + (field(listed_extra(e).len(), 2) + (field(
        e.comment.len(),
        2,
    ) + (e.attributes + (field(short_size(e.sizes.local), 4) + (encode_utf8(e.name) + (listed_extra(
        e,
    ) + e.comment))))));
    let x7 = field(short_size(e.sizes.uncomp), 4);
    let x6 = field(short_size(e.sizes.comp), 4);
    let x4 = field(e.method as nat, 2);
    let x3 = field(e.flags as nat, 2);
    lemma_widths(short_size(e.sizes.uncomp));
    lemma_widths(short_size(e.sizes.comp));
    lemma_widths(e.method as nat);
    lemma_widths(e.flags as nat);
    let t7 = x7 + t8;
    let t6 = x6 + t7;
    let t5 = e.stamps + t6;
    let t4 = x4 + t5;
    let t3 = x3 + t4;
    let t2 = e.versions + t3;
    lemma_occurs_split(cd, pos, mark(1, 2), t2);
    lemma_occurs_split(cd, pos + 4, e.versions, t3);
    lemma_occurs_split(cd, pos + 8, x3, t4);
    lemma_occurs_split(cd, pos + 10, x4, t5);
    lemma_occurs_split(cd, pos + 12, e.stamps, t6);
    lemma_occurs_split(cd, pos + 20, x6, t7);
    lemma_occurs_split(cd, pos + 24, x7, t8);
    lemma_mark(cd, pos, 1, 2);
    lemma_read(cd, pos + 8, e.flags as nat, 2);
    lemma_read(cd, pos + 10, e.method as nat, 2);
    lemma_read(cd, pos + 20, short_size(e.sizes.comp), 4);
    lemma_read(cd, pos + 24, short_size(e.sizes.uncomp), 4);
}

/// An entry of the central directory is read as the member it lists, with its
/// sizes whole, and the next entry follows behind its comment.
pub proof fn law_entry_is_listed(cd: Seq<u8>, pos: int, i: nat, e: Listed)
    requires
        listed_fits(e),
        occurs(cd, pos, listed_bytes(e)),
    ensures
        listed_bytes(e).len() == 46 + encode_utf8(e.name).len() + listed_extra(e).len()
            + e.comment.len(),
        entry_at(cd, pos, i) == Ok::<(MemberModel, int), Seq<char>>(
            (member_of(e), pos + listed_bytes(e).len()),
        ),
{
    lemma_listed_head(cd, pos, e);
    let name = encode_utf8(e.name);
    let extra = listed_extra(e);
    let x8 = field(name.len(), 2);
    let x9 = field(extra.len(), 2);
    let x10 = field(e.comment.len(), 2);
    let x12 = field(short_size(e.sizes.local), 4);
    lemma_widths(name.len());
    lemma_widths(extra.len());
    lemma_widths(e.comment.len());
    lemma_widths(short_size(e.sizes.local));
    lemma_widths(short_size(e.sizes.uncomp));
    lemma_widths(short_size(e.sizes.comp));
    lemma_widths(e.method as nat);
    lemma_widths(e.flags as nat);
    let t13 = name + (extra + e.comment);
    let t12 = x12 + t13;
    let t11 = e.attributes + t12;
    let t10 = x10 + t11;
    let t9 = x9 + t10;
    lemma_occurs_split(cd, pos + 28, x8, t9);
    lemma_occurs_split(cd, pos + 30, x9, t10);
    lemma_occurs_split(cd, pos + 32, x10, t11);
    lemma_occurs_split(cd, pos + 34, e.attributes, t12);
    lemma_occurs_split(cd, pos + 42, x12, t13);
    lemma_occurs_split(cd, pos + 46, name, extra + e.comment);
    lemma_occurs_split(cd, pos + 46 + name.len(), extra, e.comment);
    lemma_read(cd, pos + 28, name.len(), 2);
    lemma_read(cd, pos + 30, extra.len(), 2);
    lemma_read(cd, pos + 32, e.comment.len(), 2);
    lemma_read(cd, pos + 42, short_size(e.sizes.local), 4);
    law_large_sizes_are_found(e);
    encode_utf8_valid_utf8(e.name);
    encode_utf8_decode_utf8(e.name);
}

pub open spec fn directory_bytes(es: Seq<Listed>) -> Seq<u8>
    decreases es.len(),
{
    if es.len() == 0 {
        seq![]
    } else {
        listed_bytes(es[0]) + directory_bytes(es.skip(1))
    }
}

pub open spec fn all_fit(es: Seq<Listed>) -> bool {
    forall|i: int| 0 <= i < es.len() ==> listed_fits(#[trigger] es[i])
}

pub open spec fn members_of(es: Seq<Listed>) -> Seq<MemberModel> {
    es.map_values(|e: Listed| member_of(e))
}

proof fn lemma_entries(
    cd: Seq<u8>,
    pos: int,
    i: nat,
    n: nat,
    es: Seq<Listed>,
    acc: Seq<MemberModel>,
)
    requires
        all_fit(es),
        occurs(cd, pos, directory_bytes(es)),
        n == i + es.len(),
    ensures
        entries_from(cd, pos, i, n, acc) == Ok::<Seq<MemberModel>, Seq<char>>(acc + members_of(es)),
        directory_bytes(es).len() >= 46 * es.len(),
    decreases es.len(),
{
    if es.len() == 0 {
        assert(acc + members_of(es) =~= acc);
    } else {
        let x = listed_bytes(es[0]);
        let rest = es.skip(1);
        assert forall|k: int| 0 <= k < rest.len() implies listed_fits(#[trigger] rest[k]) by {
            assert(rest[k] == es[k + 1]);
        }
        lemma_occurs_split(cd, pos, x, directory_bytes(rest));
        law_entry_is_listed(cd, pos, i, es[0]);
        lemma_entries(cd, pos + x.len(), i + 1, n, rest, acc.push(member_of(es[0])));
        assert(acc.push(member_of(es[0])) + members_of(rest) =~= acc + members_of(es));
    }
}

/// A central directory lists its members in order.
pub proof fn law_directory_is_listed(es: Seq<Listed>)
    requires
        all_fit(es),
    ensures
        entries_from(directory_bytes(es), 0, 0, es.len(), seq![]) == Ok::<
            Seq<MemberModel>,
            Seq<char>,
        >(members_of(es)),
        directory_bytes(es).len() >= 46 * es.len(),
{
    let cd = directory_bytes(es);
    assert(cd.subrange(0, cd.len() as int) =~= cd);
    lemma_entries(cd, 0, 0, es.len(), es, seq![]);
    assert(seq![] + members_of(es) =~= members_of(es));
}

// ---------------------------------------------------------------------------
// The end of an archive
// ---------------------------------------------------------------------------

/// The record at the end: how many entries the directory has, how long it is
/// and where it starts, and a comment.
pub open spec fn end_bytes(disks: Seq<u8>, count: nat, size: nat, offset: nat, comment: Seq<u8>) -> Seq<
    u8,
> {
    mark(5, 6) + (disks + (field(count, 2) + (field(size, 4) + (field(offset, 4) + (field(
        comment.len(),
        2,
    ) + comment)))))
}

/// The mark that a record starts with does not come again in it: not in its
/// comment, and not by chance in its numbers.
pub open spec fn quiet(end: Seq<u8>) -> bool {
    forall|i: int|
        0 < i && i + 4 <= end.len() ==> #[trigger] end.subrange(i, i + 4) != mark(5, 6)
}

/// An archive: whatever comes first, the directory, whatever lies between, and
/// the record at the end.
pub open spec fn archive_bytes(
    front: Seq<u8>,
    es: Seq<Listed>,
    between: Seq<u8>,
    disks: Seq<u8>,
    comment: Seq<u8>,
) -> Seq<u8> {
    front + (directory_bytes(es) + (between + end_bytes(
        disks,
        es.len(),
        directory_bytes(es).len(),
        front.len(),
        comment,
    )))
}

proof fn lemma_mark_read(b: Seq<u8>, pos: int)
    requires
        0 <= pos,
        pos + 4 <= b.len(),
        le(b, pos, 4) == 0x0605_4b50,
    ensures
        b.subrange(pos, pos + 4) == mark(5, 6),
{
    reveal_with_fuel(le, 5);
    assert(pos + 1 + 1 == pos + 2);
    assert(pos + 1 + 1 + 1 == pos + 3);
    assert(b.subrange(pos, pos + 4) =~= mark(5, 6));
}

proof fn lemma_end_found(tail: Seq<u8>, pos: int, from: int)
    requires
        0 <= pos <= from,
        is_eocd(tail, pos),
        forall|p: int| pos < p <= from ==> !is_eocd(tail, p),
    ensures
        eocd_before(tail, from) == Some(pos),
    decreases from - pos,
{
    if from > pos {
        lemma_end_found(tail, pos, from - 1);
    }
}

proof fn lemma_end_fields(
    b: Seq<u8>,
    pos: int,
    disks: Seq<u8>,
    count: nat,
    size: nat,
    offset: nat,
    comment: Seq<u8>,
)
    requires
        disks.len() == 6,
        count <= u16::MAX,
        size <= u32::MAX,
        offset <= u32::MAX,
        comment.len() <= 65535,
        occurs(b, pos, end_bytes(disks, count, size, offset, comment)),
    ensures
        end_bytes(disks, count, size, offset, comment).len() == 22 + comment.len(),
        le(b, pos, 4) == 0x0605_4b50,
        le(b, pos + 10, 2) == count,
        le(b, pos + 12, 4) == size,
        le(b, pos + 16, 4) == offset,
        le(b, pos + 20, 2) == comment.len(),
        occurs(b, pos + 22, comment),
{
    let x3 = field(count, 2);
    let x4 = field(size, 4);
    let x5 = field(offset, 4);
    let x6 = field(comment.len(), 2);
    lemma_widths(count);
    lemma_widths(size);
    lemma_widths(offset);
    lemma_widths(comment.len());
    let t6 = x6 + comment;
    let t5 = x5 + t6;
    let t4 = x4 + t5;
    let t3 = x3 + t4;
    lemma_occurs_split(b, pos, mark(5, 6), disks + t3);
    lemma_occurs_split(b, pos + 4, disks, t3);
    lemma_occurs_split(b, pos + 10, x3, t4);
    lemma_occurs_split(b, pos + 12, x4, t5);
    lemma_occurs_split(b, pos + 16, x5, t6);
    lemma_occurs_split(b, pos + 20, x6, comment);
    lemma_mark(b, pos, 5, 6);
    lemma_read(b, pos + 10, count, 2);
    lemma_read(b, pos + 12, size, 4);
    lemma_read(b, pos + 16, offset, 4);
    lemma_read(b, pos + 20, comment.len(), 2);
}

/// A record that ends an archive is found, whatever comes before it and however
/// long its comment is.
pub proof fn law_end_is_found(
    tail: Seq<u8>,
    pos: int,
    disks: Seq<u8>,
    count: nat,
    size: nat,
    offset: nat,
    comment: Seq<u8>,
)
    requires
        disks.len() == 6,
        count <= 0xffff,
        size <= 0xffff_ffff,
        offset <= 0xffff_ffff,
        comment.len() <= 65535,
        quiet(end_bytes(disks, count, size, offset, comment)),
        occurs(tail, pos, end_bytes(disks, count, size, offset, comment)),
        pos + 22 + comment.len() == tail.len(),
    ensures
        eocd_in(tail) == Some(pos),
        declared(tail, pos) == (Directory {
            entries: count as u64,
            size: size as u64,
            offset: offset as u64,
            zip64: false,
        }),
{
    lemma_end_fields(tail, pos, disks, count, size, offset, comment);
    assert forall|p: int| pos < p <= tail.len() - 22 implies !is_eocd(tail, p) by {
        if le(tail, p, 4) == 0x0605_4b50 {
            lemma_mark_read(tail, p);
            let w = end_bytes(disks, count, size, offset, comment);
            lemma_occurs_part(tail, pos, w, p - pos, p - pos + 4);
            assert(w.subrange(p - pos, p - pos + 4) == mark(5, 6));
        }
    }
    lemma_end_found(tail, pos, tail.len() - 22);
}

proof fn lemma_directory_used(
    b: Seq<u8>,
    path: Seq<char>,
    pos: int,
    d: Directory,
    ms: Seq<MemberModel>,
)
    requires
        ({
            let tail = b.subrange(b.len() - scan_len(b.len()), b.len() as int);
            eocd_in(tail) == Some(pos) && declared(tail, pos) == d
        }),
        b.len() > 0,
        !d.zip64,
        d.entries < 0xffff,
        d.offset < 0xffff_ffff,
        d.size <= 67108864,
        d.offset + d.size <= b.len(),
        46 * d.entries <= d.size,
        entries_from(
            b.subrange(d.offset as int, d.offset + d.size),
            0,
            0,
            d.entries as nat,
            seq![],
        ) == Ok::<Seq<MemberModel>, Seq<char>>(ms),
    ensures
        parse_model(in_memory(b), b.len(), path) == Ok::<ReportModel, Seq<char>>(
            report_of(
                path,
                b.len(),
                d,
                ms.len(),
                members_from(in_memory(b), b.len(), ms, 0, empty_tally()),
            ),
        ),
{
    let n = scan_len(b.len());
    assert(in_memory(b)((b.len() - n) as nat, n) == Ok::<Seq<u8>, Seq<char>>(
        b.subrange(b.len() - n, b.len() as int),
    ));
    let cd = b.subrange(d.offset as int, d.offset + d.size);
    if d.size == 0 {
        assert(cd =~= seq![]);
    }
    assert(in_memory(b)(d.offset as nat, d.size as nat) == Ok::<Seq<u8>, Seq<char>>(cd));
    assert(d.entries <= d.size / 46);
    assert(directory_error(b.len(), d) is None);
    assert(!needs_zip64(d));
    assert(parse_model(in_memory(b), b.len(), path) == after_directory(
        in_memory(b),
        b.len(),
        path,
        d,
    ));
}

proof fn lemma_archive_parts(
    front: Seq<u8>,
    es: Seq<Listed>,
    between: Seq<u8>,
    disks: Seq<u8>,
    comment: Seq<u8>,
)
    ensures
        ({
            let b = archive_bytes(front, es, between, disks, comment);
            let cd = directory_bytes(es);
            let end = end_bytes(disks, es.len(), cd.len(), front.len(), comment);
            &&& occurs(b, (front.len() + cd.len() + between.len()) as int, end)
            &&& b.len() == front.len() + cd.len() + between.len() + end.len()
            &&& b.subrange(front.len() as int, (front.len() + cd.len()) as int) == cd
        }),
{
    let cd = directory_bytes(es);
    let end = end_bytes(disks, es.len(), cd.len(), front.len(), comment);
    let b = archive_bytes(front, es, between, disks, comment);
    assert(b.subrange(0, b.len() as int) =~= b);
    lemma_occurs_split(b, 0, front, cd + (between + end));
    lemma_occurs_split(b, front.len() as int, cd, between + end);
    lemma_occurs_split(b, (front.len() + cd.len()) as int, between, end);
}

/// An archive without large sizes is read by its directory, wherever the
/// directory lies and whatever comment follows.
#[verifier::rlimit(50)]
pub proof fn law_archive_is_listed(
    front: Seq<u8>,
    es: Seq<Listed>,
    between: Seq<u8>,
    disks: Seq<u8>,
    comment: Seq<u8>,
    path: Seq<char>,
)
    requires
        all_fit(es),
        disks.len() == 6,
        comment.len() <= 65535,
        es.len() < 0xffff,
        directory_bytes(es).len() <= 67108864,
        front.len() < 0xffff_ffff,
        quiet(
            end_bytes(disks, es.len(), directory_bytes(es).len(), front.len(), comment),
        ),
    ensures
        ({
            let b = archive_bytes(front, es, between, disks, comment);
            let d = Directory {
                entries: es.len() as u64,
                size: directory_bytes(es).len() as u64,
                offset: front.len() as u64,
                zip64: false,
            };
            parse_model(in_memory(b), b.len(), path) == Ok::<ReportModel, Seq<char>>(
                report_of(
                    path,
                    b.len(),
                    d,
                    es.len(),
                    members_from(in_memory(b), b.len(), members_of(es), 0, empty_tally()),
                ),
            )
        }),
{
    let cd = directory_bytes(es);
    let b = archive_bytes(front, es, between, disks, comment);
    lemma_archive_parts(front, es, between, disks, comment);
    let at = (front.len() + cd.len() + between.len()) as int;
    lemma_end_fields(b, at, disks, es.len(), cd.len(), front.len(), comment);
    lemma_end_in_tail(b, at, disks, es.len(), cd.len(), front.len(), comment);
    let pos = at - (b.len() - scan_len(b.len()));
    law_directory_is_listed(es);
    let d = Directory {
        entries: es.len() as u64,
        size: cd.len() as u64,
        offset: front.len() as u64,
        zip64: false,
    };
    lemma_directory_used(b, path, pos, d, members_of(es));
}

/// The large record: its mark, 28 bytes of what does not matter here, and the
/// directory's numbers in eight bytes each.
pub open spec fn large_end_bytes(fixed: Seq<u8>, count: nat, size: nat, offset: nat) -> Seq<u8> {
    mark(6, 6) + (fixed + (field(count, 8) + (field(size, 8) + field(offset, 8))))
}

/// What says where the large record is, right before the record at the end.
pub open spec fn locator_bytes(disk: Seq<u8>, at: nat, disks: Seq<u8>) -> Seq<u8> {
    mark(6, 7) + (disk + (field(at, 8) + disks))
}

proof fn lemma_large_end(b: Seq<u8>, pos: int, fixed: Seq<u8>, count: u64, size: u64, offset: u64)
    requires
        fixed.len() == 28,
        occurs(b, pos, large_end_bytes(fixed, count as nat, size as nat, offset as nat)),
    ensures
        pos + 56 <= b.len(),
        ({
            let rec = b.subrange(pos, pos + 56);
            &&& le(rec, 0, 4) == 0x0606_4b50
            &&& le(rec, 32, 8) == count
            &&& le(rec, 40, 8) == size
            &&& le(rec, 48, 8) == offset
        }),
{
    let x3 = field(count as nat, 8);
    let x4 = field(size as nat, 8);
    let x5 = field(offset as nat, 8);
    lemma_widths(count as nat);
    lemma_widths(size as nat);
    lemma_widths(offset as nat);
    lemma_occurs_split(b, pos, mark(6, 6), fixed + (x3 + (x4 + x5)));
    lemma_occurs_split(b, pos + 4, fixed, x3 + (x4 + x5));
    lemma_occurs_split(b, pos + 32, x3, x4 + x5);
    lemma_occurs_split(b, pos + 40, x4, x5);
    lemma_mark(b, pos, 6, 6);
    lemma_read(b, pos + 32, count as nat, 8);
    lemma_read(b, pos + 40, size as nat, 8);
    lemma_read(b, pos + 48, offset as nat, 8);
    lemma_window(b, pos, pos + 56, 0, 4);
    lemma_window(b, pos, pos + 56, 32, 8);
    lemma_window(b, pos, pos + 56, 40, 8);
    lemma_window(b, pos, pos + 56, 48, 8);
}

proof fn lemma_locator(b: Seq<u8>, pos: int, disk: Seq<u8>, at: u64, disks: Seq<u8>)
    requires
        disk.len() == 4,
        disks.len() == 4,
        occurs(b, pos, locator_bytes(disk, at as nat, disks)),
    ensures
        pos + 20 <= b.len(),
        ({
            let loc = b.subrange(pos, pos + 20);
            &&& le(loc, 0, 4) == 0x0706_4b50
            &&& le(loc, 8, 8) == at
        }),
{
    let x3 = field(at as nat, 8);
    lemma_widths(at as nat);
    lemma_occurs_split(b, pos, mark(6, 7), disk + (x3 + disks));
    lemma_occurs_split(b, pos + 4, disk, x3 + disks);
    lemma_occurs_split(b, pos + 8, x3, disks);
    lemma_mark(b, pos, 6, 7);
    lemma_read(b, pos + 8, at as nat, 8);
    lemma_window(b, pos, pos + 20, 0, 4);
    lemma_window(b, pos, pos + 20, 8, 8);
}

proof fn lemma_end_in_tail(
    b: Seq<u8>,
    end: int,
    disks: Seq<u8>,
    count: nat,
    size: nat,
    offset: nat,
    comment: Seq<u8>,
)
    requires
        disks.len() == 6,
        count <= 0xffff,
        size <= 0xffff_ffff,
        offset <= 0xffff_ffff,
        comment.len() <= 65535,
        quiet(end_bytes(disks, count, size, offset, comment)),
        occurs(b, end, end_bytes(disks, count, size, offset, comment)),
        end + 22 + comment.len() == b.len(),
    ensures
        ({
            let start = b.len() - scan_len(b.len());
            let tail = b.subrange(start, b.len() as int);
            &&& 0 <= start <= end
            &&& eocd_in(tail) == Some(end - start)
            &&& declared(tail, end - start) == (Directory {
                entries: count as u64,
                size: size as u64,
                offset: offset as u64,
                zip64: false,
            })
        }),
{
    let w = end_bytes(disks, count, size, offset, comment);
    lemma_end_fields(b, end, disks, count, size, offset, comment);
    let start = b.len() - scan_len(b.len());
    let tail = b.subrange(start, b.len() as int);
    let pos = end - start;
    assert(tail.subrange(pos, pos + w.len()) =~= b.subrange(end, end + w.len()));
    law_end_is_found(tail, pos, disks, count, size, offset, comment);
}

/// Where the record at the end says that a number does not fit, the directory
/// is the one that the large record gives, found by the locator before the end.
#[verifier::rlimit(50)]
pub proof fn law_large_directory_is_found(
    b: Seq<u8>,
    path: Seq<char>,
    end: int,
    disks: Seq<u8>,
    short_count: u16,
    short_length: u32,
    short_offset: u32,
    comment: Seq<u8>,
    disk: Seq<u8>,
    all_disks: Seq<u8>,
    record: u64,
    fixed: Seq<u8>,
    count: u64,
    size: u64,
    offset: u64,
)
    requires
        b.len() <= u64::MAX,
        disks.len() == 6,
        comment.len() <= 65535,
        quiet(
            end_bytes(
                disks,
                short_count as nat,
                short_length as nat,
                short_offset as nat,
                comment,
            ),
        ),
        occurs(
            b,
            end,
            end_bytes(
                disks,
                short_count as nat,
                short_length as nat,
                short_offset as nat,
                comment,
            ),
        ),
        end + 22 + comment.len() == b.len(),
        short_count == 0xffff || short_length == 0xffff_ffff || short_offset == 0xffff_ffff,
        disk.len() == 4,
        all_disks.len() == 4,
        end >= 20,
        occurs(b, end - 20, locator_bytes(disk, record as nat, all_disks)),
        fixed.len() == 28,
        occurs(b, record as int, large_end_bytes(fixed, count as nat, size as nat, offset as nat)),
    ensures
        parse_model(in_memory(b), b.len(), path) == after_directory(
            in_memory(b),
            b.len(),
            path,
            Directory { entries: count, size, offset, zip64: true },
        ),
{
    lemma_end_in_tail(
        b,
        end,
        disks,
        short_count as nat,
        short_length as nat,
        short_offset as nat,
        comment,
    );
    let pos = end - (b.len() - scan_len(b.len()));
    assert(end - 20 + 20 == end);
    lemma_locator(b, end - 20, disk, record, all_disks);
    lemma_large_end(b, record as int, fixed, count, size, offset);
    lemma_large_used(b, path, pos, record as nat);
}

proof fn lemma_large_used(b: Seq<u8>, path: Seq<char>, pos: int, record: nat)
    requires
        b.len() > 0,
        record + 56 <= b.len(),
        ({
            let start = b.len() - scan_len(b.len());
            let tail = b.subrange(start, b.len() as int);
            let at = start + pos;
            let loc = b.subrange(at - 20, at);
            let rec = b.subrange(record as int, record + 56 as int);
            &&& eocd_in(tail) == Some(pos)
            &&& needs_zip64(declared(tail, pos))
            &&& 20 <= at <= b.len()
            &&& le(loc, 0, 4) == 0x0706_4b50
            &&& le(loc, 8, 8) == record
            &&& le(rec, 0, 4) == 0x0606_4b50
        }),
    ensures
        ({
            let rec = b.subrange(record as int, record + 56 as int);
            parse_model(in_memory(b), b.len(), path) == after_directory(
                in_memory(b),
                b.len(),
                path,
                Directory {
                    entries: le(rec, 32, 8) as u64,
                    size: le(rec, 40, 8) as u64,
                    offset: le(rec, 48, 8) as u64,
                    zip64: true,
                },
            )
        }),
{
    let n = scan_len(b.len());
    let start = b.len() - n;
    let at = start + pos;
    assert(in_memory(b)(start as nat, n) == Ok::<Seq<u8>, Seq<char>>(
        b.subrange(start, b.len() as int),
    ));
    assert(in_memory(b)((at - 20) as nat, 20) == Ok::<Seq<u8>, Seq<char>>(
        b.subrange(at - 20, at),
    ));
    assert(in_memory(b)(record, 56) == Ok::<Seq<u8>, Seq<char>>(
        b.subrange(record as int, record + 56 as int),
    ));
}

} // verus!
