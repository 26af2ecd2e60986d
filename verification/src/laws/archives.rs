//! What is read of a written npz archive.

use vstd::prelude::*;
use vstd::utf8::*;
use crate::builder::{archive, central_record, central_records, crc_of, entry_of, eocd_record, local_record, member_method, member_payload, npy_data_len, npy_dict, npy_file, npy_padded, npy_writable, npz_body, npz_entries, stored_stream, zip64_extra, zip64_trailer, NpzMember, ZipEntryModel, MAX_STORED};
use crate::bytes::{le, le_bytes, lemma_le_bytes_len, lemma_le_round_trip, lemma_le_window, pow256, zeros};
use crate::inflate::inflated;
use crate::json::Doc;
use crate::laws::arrays::{dims_fit, lemma_npy_header, plain};
use crate::laws::deflate::{law_inflate_undoes_deflate, lemma_cut_stream, lemma_short_stream, lemma_stream_covers};
use crate::laws::layout::{lemma_occurs_part, lemma_occurs_split, occurs};
use crate::npy::{data_size, descr_of, header_model, prefix_of, MAX_PREFIX};
use crate::npz::{after_directory, after_listing, after_locator, counted, data_span, declared, directory_error, empty_tally, entries_from, entry_at, eocd_in, header_in, in_memory, is_eocd, member_header, member_problems, member_tensor, members_from, named_problems, parse_model, recorded, report_of, scan_len, sizes_from, wanted, wants_header, widen_sizes, Directory, MemberModel, Sizes, TallyModel, CDIR_SIG, EOCD64_LOCATOR_SIG, EOCD64_SIG, EOCD_SIG, LOCAL_SIG, MAX_CDIR, MAX_COMP_READ};
use crate::report::{min_nat, str_docs, ReportModel, TensorModel};
use crate::text::ends_with;

verus! {

proof fn lemma_powers()
    ensures
        pow256(2) == 0x1_0000,
        pow256(4) == 0x1_0000_0000,
        pow256(8) == 0x1_0000_0000_0000_0000,
{
    reveal_with_fuel(pow256, 9);
}

proof fn lemma_field(b: Seq<u8>, pos: int, x: nat, n: nat)
    requires
        occurs(b, pos, le_bytes(x, n)),
        x < pow256(n),
    ensures
        le(b, pos, n) == x,
        le_bytes(x, n).len() == n,
{
    lemma_le_bytes_len(x, n);
    lemma_le_round_trip(b, pos, x, n);
}

// ---------------------------------------------------------------------------
// Local records
// ---------------------------------------------------------------------------

/// The fields of a local record that matter to the reader.
proof fn lemma_local_fields(
    b: Seq<u8>,
    pos: int,
    name: Seq<char>,
    method: nat,
    crc: nat,
    uncomp_size: nat,
    payload: Seq<u8>,
)
    requires
        occurs(b, pos, local_record(name, method, crc, uncomp_size, payload)),
        encode_utf8(name).len() <= u16::MAX,
    ensures
        pos + 30 <= b.len(),
        le(b, pos, 4) == LOCAL_SIG,
        le(b, pos + 26, 2) == encode_utf8(name).len(),
        le(b, pos + 28, 2) == 0,
        occurs(b, pos + 30 + encode_utf8(name).len(), payload),
        local_record(name, method, crc, uncomp_size, payload).len() == 30 + encode_utf8(name).len()
            + payload.len(),
{
    lemma_powers();
    let e = encode_utf8(name);
    let s0 = le_bytes(0x0403_4b50, 4);
    let s1 = s0 + le_bytes(20, 2);
    let s2 = s1 + le_bytes(0, 2);
    let s3 = s2 + le_bytes(method, 2);
    let s4 = s3 + zeros(4);
    let s5 = s4 + le_bytes(crc, 4);
    let s6 = s5 + le_bytes(payload.len(), 4);
    let s7 = s6 + le_bytes(uncomp_size, 4);
    let s8 = s7 + le_bytes(e.len(), 2);
    let s9 = s8 + le_bytes(0, 2);
    let s10 = s9 + e;
    lemma_le_bytes_len(0x0403_4b50, 4);
    lemma_le_bytes_len(20, 2);
    lemma_le_bytes_len(0, 2);
    lemma_le_bytes_len(method, 2);
    lemma_le_bytes_len(crc, 4);
    lemma_le_bytes_len(payload.len(), 4);
    lemma_le_bytes_len(uncomp_size, 4);
    lemma_le_bytes_len(e.len(), 2);
    lemma_occurs_split(b, pos, s10, payload);
    lemma_occurs_split(b, pos, s9, e);
    lemma_occurs_split(b, pos, s8, le_bytes(0, 2));
    lemma_occurs_split(b, pos, s7, le_bytes(e.len(), 2));
    lemma_occurs_split(b, pos, s6, le_bytes(uncomp_size, 4));
    lemma_occurs_split(b, pos, s5, le_bytes(payload.len(), 4));
    lemma_occurs_split(b, pos, s4, le_bytes(crc, 4));
    lemma_occurs_split(b, pos, s3, zeros(4));
    lemma_occurs_split(b, pos, s2, le_bytes(method, 2));
    lemma_occurs_split(b, pos, s1, le_bytes(0, 2));
    lemma_occurs_split(b, pos, s0, le_bytes(20, 2));
    lemma_field(b, pos, 0x0403_4b50, 4);
    lemma_field(b, pos + 26, e.len(), 2);
    lemma_field(b, pos + 28, 0, 2);
}

// ---------------------------------------------------------------------------
// Directory entries
// ---------------------------------------------------------------------------

/// An entry's numbers fit in the fields they are written to.
pub open spec fn entry_fits(e: ZipEntryModel, zip64: bool) -> bool {
    let max: nat = if zip64 {
        u64::MAX as nat
    } else {
        u32::MAX as nat
    };
    &&& encode_utf8(e.name).len() <= u16::MAX
    &&& e.method <= u16::MAX
    &&& e.flags <= u16::MAX
    &&& e.comp_size <= max
    &&& e.uncomp_size <= max
    &&& e.local_offset <= max
}

/// A member as the reader sees it.
pub open spec fn listed(e: ZipEntryModel) -> MemberModel {
    MemberModel {
        name: e.name,
        method: e.method,
        flags: e.flags,
        comp_size: e.comp_size,
        uncomp_size: e.uncomp_size,
        local_offset: e.local_offset,
    }
}

/// The number that stands in a 32-bit field.
spec fn short_field(x: nat, zip64: bool) -> nat {
    if zip64 {
        0xffff_ffff
    } else {
        x
    }
}

/// The fixed fields of a directory entry.
proof fn lemma_central_fields(b: Seq<u8>, pos: int, e: ZipEntryModel, zip64: bool)
    requires
        occurs(b, pos, central_record(e, zip64)),
        entry_fits(e, zip64),
    ensures
        ({
            let name = encode_utf8(e.name);
            let extra: Seq<u8> = if zip64 {
                zip64_extra(e)
            } else {
                seq![]
            };
            &&& le(b, pos, 4) == CDIR_SIG
            &&& le(b, pos + 8, 2) == e.flags
            &&& le(b, pos + 10, 2) == e.method
            &&& le(b, pos + 20, 4) == short_field(e.comp_size, zip64)
            &&& le(b, pos + 24, 4) == short_field(e.uncomp_size, zip64)
            &&& le(b, pos + 28, 2) == name.len()
            &&& le(b, pos + 30, 2) == extra.len()
            &&& le(b, pos + 32, 2) == 0
            &&& le(b, pos + 42, 4) == short_field(e.local_offset, zip64)
            &&& occurs(b, pos + 46, name)
            &&& occurs(b, pos + 46 + name.len(), extra)
            &&& central_record(e, zip64).len() == 46 + name.len() + extra.len()
        }),
{
    lemma_powers();
    let name = encode_utf8(e.name);
    let comp = short_field(e.comp_size, zip64);
    let uncomp = short_field(e.uncomp_size, zip64);
    let local = short_field(e.local_offset, zip64);
    let xlen: nat = if zip64 {
        28
    } else {
        0
    };
    let s0 = le_bytes(0x0201_4b50, 4);
    let s1 = s0 + le_bytes(0x0314, 2);
    let s2 = s1 + le_bytes(20, 2);
    let s3 = s2 + le_bytes(e.flags, 2);
    let s4 = s3 + le_bytes(e.method, 2);
    let s5 = s4 + zeros(4);
    let s6 = s5 + le_bytes(e.crc, 4);
    let s7 = s6 + le_bytes(comp, 4);
    let s8 = s7 + le_bytes(uncomp, 4);
    let s9 = s8 + le_bytes(name.len(), 2);
    let s10 = s9 + le_bytes(xlen, 2);
    let s11 = s10 + zeros(2);
    let s12 = s11 + zeros(8);
    let s13 = s12 + le_bytes(local, 4);
    let s14 = s13 + name;
    lemma_le_bytes_len(0x0201_4b50, 4);
    lemma_le_bytes_len(0x0314, 2);
    lemma_le_bytes_len(20, 2);
    lemma_le_bytes_len(e.flags, 2);
    lemma_le_bytes_len(e.method, 2);
    lemma_le_bytes_len(e.crc, 4);
    lemma_le_bytes_len(comp, 4);
    lemma_le_bytes_len(uncomp, 4);
    lemma_le_bytes_len(name.len(), 2);
    lemma_le_bytes_len(xlen, 2);
    lemma_le_bytes_len(local, 4);
    lemma_extra_len(e);
    if zip64 {
        lemma_occurs_split(b, pos, s14, zip64_extra(e));
    } else {
        assert(b.subrange(pos + s14.len(), pos + s14.len()) =~= seq![]);
    }
    assert(occurs(b, pos, s14));
    lemma_occurs_split(b, pos, s13, name);
    lemma_occurs_split(b, pos, s12, le_bytes(local, 4));
    lemma_occurs_split(b, pos, s11, zeros(8));
    lemma_occurs_split(b, pos, s10, zeros(2));
    lemma_occurs_split(b, pos, s9, le_bytes(xlen, 2));
    lemma_occurs_split(b, pos, s8, le_bytes(name.len(), 2));
    lemma_occurs_split(b, pos, s7, le_bytes(uncomp, 4));
    lemma_occurs_split(b, pos, s6, le_bytes(comp, 4));
    lemma_occurs_split(b, pos, s5, le_bytes(e.crc, 4));
    lemma_occurs_split(b, pos, s4, zeros(4));
    lemma_occurs_split(b, pos, s3, le_bytes(e.method, 2));
    lemma_occurs_split(b, pos, s2, le_bytes(e.flags, 2));
    lemma_occurs_split(b, pos, s1, le_bytes(20, 2));
    lemma_occurs_split(b, pos, s0, le_bytes(0x0314, 2));
    lemma_field(b, pos, 0x0201_4b50, 4);
    lemma_field(b, pos + 8, e.flags, 2);
    lemma_field(b, pos + 10, e.method, 2);
    lemma_field(b, pos + 20, comp, 4);
    lemma_field(b, pos + 24, uncomp, 4);
    lemma_field(b, pos + 28, name.len(), 2);
    lemma_field(b, pos + 30, xlen, 2);
    lemma_zero_field(b, pos + 32);
    lemma_field(b, pos + 42, local, 4);
}

proof fn lemma_zero_field(b: Seq<u8>, pos: int)
    requires
        occurs(b, pos, zeros(2)),
    ensures
        le(b, pos, 2) == 0,
{
    lemma_powers();
    reveal_with_fuel(le_bytes, 3);
    assert(zeros(2) =~= le_bytes(0, 2));
    lemma_field(b, pos, 0, 2);
}

proof fn lemma_extra_len(e: ZipEntryModel)
    ensures
        zip64_extra(e).len() == 28,
{
    lemma_le_bytes_len(1, 2);
    lemma_le_bytes_len(24, 2);
    lemma_le_bytes_len(e.uncomp_size, 8);
    lemma_le_bytes_len(e.comp_size, 8);
    lemma_le_bytes_len(e.local_offset, 8);
}

/// The ZIP64 extra field resolves all three sentinels.
proof fn lemma_extra_back(e: ZipEntryModel)
    requires
        entry_fits(e, true),
    ensures
        sizes_from(
            zip64_extra(e),
            0,
            Sizes { uncomp: 0xffff_ffff, comp: 0xffff_ffff, local: 0xffff_ffff },
        ) == (Sizes { uncomp: e.uncomp_size, comp: e.comp_size, local: e.local_offset }),
{
    lemma_powers();
    let x = zip64_extra(e);
    let s0 = le_bytes(1, 2);
    let s1 = s0 + le_bytes(24, 2);
    let s2 = s1 + le_bytes(e.uncomp_size, 8);
    let s3 = s2 + le_bytes(e.comp_size, 8);
    lemma_le_bytes_len(1, 2);
    lemma_le_bytes_len(24, 2);
    lemma_le_bytes_len(e.uncomp_size, 8);
    lemma_le_bytes_len(e.comp_size, 8);
    lemma_le_bytes_len(e.local_offset, 8);
    assert(x.subrange(0, x.len() as int) =~= x);
    assert(occurs(x, 0, s3 + le_bytes(e.local_offset, 8)));
    lemma_occurs_split(x, 0, s3, le_bytes(e.local_offset, 8));
    lemma_occurs_split(x, 0, s2, le_bytes(e.comp_size, 8));
    lemma_occurs_split(x, 0, s1, le_bytes(e.uncomp_size, 8));
    lemma_occurs_split(x, 0, s0, le_bytes(24, 2));
    lemma_field(x, 0, 1, 2);
    lemma_field(x, 2, 24, 2);
    let f = x.subrange(4, 28);
    assert(f.subrange(0, 8) =~= x.subrange(4, 12));
    assert(f.subrange(8, 16) =~= x.subrange(12, 20));
    assert(f.subrange(16, 24) =~= x.subrange(20, 28));
    lemma_field(f, 0, e.uncomp_size, 8);
    lemma_field(f, 8, e.comp_size, 8);
    lemma_field(f, 16, e.local_offset, 8);
    let s = Sizes { uncomp: 0xffff_ffff, comp: 0xffff_ffff, local: 0xffff_ffff };
    let r = Sizes { uncomp: e.uncomp_size, comp: e.comp_size, local: e.local_offset };
    assert(widen_sizes(f, s) == r);
    assert(sizes_from(x, 28, r) == r);
}

proof fn lemma_entry_back(cd: Seq<u8>, pos: int, e: ZipEntryModel, zip64: bool, i: nat)
    requires
        occurs(cd, pos, central_record(e, zip64)),
        entry_fits(e, zip64),
    ensures
        46 <= central_record(e, zip64).len(),
        entry_at(cd, pos, i) == Ok::<(MemberModel, int), Seq<char>>(
            (listed(e), pos + central_record(e, zip64).len()),
        ),
{
    let name = encode_utf8(e.name);
    lemma_central_fields(cd, pos, e, zip64);
    encode_utf8_valid_utf8(e.name);
    encode_utf8_decode_utf8(e.name);
    let name_end = pos + 46 + name.len();
    if zip64 {
        lemma_extra_len(e);
        lemma_extra_back(e);
        assert(cd.subrange(name_end, name_end + 28) == zip64_extra(e));
    } else {
        let none = cd.subrange(name_end, name_end);
        assert(none.len() == 0);
    }
    assert(cd.subrange(pos + 46, name_end) == name);
}

/// All entries are listed, in order.
proof fn lemma_entries_back(
    cd: Seq<u8>,
    es: Seq<ZipEntryModel>,
    n: nat,
    zip64: bool,
)
    requires
        n <= es.len(),
        occurs(cd, 0, central_records(es, n, zip64)),
        forall|i: int| 0 <= i < es.len() ==> entry_fits(#[trigger] es[i], zip64),
    ensures
        46 * n <= central_records(es, n, zip64).len(),
        entries_from(cd, 0, 0, es.len(), seq![]) == entries_from(
            cd,
            central_records(es, n, zip64).len() as int,
            n,
            es.len(),
            Seq::new(n, |i: int| listed(es[i])),
        ),
    decreases n,
{
    let acc = Seq::new(n, |i: int| listed(es[i]));
    if n == 0 {
        assert(acc =~= seq![]);
    } else {
        let m = (n - 1) as nat;
        let before = central_records(es, m, zip64);
        lemma_occurs_split(cd, 0, before, central_record(es[n - 1], zip64));
        lemma_entries_back(cd, es, m, zip64);
        assert(entry_fits(es[n - 1], zip64));
        lemma_entry_back(cd, before.len() as int, es[n - 1], zip64, m);
        assert(Seq::new(m, |i: int| listed(es[i])).push(listed(es[n - 1])) =~= acc);
    }
}

// ---------------------------------------------------------------------------
// Members
// ---------------------------------------------------------------------------

/// The entry of member `i`.
pub open spec fn written_entry(ms: Seq<NpzMember>, i: nat) -> ZipEntryModel {
    let m = ms[i as int];
    entry_of(
        npz_body(ms, i),
        m.name,
        member_method(m),
        crc_of(m.data) as nat,
        m.data.len(),
        member_payload(m),
    )
}

proof fn lemma_entries_written(ms: Seq<NpzMember>, n: nat)
    requires
        n <= ms.len(),
    ensures
        npz_entries(ms, n) == Seq::new(n, |i: int| written_entry(ms, i as nat)),
    decreases n,
{
    if n > 0 {
        lemma_entries_written(ms, (n - 1) as nat);
    }
    assert(npz_entries(ms, n) =~= Seq::new(n, |i: int| written_entry(ms, i as nat)));
}

/// The beginning of a payload gives the beginning of the content: as much of
/// it as a header can take.
proof fn lemma_content_back(m: NpzMember, e: MemberModel, bytes: Seq<u8>)
    requires
        e.method == member_method(m),
        e.uncomp_size == m.data.len(),
        ({
            let payload = member_payload(m);
            let limit = if m.deflate {
                MAX_COMP_READ as nat
            } else {
                wanted(e)
            };
            bytes == payload.take(min_nat(limit, payload.len()) as int)
        }),
    ensures
        header_in(e, bytes) == header_model(prefix_of(m.data)),
{
    if m.deflate {
        lemma_inflated_back(m.data, wanted(e), bytes);
    } else {
        assert(bytes =~= prefix_of(m.data));
    }
}

proof fn lemma_inflated_back(d: Seq<u8>, max: nat, bytes: Seq<u8>)
    requires
        max == min_nat(
            MAX_PREFIX as nat,
            if d.len() > 12 {
                d.len()
            } else {
                12
            },
        ),
        bytes == stored_stream(d).take(
            min_nat(MAX_COMP_READ as nat, stored_stream(d).len()) as int,
        ),
    ensures
        inflated(bytes, max) matches Ok((data, _)) && data == prefix_of(d),
{
    let stream = stored_stream(d);
    lemma_short_stream(d);
    if d.len() <= 2 * MAX_STORED {
        assert(bytes =~= stream);
        law_inflate_undoes_deflate(d, max);
        if d.len() >= max {
            assert(d.take(max as int) =~= prefix_of(d));
        }
    } else {
        assert(bytes =~= stream.take(bytes.len() as int));
        lemma_cut_stream(bytes, d, max);
        assert(d.take(max as int) =~= prefix_of(d));
    }
}

/// The header of a member is the header its content starts with.
proof fn lemma_member_back(b: Seq<u8>, ms: Seq<NpzMember>, i: nat)
    requires
        i < ms.len(),
        b.len() <= u64::MAX,
        encode_utf8(ms[i as int].name).len() <= u16::MAX,
        occurs(
            b,
            npz_body(ms, i).len() as int,
            local_record(
                ms[i as int].name,
                member_method(ms[i as int]),
                crc_of(ms[i as int].data) as nat,
                ms[i as int].data.len(),
                member_payload(ms[i as int]),
            ),
        ),
    ensures
        member_header(in_memory(b), b.len(), listed(written_entry(ms, i))) == header_model(
            prefix_of(ms[i as int].data),
        ),
{
    let m = ms[i as int];
    let e = listed(written_entry(ms, i));
    let pos = npz_body(ms, i).len() as int;
    let payload = member_payload(m);
    let f = in_memory(b);
    lemma_local_fields(
        b,
        pos,
        m.name,
        member_method(m),
        crc_of(m.data) as nat,
        m.data.len(),
        payload,
    );
    lemma_local_header(b, pos);
    let lh = b.subrange(pos, pos + 30);
    assert(f(pos as nat, 30) == Ok::<Seq<u8>, Seq<char>>(lh));
    let (off, n) = data_span(b.len(), e, lh);
    let limit = if m.deflate {
        MAX_COMP_READ as nat
    } else {
        wanted(e)
    };
    assert(off == pos + 30 + encode_utf8(m.name).len());
    assert(n == min_nat(limit, payload.len()));
    lemma_part_read(b, off, payload, n);
    lemma_content_back(m, e, payload.take(n as int));
}

/// The local header's fields, read from its thirty bytes.
proof fn lemma_local_header(b: Seq<u8>, pos: int)
    requires
        0 <= pos,
        pos + 30 <= b.len(),
    ensures
        le(b.subrange(pos, pos + 30), 0, 4) == le(b, pos, 4),
        le(b.subrange(pos, pos + 30), 26, 2) == le(b, pos + 26, 2),
        le(b.subrange(pos, pos + 30), 28, 2) == le(b, pos + 28, 2),
{
    let lh = b.subrange(pos, pos + 30);
    assert(lh.subrange(0, 4) =~= b.subrange(pos, pos + 4));
    lemma_le_window(lh, 0, b, pos, 4);
    assert(lh.subrange(26, 28) =~= b.subrange(pos + 26, pos + 28));
    lemma_le_window(lh, 26, b, pos + 26, 2);
    assert(lh.subrange(28, 30) =~= b.subrange(pos + 28, pos + 30));
    lemma_le_window(lh, 28, b, pos + 28, 2);
}

/// Reading the first `n` bytes of what stands at `off`.
proof fn lemma_part_read(b: Seq<u8>, off: nat, s: Seq<u8>, n: nat)
    requires
        occurs(b, off as int, s),
        n <= s.len(),
    ensures
        in_memory(b)(off, n) == Ok::<Seq<u8>, Seq<char>>(s.take(n as int)),
{
    lemma_occurs_part(b, off as int, s, 0, n as int);
    assert(s.subrange(0, n as int) =~= s.take(n as int));
    if n == 0 {
        assert(s.take(0) =~= seq![]);
    }
}

/// The tally of the first `n` members: each counted, and each array recorded
/// by the header its content starts with.
pub open spec fn written_tally(ms: Seq<NpzMember>, n: nat) -> TallyModel
    decreases n,
{
    if n == 0 || n > ms.len() {
        empty_tally()
    } else {
        let i = (n - 1) as nat;
        let m = listed(written_entry(ms, i));
        let c = counted(written_tally(ms, i), m);
        if wants_header(m) {
            recorded(c, m, header_model(prefix_of(ms[i as int].data)))
        } else {
            c
        }
    }
}

pub open spec fn listed_members(ms: Seq<NpzMember>) -> Seq<MemberModel> {
    Seq::new(ms.len(), |i: int| listed(written_entry(ms, i as nat)))
}

pub open spec fn names_fit(ms: Seq<NpzMember>) -> bool {
    forall|i: int| 0 <= i < ms.len() ==> encode_utf8((#[trigger] ms[i]).name).len() <= u16::MAX
}

proof fn lemma_tally_back(b: Seq<u8>, ms: Seq<NpzMember>, n: nat)
    requires
        n <= ms.len(),
        b.len() <= u64::MAX,
        names_fit(ms),
        occurs(b, 0, npz_body(ms, n)),
    ensures
        members_from(in_memory(b), b.len(), listed_members(ms), 0, empty_tally()) == members_from(
            in_memory(b),
            b.len(),
            listed_members(ms),
            n as int,
            written_tally(ms, n),
        ),
    decreases n,
{
    if n > 0 {
        let i = (n - 1) as nat;
        let m = ms[i as int];
        lemma_occurs_split(
            b,
            0,
            npz_body(ms, i),
            local_record(
                m.name,
                member_method(m),
                crc_of(m.data) as nat,
                m.data.len(),
                member_payload(m),
            ),
        );
        lemma_tally_back(b, ms, i);
        assert(encode_utf8(m.name).len() <= u16::MAX);
        lemma_member_back(b, ms, i);
    }
}

// ---------------------------------------------------------------------------
// The end of the archive
// ---------------------------------------------------------------------------

/// The fields of the end-of-central-directory record.
proof fn lemma_eocd_fields(b: Seq<u8>, pos: int, count: nat, size: nat, offset: nat, zip64: bool)
    requires
        occurs(b, pos, eocd_record(count, size, offset, zip64)),
        zip64 || (count <= u16::MAX && size <= u32::MAX && offset <= u32::MAX),
    ensures
        eocd_record(count, size, offset, zip64).len() == 22,
        le(b, pos, 4) == EOCD_SIG,
        le(b, pos + 8, 2) == (if zip64 {
            0xffff
        } else {
            count
        }),
        le(b, pos + 10, 2) == (if zip64 {
            0xffff
        } else {
            count
        }),
        le(b, pos + 12, 4) == short_field(size, zip64),
        le(b, pos + 16, 4) == short_field(offset, zip64),
        le(b, pos + 20, 2) == 0,
{
    lemma_powers();
    let n = if zip64 {
        0xffff
    } else {
        count
    };
    let s32 = short_field(size, zip64);
    let o32 = short_field(offset, zip64);
    let s0 = le_bytes(0x0605_4b50, 4);
    let s1 = s0 + zeros(4);
    let s2 = s1 + le_bytes(n, 2);
    let s3 = s2 + le_bytes(n, 2);
    let s4 = s3 + le_bytes(s32, 4);
    let s5 = s4 + le_bytes(o32, 4);
    lemma_le_bytes_len(0x0605_4b50, 4);
    lemma_le_bytes_len(n, 2);
    lemma_le_bytes_len(s32, 4);
    lemma_le_bytes_len(o32, 4);
    lemma_occurs_split(b, pos, s5, zeros(2));
    lemma_occurs_split(b, pos, s4, le_bytes(o32, 4));
    lemma_occurs_split(b, pos, s3, le_bytes(s32, 4));
    lemma_occurs_split(b, pos, s2, le_bytes(n, 2));
    lemma_occurs_split(b, pos, s1, le_bytes(n, 2));
    lemma_occurs_split(b, pos, s0, zeros(4));
    lemma_field(b, pos, 0x0605_4b50, 4);
    lemma_field(b, pos + 8, n, 2);
    lemma_field(b, pos + 10, n, 2);
    lemma_field(b, pos + 12, s32, 4);
    lemma_field(b, pos + 16, o32, 4);
    lemma_zero_field(b, pos + 20);
}

/// The fields of the ZIP64 record and of its locator.
proof fn lemma_trailer_fields(b: Seq<u8>, pos: int, count: nat, size: nat, offset: nat)
    requires
        occurs(b, pos, zip64_trailer(count, size, offset)),
        count <= u64::MAX,
        offset + size <= u64::MAX,
    ensures
        zip64_trailer(count, size, offset).len() == 76,
        le(b, pos, 4) == EOCD64_SIG,
        le(b, pos + 32, 8) == count,
        le(b, pos + 40, 8) == size,
        le(b, pos + 48, 8) == offset,
        le(b, pos + 56, 4) == EOCD64_LOCATOR_SIG,
        le(b, pos + 64, 8) == offset + size,
{
    lemma_powers();
    let s0 = le_bytes(0x0606_4b50, 4);
    let s1 = s0 + le_bytes(44, 8);
    let s2 = s1 + le_bytes(0x032d, 2);
    let s3 = s2 + le_bytes(45, 2);
    let s4 = s3 + zeros(8);
    let s5 = s4 + le_bytes(count, 8);
    let s6 = s5 + le_bytes(count, 8);
    let s7 = s6 + le_bytes(size, 8);
    let s8 = s7 + le_bytes(offset, 8);
    let s9 = s8 + le_bytes(0x0706_4b50, 4);
    let s10 = s9 + zeros(4);
    let s11 = s10 + le_bytes(offset + size, 8);
    lemma_le_bytes_len(0x0606_4b50, 4);
    lemma_le_bytes_len(44, 8);
    lemma_le_bytes_len(0x032d, 2);
    lemma_le_bytes_len(45, 2);
    lemma_le_bytes_len(count, 8);
    lemma_le_bytes_len(size, 8);
    lemma_le_bytes_len(offset, 8);
    lemma_le_bytes_len(0x0706_4b50, 4);
    lemma_le_bytes_len(offset + size, 8);
    lemma_le_bytes_len(1, 4);
    lemma_occurs_split(b, pos, s11, le_bytes(1, 4));
    lemma_occurs_split(b, pos, s10, le_bytes(offset + size, 8));
    lemma_occurs_split(b, pos, s9, zeros(4));
    lemma_occurs_split(b, pos, s8, le_bytes(0x0706_4b50, 4));
    lemma_occurs_split(b, pos, s7, le_bytes(offset, 8));
    lemma_occurs_split(b, pos, s6, le_bytes(size, 8));
    lemma_occurs_split(b, pos, s5, le_bytes(count, 8));
    lemma_occurs_split(b, pos, s4, le_bytes(count, 8));
    lemma_occurs_split(b, pos, s3, zeros(8));
    lemma_occurs_split(b, pos, s2, le_bytes(45, 2));
    lemma_occurs_split(b, pos, s1, le_bytes(0x032d, 2));
    lemma_occurs_split(b, pos, s0, le_bytes(44, 8));
    lemma_field(b, pos, 0x0606_4b50, 4);
    lemma_field(b, pos + 32, count, 8);
    lemma_field(b, pos + 40, size, 8);
    lemma_field(b, pos + 48, offset, 8);
    lemma_field(b, pos + 56, 0x0706_4b50, 4);
    lemma_field(b, pos + 64, offset + size, 8);
}

/// A field read through a window on the file.
proof fn lemma_window_field(b: Seq<u8>, start: int, end: int, k: int, n: nat)
    requires
        0 <= start <= end <= b.len(),
        0 <= k,
        start + k + n <= end,
    ensures
        le(b.subrange(start, end), k, n) == le(b, start + k, n),
{
    let w = b.subrange(start, end);
    assert(w.subrange(k, k + n) =~= b.subrange(start + k, start + k + n));
    lemma_le_window(w, k, b, start + k, n);
}

/// The directory's numbers fit in the records that hold them. Without ZIP64
/// records they stay below the sentinels.
pub open spec fn directory_fits(count: nat, size: nat, offset: nat, zip64: bool) -> bool {
    &&& size <= MAX_CDIR
    &&& offset + size <= u64::MAX
    &&& !zip64 ==> count < 0xffff && offset < 0xffff_ffff
}

/// Where the records at the end of an archive stand.
proof fn lemma_archive_parts(buf: Seq<u8>, es: Seq<ZipEntryModel>, zip64: bool)
    requires
        directory_fits(
            es.len(),
            central_records(es, es.len(), zip64).len(),
            buf.len(),
            zip64,
        ),
        es.len() <= u64::MAX,
    ensures
        ({
            let b = archive(buf, es, zip64);
            let cd = central_records(es, es.len(), zip64);
            let end = (buf.len() + cd.len()) as int;
            &&& occurs(b, 0, buf)
            &&& occurs(b, buf.len() as int, cd)
            &&& zip64 ==> occurs(b, end, zip64_trailer(es.len(), cd.len(), buf.len()))
            &&& b.len() == end + (if zip64 {
                98int
            } else {
                22
            })
            &&& occurs(b, b.len() - 22, eocd_record(es.len(), cd.len(), buf.len(), zip64))
        }),
{
    let b = archive(buf, es, zip64);
    let cd = central_records(es, es.len(), zip64);
    let trailer = if zip64 {
        zip64_trailer(es.len(), cd.len(), buf.len())
    } else {
        seq![]
    };
    let eocd = eocd_record(es.len(), cd.len(), buf.len(), zip64);
    assert(b == buf + cd + trailer + eocd);
    assert(b.subrange(0, b.len() as int) =~= b);
    lemma_occurs_split(b, 0, buf + cd + trailer, eocd);
    lemma_occurs_split(b, 0, buf + cd, trailer);
    lemma_occurs_split(b, 0, buf, cd);
    lemma_eocd_fields(
        b,
        (buf + cd + trailer).len() as int,
        es.len(),
        cd.len(),
        buf.len(),
        zip64,
    );
    if zip64 {
        lemma_trailer_fields(b, (buf + cd).len() as int, es.len(), cd.len(), buf.len());
    }
}

/// The end-of-central-directory record is found, and what it declares.
proof fn lemma_tail_back(b: Seq<u8>, count: nat, size: nat, offset: nat, zip64: bool)
    requires
        22 <= b.len(),
        occurs(b, b.len() - 22, eocd_record(count, size, offset, zip64)),
        zip64 || (count <= u16::MAX && size <= u32::MAX && offset <= u32::MAX),
    ensures
        ({
            let scan = scan_len(b.len());
            let tail = b.subrange(b.len() - scan, b.len() as int);
            &&& 22 <= scan <= b.len()
            &&& in_memory(b)((b.len() - scan) as nat, scan) == Ok::<Seq<u8>, Seq<char>>(tail)
            &&& eocd_in(tail) == Some(scan - 22)
            &&& declared(tail, scan - 22) == if zip64 {
                Directory {
                    entries: 0xffff,
                    size: 0xffff_ffff,
                    offset: 0xffff_ffff,
                    zip64: false,
                }
            } else {
                Directory {
                    entries: count as u64,
                    size: size as u64,
                    offset: offset as u64,
                    zip64: false,
                }
            }
        }),
{
    let n = b.len() as int;
    let scan = scan_len(b.len());
    let start = n - scan;
    let tail = b.subrange(start, n);
    let pos = scan - 22;
    lemma_eocd_fields(b, n - 22, count, size, offset, zip64);
    lemma_window_field(b, start, n, pos, 4);
    lemma_window_field(b, start, n, pos + 10, 2);
    lemma_window_field(b, start, n, pos + 12, 4);
    lemma_window_field(b, start, n, pos + 16, 4);
    lemma_window_field(b, start, n, pos + 20, 2);
    assert(is_eocd(tail, pos));
}

/// The ZIP64 records lead to the directory.
proof fn lemma_zip64_back(
    b: Seq<u8>,
    end: int,
    count: nat,
    size: nat,
    offset: nat,
    path: Seq<char>,
)
    requires
        occurs(b, end, zip64_trailer(count, size, offset)),
        end == offset + size,
        count <= u64::MAX,
        offset + size <= u64::MAX,
    ensures
        ({
            let d = Directory {
                entries: count as u64,
                size: size as u64,
                offset: offset as u64,
                zip64: true,
            };
            let loc = b.subrange(end + 56, end + 76);
            &&& in_memory(b)((end + 56) as nat, 20) == Ok::<Seq<u8>, Seq<char>>(loc)
            &&& after_locator(in_memory(b), b.len(), path, loc) == after_directory(
                in_memory(b),
                b.len(),
                path,
                d,
            )
        }),
{
    lemma_trailer_fields(b, end, count, size, offset);
    lemma_locator_fields(b, end);
    lemma_record_fields(b, end);
}

/// The locator's fields, read from its twenty bytes.
proof fn lemma_locator_fields(b: Seq<u8>, end: int)
    requires
        0 <= end,
        end + 76 <= b.len(),
    ensures
        in_memory(b)((end + 56) as nat, 20) == Ok::<Seq<u8>, Seq<char>>(
            b.subrange(end + 56, end + 76),
        ),
        le(b.subrange(end + 56, end + 76), 0, 4) == le(b, end + 56, 4),
        le(b.subrange(end + 56, end + 76), 8, 8) == le(b, end + 64, 8),
{
    lemma_window_field(b, end + 56, end + 76, 0, 4);
    lemma_window_field(b, end + 56, end + 76, 8, 8);
}

/// The record's fields, read from its 56 bytes.
proof fn lemma_record_fields(b: Seq<u8>, end: int)
    requires
        0 <= end,
        end + 76 <= b.len(),
    ensures
        in_memory(b)(end as nat, 56) == Ok::<Seq<u8>, Seq<char>>(b.subrange(end, end + 56)),
        le(b.subrange(end, end + 56), 0, 4) == le(b, end, 4),
        le(b.subrange(end, end + 56), 32, 8) == le(b, end + 32, 8),
        le(b.subrange(end, end + 56), 40, 8) == le(b, end + 40, 8),
        le(b.subrange(end, end + 56), 48, 8) == le(b, end + 48, 8),
{
    lemma_window_field(b, end, end + 56, 0, 4);
    lemma_window_field(b, end, end + 56, 32, 8);
    lemma_window_field(b, end, end + 56, 40, 8);
    lemma_window_field(b, end, end + 56, 48, 8);
}

/// The directory is found, by way of the ZIP64 records where there are some.
#[verifier::rlimit(50)]
proof fn lemma_directory_back(
    buf: Seq<u8>,
    es: Seq<ZipEntryModel>,
    zip64: bool,
    path: Seq<char>,
)
    requires
        directory_fits(
            es.len(),
            central_records(es, es.len(), zip64).len(),
            buf.len(),
            zip64,
        ),
        es.len() <= u64::MAX,
    ensures
        ({
            let b = archive(buf, es, zip64);
            let d = Directory {
                entries: es.len() as u64,
                size: central_records(es, es.len(), zip64).len() as u64,
                offset: buf.len() as u64,
                zip64,
            };
            parse_model(in_memory(b), b.len(), path) == after_directory(
                in_memory(b),
                b.len(),
                path,
                d,
            )
        }),
{
    let b = archive(buf, es, zip64);
    let cd = central_records(es, es.len(), zip64);
    lemma_archive_parts(buf, es, zip64);
    lemma_tail_back(b, es.len(), cd.len(), buf.len(), zip64);
    if zip64 {
        let end = (buf.len() + cd.len()) as int;
        lemma_zip64_back(b, end, es.len(), cd.len(), buf.len(), path);
    }
}

/// What is written is read back, with or without ZIP64 records: every member
/// under its name and in order, and every array by the very header its content
/// starts with, whether it was stored or deflated. Left out are archives whose
/// numbers do not fit in their fields, and directories larger than any that is
/// read.
pub proof fn law_npz_reads_back(ms: Seq<NpzMember>, zip64: bool, path: Seq<char>)
    requires
        names_fit(ms),
        forall|i: int|
            0 <= i < ms.len() ==> entry_fits(#[trigger] npz_entries(ms, ms.len())[i], zip64),
        directory_fits(
            ms.len(),
            central_records(npz_entries(ms, ms.len()), ms.len(), zip64).len(),
            npz_body(ms, ms.len()).len(),
            zip64,
        ),
        archive(npz_body(ms, ms.len()), npz_entries(ms, ms.len()), zip64).len() <= u64::MAX,
    ensures
        ({
            let es = npz_entries(ms, ms.len());
            let body = npz_body(ms, ms.len());
            let b = archive(body, es, zip64);
            let d = Directory {
                entries: ms.len() as u64,
                size: central_records(es, ms.len(), zip64).len() as u64,
                offset: body.len() as u64,
                zip64,
            };
            parse_model(in_memory(b), b.len(), path) == Ok::<ReportModel, Seq<char>>(
                report_of(path, b.len(), d, ms.len(), written_tally(ms, ms.len())),
            )
        }),
{
    let es = npz_entries(ms, ms.len());
    let body = npz_body(ms, ms.len());
    let b = archive(body, es, zip64);
    let cd = central_records(es, ms.len(), zip64);
    let d = Directory {
        entries: ms.len() as u64,
        size: cd.len() as u64,
        offset: body.len() as u64,
        zip64,
    };
    lemma_listing_back(ms, zip64);
    lemma_archive_parts(body, es, zip64);
    lemma_directory_back(body, es, zip64, path);
    assert(directory_error(b.len(), d) is None);
    lemma_part_read(b, body.len(), cd, cd.len());
    assert(cd.take(cd.len() as int) =~= cd);
    lemma_tally_back(b, ms, ms.len());
    assert(after_listing(in_memory(b), b.len(), path, d, cd) == Ok::<ReportModel, Seq<char>>(
        report_of(path, b.len(), d, ms.len(), written_tally(ms, ms.len())),
    ));
}

/// The directory lists every member.
proof fn lemma_listing_back(ms: Seq<NpzMember>, zip64: bool)
    requires
        forall|i: int|
            0 <= i < ms.len() ==> entry_fits(#[trigger] npz_entries(ms, ms.len())[i], zip64),
    ensures
        ({
            let es = npz_entries(ms, ms.len());
            let cd = central_records(es, ms.len(), zip64);
            &&& es.len() == ms.len()
            &&& 46 * ms.len() <= cd.len()
            &&& entries_from(cd, 0, 0, ms.len(), seq![]) == Ok::<Seq<MemberModel>, Seq<char>>(
                listed_members(ms),
            )
        }),
{
    let es = npz_entries(ms, ms.len());
    let cd = central_records(es, ms.len(), zip64);
    lemma_entries_written(ms, ms.len());
    assert(cd.subrange(0, cd.len() as int) =~= cd);
    lemma_entries_back(cd, es, ms.len(), zip64);
    let listing = Seq::new(ms.len(), |i: int| listed(es[i]));
    assert(listing =~= listed_members(ms));
}

// ---------------------------------------------------------------------------
// Archives of arrays and other files
// ---------------------------------------------------------------------------

/// A member is taken for an array by its name.
pub open spec fn is_array(m: NpzMember) -> bool {
    ends_with(m.name, ".npy"@)
}

/// A member that holds a whole array with nothing wrong with it.
pub open spec fn is_sound(m: NpzMember) -> bool {
    header_model(prefix_of(m.data)) matches Ok(h) && h.problems == Seq::<Seq<char>>::empty()
        && h.header_total <= m.data.len() && data_size(h.shape, h.itemsize) == Some(
        (m.data.len() - h.header_total) as nat,
    )
}

/// The tensor of a sound array.
pub open spec fn array_tensor(m: NpzMember) -> TensorModel {
    member_tensor(
        MemberModel {
            name: m.name,
            method: member_method(m),
            flags: 0,
            comp_size: member_payload(m).len(),
            uncomp_size: m.data.len(),
            local_offset: 0,
        },
        header_model(prefix_of(m.data))->Ok_0,
    )
}

pub open spec fn array_tensors(ms: Seq<NpzMember>) -> Seq<TensorModel> {
    ms.filter(|m: NpzMember| is_array(m)).map_values(|m: NpzMember| array_tensor(m))
}

pub open spec fn other_names(ms: Seq<NpzMember>) -> Seq<Seq<char>> {
    ms.filter(|m: NpzMember| !is_array(m)).map_values(|m: NpzMember| m.name)
}

pub open spec fn how_many(ms: Seq<NpzMember>, deflate: bool) -> nat {
    ms.filter(|m: NpzMember| m.deflate == deflate).len()
}

/// Bytes of all payloads.
pub open spec fn payload_total(ms: Seq<NpzMember>) -> nat
    decreases ms.len(),
{
    if ms.len() == 0 {
        0
    } else {
        payload_total(ms.drop_last()) + member_payload(ms.last()).len()
    }
}

/// What the reader makes of members all of whose arrays are sound.
pub open spec fn sound_tally(ms: Seq<NpzMember>) -> TallyModel {
    TallyModel {
        stored: how_many(ms, false),
        deflated: how_many(ms, true),
        others: other_names(ms),
        data_bytes: min_nat(payload_total(ms), u64::MAX as nat),
        tensors: array_tensors(ms),
        problems: seq![],
    }
}

/// One more member.
proof fn lemma_selected_step(ms: Seq<NpzMember>, m: NpzMember)
    ensures
        array_tensors(ms.push(m)) == (if is_array(m) {
            array_tensors(ms).push(array_tensor(m))
        } else {
            array_tensors(ms)
        }),
        other_names(ms.push(m)) == (if is_array(m) {
            other_names(ms)
        } else {
            other_names(ms).push(m.name)
        }),
        how_many(ms.push(m), true) == how_many(ms, true) + (if m.deflate {
            1nat
        } else {
            0
        }),
        how_many(ms.push(m), false) == how_many(ms, false) + (if m.deflate {
            0nat
        } else {
            1
        }),
        payload_total(ms.push(m)) == payload_total(ms) + member_payload(m).len(),
{
    reveal(Seq::filter);
    assert(ms.push(m).drop_last() =~= ms);
    let arrays = |m: NpzMember| is_array(m);
    let others = |m: NpzMember| !is_array(m);
    assert(array_tensors(ms.push(m)) =~= if is_array(m) {
        array_tensors(ms).push(array_tensor(m))
    } else {
        array_tensors(ms)
    }) by {
        assert(ms.push(m).filter(arrays) == if is_array(m) {
            ms.filter(arrays).push(m)
        } else {
            ms.filter(arrays)
        });
    }
    assert(other_names(ms.push(m)) =~= if is_array(m) {
        other_names(ms)
    } else {
        other_names(ms).push(m.name)
    }) by {
        assert(ms.push(m).filter(others) == if is_array(m) {
            ms.filter(others)
        } else {
            ms.filter(others).push(m)
        });
    }
}

proof fn lemma_sound_tally(ms: Seq<NpzMember>, n: nat)
    requires
        n <= ms.len(),
        forall|i: int| 0 <= i < ms.len() && is_array(#[trigger] ms[i]) ==> is_sound(ms[i]),
    ensures
        written_tally(ms, n) == sound_tally(ms.take(n as int)),
    decreases n,
{
    if n == 0 {
        reveal(Seq::filter);
        let none = ms.take(0);
        assert(array_tensors(none) =~= seq![]);
        assert(other_names(none) =~= seq![]);
        assert(written_tally(ms, 0) =~= sound_tally(none));
    } else {
        let k = (n - 1) as nat;
        let m = ms[k as int];
        lemma_sound_tally(ms, k);
        assert(ms.take(n as int) =~= ms.take(k as int).push(m));
        lemma_selected_step(ms.take(k as int), m);
        let e = listed(written_entry(ms, k));
        assert(member_problems(e) =~= seq![]);
        let c = counted(written_tally(ms, k), e);
        assert(c.problems =~= seq![]);
        if is_array(m) {
            assert(is_sound(m));
            let h = header_model(prefix_of(m.data))->Ok_0;
            assert(named_problems(m.name, h.problems) =~= seq![]);
            assert(member_tensor(e, h) == array_tensor(m));
        }
        assert(written_tally(ms, n) =~= sound_tally(ms.take(n as int)));
    }
}

/// An archive whose arrays are sound has no problem. Its tensors are the
/// members named `.npy`, and the other files are all the others, each in
/// order; every member, whatever its name, counts as stored or deflated; and
/// the data is the sum of all payloads.
pub proof fn law_sound_arrays_have_no_problem(ms: Seq<NpzMember>)
    requires
        forall|i: int| 0 <= i < ms.len() && is_array(#[trigger] ms[i]) ==> is_sound(ms[i]),
    ensures
        written_tally(ms, ms.len()) == sound_tally(ms),
{
    lemma_sound_tally(ms, ms.len());
    assert(ms.take(ms.len() as int) =~= ms);
}

/// A member that holds a written array is sound, and its tensor has the shape
/// that was written and the member's name without the suffix.
pub proof fn law_written_array_is_sound(
    m: NpzMember,
    descr: Seq<char>,
    fortran: bool,
    shape: Seq<u64>,
)
    requires
        npy_writable(descr, shape),
        plain(descr),
        dims_fit(shape),
        npy_padded(encode_utf8(npy_dict(descr, fortran, shape)), 10).len() <= u16::MAX,
        m.data == npy_file(descr, fortran, shape),
    ensures
        is_sound(m),
        array_tensor(m).name == m.name.take(m.name.len() - 4),
        array_tensor(m).shape == shape,
        descr_of(descr) matches Some((dtype, _, _)) && array_tensor(m).dtype == dtype,
        array_tensor(m).bytes == npy_data_len(descr, shape),
{
    lemma_npy_header(descr, fortran, shape);
}

/// The numbers of a small archive fit in their fields, in either form.
proof fn lemma_small_archive(ms: Seq<NpzMember>, zip64: bool)
    requires
        names_fit(ms),
        ms.len() < 0xffff,
        archive(npz_body(ms, ms.len()), npz_entries(ms, ms.len()), zip64).len() <= MAX_CDIR,
    ensures
        forall|i: int|
            0 <= i < ms.len() ==> entry_fits(#[trigger] npz_entries(ms, ms.len())[i], zip64),
        directory_fits(
            ms.len(),
            central_records(npz_entries(ms, ms.len()), ms.len(), zip64).len(),
            npz_body(ms, ms.len()).len(),
            zip64,
        ),
{
    let es = npz_entries(ms, ms.len());
    lemma_entries_written(ms, ms.len());
    assert forall|i: int| 0 <= i < ms.len() implies entry_fits(#[trigger] es[i], zip64) by {
        assert(encode_utf8(ms[i].name).len() <= u16::MAX);
        assert(es[i] == written_entry(ms, i as nat));
        lemma_body_covers(ms, i as nat, ms.len());
    }
}

/// A member's payload and content are no longer than what was written.
proof fn lemma_body_covers(ms: Seq<NpzMember>, i: nat, n: nat)
    requires
        i < n <= ms.len(),
    ensures
        npz_body(ms, i).len() <= npz_body(ms, n).len(),
        member_payload(ms[i as int]).len() <= npz_body(ms, n).len(),
        ms[i as int].data.len() <= npz_body(ms, n).len(),
    decreases n,
{
    if i + 1 < n {
        lemma_body_covers(ms, i, (n - 1) as nat);
    } else {
        lemma_stream_covers(ms[i as int].data);
    }
}

/// What is read of an archive of written arrays and other files, of up to
/// 64 MiB, with or without ZIP64 records: no problem, the arrays as tensors,
/// the other files by name, all of them counted. `arrays` says what each member
/// named `.npy` holds.
pub proof fn law_written_arrays_beside_other_files(
    ms: Seq<NpzMember>,
    arrays: Seq<(Seq<char>, bool, Seq<u64>)>,
    zip64: bool,
    path: Seq<char>,
)
    requires
        names_fit(ms),
        ms.len() < 0xffff,
        archive(npz_body(ms, ms.len()), npz_entries(ms, ms.len()), zip64).len() <= MAX_CDIR,
        arrays.len() == ms.len(),
        forall|i: int|
            0 <= i < ms.len() && is_array(#[trigger] ms[i]) ==> holds(
                ms[i],
                arrays[i].0,
                arrays[i].1,
                arrays[i].2,
            ),
    ensures
        ({
            let b = archive(npz_body(ms, ms.len()), npz_entries(ms, ms.len()), zip64);
            parse_model(in_memory(b), b.len(), path) matches Ok(r) && r.problems == Seq::<
                Seq<char>,
            >::empty() && r.tensors == array_tensors(ms) && r.data_bytes == payload_total(ms)
                && r.details == Doc::Obj(
                seq![
                    ("members"@, Doc::Int(ms.len() as int)),
                    ("zip64"@, Doc::Bool(zip64)),
                    ("stored"@, Doc::Int(how_many(ms, false) as int)),
                    ("deflated"@, Doc::Int(how_many(ms, true) as int)),
                    ("other_files"@, Doc::Arr(str_docs(other_names(ms)))),
                ],
            )
        }),
        forall|i: int|
            0 <= i < ms.len() && is_array(#[trigger] ms[i]) ==> array_tensor(ms[i]).name
                == ms[i].name.take(ms[i].name.len() - 4) && array_tensor(ms[i]).shape
                == arrays[i].2,
{
    assert forall|i: int| 0 <= i < ms.len() && is_array(#[trigger] ms[i]) implies is_sound(ms[i])
        && array_tensor(ms[i]).name == ms[i].name.take(ms[i].name.len() - 4) && array_tensor(
        ms[i],
    ).shape == arrays[i].2 by {
        law_written_array_is_sound(ms[i], arrays[i].0, arrays[i].1, arrays[i].2);
    }
    lemma_small_archive(ms, zip64);
    law_npz_reads_back(ms, zip64, path);
    law_sound_arrays_have_no_problem(ms);
    lemma_payloads_within(ms, ms.len());
    assert(ms.take(ms.len() as int) =~= ms);
}

/// A member holds an array as `npy` writes it.
pub open spec fn holds(m: NpzMember, descr: Seq<char>, fortran: bool, shape: Seq<u64>) -> bool {
    &&& npy_writable(descr, shape)
    &&& plain(descr)
    &&& dims_fit(shape)
    &&& npy_padded(encode_utf8(npy_dict(descr, fortran, shape)), 10).len() <= u16::MAX
    &&& m.data == npy_file(descr, fortran, shape)
}

/// The payloads are part of what was written.
proof fn lemma_payloads_within(ms: Seq<NpzMember>, n: nat)
    requires
        n <= ms.len(),
    ensures
        payload_total(ms.take(n as int)) <= npz_body(ms, n).len(),
    decreases n,
{
    if n > 0 {
        let k = (n - 1) as nat;
        lemma_payloads_within(ms, k);
        assert(ms.take(n as int).drop_last() =~= ms.take(k as int));
    }
}

// ---------------------------------------------------------------------------
// The two forms of an archive
// ---------------------------------------------------------------------------

/// Bytes the first `n` entries of the directory take.
pub open spec fn directory_len(es: Seq<ZipEntryModel>, n: nat, zip64: bool) -> nat
    decreases n,
{
    if n == 0 || n > es.len() {
        0
    } else {
        directory_len(es, (n - 1) as nat, zip64) + 46 + encode_utf8(es[n - 1].name).len() + (
        if zip64 {
            28nat
        } else {
            0
        })
    }
}

proof fn lemma_central_len(e: ZipEntryModel, zip64: bool)
    ensures
        central_record(e, zip64).len() == 46 + encode_utf8(e.name).len() + (if zip64 {
            28nat
        } else {
            0
        }),
{
    lemma_le_bytes_len(0x0201_4b50, 4);
    lemma_le_bytes_len(0x0314, 2);
    lemma_le_bytes_len(20, 2);
    lemma_le_bytes_len(e.flags, 2);
    lemma_le_bytes_len(e.method, 2);
    lemma_le_bytes_len(e.crc, 4);
    lemma_le_bytes_len(short_field(e.comp_size, zip64), 4);
    lemma_le_bytes_len(short_field(e.uncomp_size, zip64), 4);
    lemma_le_bytes_len(encode_utf8(e.name).len(), 2);
    lemma_le_bytes_len(28, 2);
    lemma_le_bytes_len(0, 2);
    lemma_le_bytes_len(short_field(e.local_offset, zip64), 4);
    lemma_extra_len(e);
}

proof fn lemma_directory_len(es: Seq<ZipEntryModel>, n: nat, zip64: bool)
    requires
        n <= es.len(),
    ensures
        central_records(es, n, zip64).len() == directory_len(es, n, zip64),
    decreases n,
{
    if n > 0 {
        lemma_directory_len(es, (n - 1) as nat, zip64);
        lemma_central_len(es[n - 1], zip64);
    }
}

proof fn lemma_directory_forms(es: Seq<ZipEntryModel>, n: nat)
    requires
        n <= es.len(),
    ensures
        directory_len(es, n, true) == directory_len(es, n, false) + 28 * n,
    decreases n,
{
    if n > 0 {
        lemma_directory_forms(es, (n - 1) as nat);
    }
}

proof fn lemma_trailer_len(count: nat, size: nat, offset: nat)
    ensures
        zip64_trailer(count, size, offset).len() == 76,
{
    lemma_le_bytes_len(0x0606_4b50, 4);
    lemma_le_bytes_len(44, 8);
    lemma_le_bytes_len(0x032d, 2);
    lemma_le_bytes_len(45, 2);
    lemma_le_bytes_len(count, 8);
    lemma_le_bytes_len(size, 8);
    lemma_le_bytes_len(offset, 8);
    lemma_le_bytes_len(0x0706_4b50, 4);
    lemma_le_bytes_len(offset + size, 8);
    lemma_le_bytes_len(1, 4);
}

proof fn lemma_eocd_len(count: nat, size: nat, offset: nat, zip64: bool)
    ensures
        eocd_record(count, size, offset, zip64).len() == 22,
{
    let n = if zip64 {
        0xffff
    } else {
        count
    };
    lemma_le_bytes_len(0x0605_4b50, 4);
    lemma_le_bytes_len(n, 2);
    lemma_le_bytes_len(short_field(size, zip64), 4);
    lemma_le_bytes_len(short_field(offset, zip64), 4);
}

/// Where entry `i` of the directory stands.
proof fn lemma_entry_place(b: Seq<u8>, pos: int, es: Seq<ZipEntryModel>, n: nat, i: nat, zip64: bool)
    requires
        i < n <= es.len(),
        occurs(b, pos, central_records(es, n, zip64)),
    ensures
        occurs(b, pos + directory_len(es, i, zip64), central_record(es[i as int], zip64)),
    decreases n,
{
    let m = (n - 1) as nat;
    lemma_occurs_split(b, pos, central_records(es, m, zip64), central_record(es[n - 1], zip64));
    if i < m {
        lemma_entry_place(b, pos, es, m, i, zip64);
    } else {
        lemma_directory_len(es, m, zip64);
    }
}

/// The numbers of an entry's ZIP64 extra field.
proof fn lemma_extra_fields(b: Seq<u8>, pos: int, e: ZipEntryModel)
    requires
        occurs(b, pos, zip64_extra(e)),
        entry_fits(e, true),
    ensures
        le(b, pos, 2) == 1,
        le(b, pos + 2, 2) == 24,
        le(b, pos + 4, 8) == e.uncomp_size,
        le(b, pos + 12, 8) == e.comp_size,
        le(b, pos + 20, 8) == e.local_offset,
{
    lemma_powers();
    let s0 = le_bytes(1, 2);
    let s1 = s0 + le_bytes(24, 2);
    let s2 = s1 + le_bytes(e.uncomp_size, 8);
    let s3 = s2 + le_bytes(e.comp_size, 8);
    lemma_le_bytes_len(1, 2);
    lemma_le_bytes_len(24, 2);
    lemma_le_bytes_len(e.uncomp_size, 8);
    lemma_le_bytes_len(e.comp_size, 8);
    lemma_occurs_split(b, pos, s3, le_bytes(e.local_offset, 8));
    lemma_occurs_split(b, pos, s2, le_bytes(e.comp_size, 8));
    lemma_occurs_split(b, pos, s1, le_bytes(e.uncomp_size, 8));
    lemma_occurs_split(b, pos, s0, le_bytes(24, 2));
    lemma_field(b, pos, 1, 2);
    lemma_field(b, pos + 2, 24, 2);
    lemma_field(b, pos + 4, e.uncomp_size, 8);
    lemma_field(b, pos + 12, e.comp_size, 8);
    lemma_field(b, pos + 20, e.local_offset, 8);
}

/// An entry of a ZIP64 directory at `pos`: its sizes and offset are all ones,
/// and its extra field holds the real ones.
pub open spec fn defers_to_extra(b: Seq<u8>, pos: int, e: ZipEntryModel) -> bool {
    let extra = pos + 46 + encode_utf8(e.name).len();
    &&& le(b, pos, 4) == CDIR_SIG
    &&& le(b, pos + 20, 4) == 0xffff_ffff
    &&& le(b, pos + 24, 4) == 0xffff_ffff
    &&& le(b, pos + 42, 4) == 0xffff_ffff
    &&& le(b, pos + 30, 2) == 28
    &&& le(b, extra, 2) == 1
    &&& le(b, extra + 2, 2) == 24
    &&& le(b, extra + 4, 8) == e.uncomp_size
    &&& le(b, extra + 12, 8) == e.comp_size
    &&& le(b, extra + 20, 8) == e.local_offset
}

/// Where the directory and the end record of an archive stand.
proof fn lemma_form_parts(buf: Seq<u8>, es: Seq<ZipEntryModel>, zip64: bool)
    ensures
        ({
            let b = archive(buf, es, zip64);
            let cd = central_records(es, es.len(), zip64);
            &&& b.take(buf.len() as int) == buf
            &&& occurs(b, buf.len() as int, cd)
            &&& b.len() == buf.len() + directory_len(es, es.len(), zip64) + (if zip64 {
                98nat
            } else {
                22
            })
            &&& occurs(b, b.len() - 22, eocd_record(es.len(), cd.len(), buf.len(), zip64))
        }),
{
    let b = archive(buf, es, zip64);
    let cd = central_records(es, es.len(), zip64);
    let trailer = if zip64 {
        zip64_trailer(es.len(), cd.len(), buf.len())
    } else {
        seq![]
    };
    let eocd = eocd_record(es.len(), cd.len(), buf.len(), zip64);
    lemma_directory_len(es, es.len(), zip64);
    lemma_trailer_len(es.len(), cd.len(), buf.len());
    lemma_eocd_len(es.len(), cd.len(), buf.len(), zip64);
    assert(b == buf + cd + trailer + eocd);
    assert(b.subrange(0, b.len() as int) =~= b);
    lemma_occurs_split(b, 0, buf + cd + trailer, eocd);
    lemma_occurs_split(b, 0, buf + cd, trailer);
    lemma_occurs_split(b, 0, buf, cd);
    assert(b.take(buf.len() as int) =~= b.subrange(0, buf.len() as int));
}

/// The plain and the ZIP64 form of an archive hold the same members: both
/// start with the same local records. The plain form takes 46 bytes and the
/// name for each entry and 22 bytes at the end; the ZIP64 form takes 28 bytes
/// more for each entry and 76 at the end. In it every size, offset and count of
/// the directory and of the end record is all ones, and the extra field of each
/// entry holds its real sizes and offset.
pub proof fn law_zip64_form(buf: Seq<u8>, es: Seq<ZipEntryModel>)
    requires
        forall|i: int| 0 <= i < es.len() ==> entry_fits(#[trigger] es[i], true),
    ensures
        ({
            let plain = archive(buf, es, false);
            let wide = archive(buf, es, true);
            let end = wide.len() - 22;
            &&& plain.take(buf.len() as int) == buf
            &&& wide.take(buf.len() as int) == buf
            &&& plain.len() == buf.len() + directory_len(es, es.len(), false) + 22
            &&& wide.len() == plain.len() + 28 * es.len() + 76
            &&& forall|i: int|
                0 <= i < es.len() ==> defers_to_extra(
                    wide,
                    buf.len() as int + directory_len(es, i as nat, true),
                    #[trigger] es[i],
                )
            &&& le(wide, end, 4) == EOCD_SIG
            &&& le(wide, end + 8, 2) == 0xffff
            &&& le(wide, end + 10, 2) == 0xffff
            &&& le(wide, end + 12, 4) == 0xffff_ffff
            &&& le(wide, end + 16, 4) == 0xffff_ffff
        }),
{
    let wide = archive(buf, es, true);
    let cd = central_records(es, es.len(), true);
    lemma_form_parts(buf, es, false);
    lemma_form_parts(buf, es, true);
    lemma_directory_forms(es, es.len());
    lemma_eocd_fields(wide, wide.len() - 22, es.len(), cd.len(), buf.len(), true);
    assert forall|i: int| 0 <= i < es.len() implies defers_to_extra(
        wide,
        buf.len() as int + directory_len(es, i as nat, true),
        #[trigger] es[i],
    ) by {
        let pos = buf.len() as int + directory_len(es, i as nat, true);
        lemma_entry_place(wide, buf.len() as int, es, es.len(), i as nat, true);
        assert(entry_fits(es[i], true));
        lemma_central_fields(wide, pos, es[i], true);
        lemma_extra_len(es[i]);
        lemma_extra_fields(wide, pos + 46 + encode_utf8(es[i].name).len(), es[i]);
    }
}

} // verus!
