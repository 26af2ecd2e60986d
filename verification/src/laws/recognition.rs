//! Every written file is recognized for what it is.

use vstd::prelude::*;
use vstd::utf8::*;
use crate::ascii::LBRACE;
use crate::builder::{archive, central_records, crc_of, eocd_record, gguf_file, local_record, member_method, member_payload, npy_file, npy_v2_file, npz_body, npz_entries, padding, st_file, st_header, st_header_bytes, GgufTensor, GvModel, NpzMember, StTensor};
use crate::cli::sniffed;
use crate::bytes::{le, le_bytes, lemma_le_bytes_len, lemma_le_round_trip, pow256};
use crate::json::{written, Doc};
use crate::laws::layout::{lemma_encode_concat, lemma_encode_one};
use crate::npy::MAGIC;
use crate::safetensors::MAX_HEADER;
use crate::sniff::{detected, magic_format, Format};

verus! {

/// A written GGUF file is recognized, whatever its name.
pub proof fn law_gguf_is_recognized(
    kvs: Seq<(Seq<char>, GvModel)>,
    ts: Seq<GgufTensor>,
    a: nat,
    path: Seq<char>,
)
    ensures
        detected(
            sniffed(gguf_file(kvs, ts, a)),
            gguf_file(kvs, ts, a).len(),
            path,
        ) == Some(Format::Gguf),
{
    let f = gguf_file(kvs, ts, a);
    let magic = seq![0x47u8, 0x47, 0x55, 0x46];
    assert(sniffed(f).take(4) =~= magic);
}

/// A written npy file of either version is recognized, whatever its name.
pub proof fn law_npy_is_recognized(
    descr: Seq<char>,
    fortran: bool,
    shape: Seq<u64>,
    path: Seq<char>,
)
    ensures
        detected(
            sniffed(npy_file(descr, fortran, shape)),
            npy_file(descr, fortran, shape).len(),
            path,
        ) == Some(Format::Npy),
        detected(
            sniffed(npy_v2_file(descr, fortran, shape)),
            npy_v2_file(descr, fortran, shape).len(),
            path,
        ) == Some(Format::Npy),
{
    lemma_npy_magic(npy_file(descr, fortran, shape));
    lemma_npy_magic(npy_v2_file(descr, fortran, shape));
}

proof fn lemma_npy_magic(f: Seq<u8>)
    requires
        f.len() >= 6,
        f.take(6) =~= MAGIC@,
    ensures
        magic_format(sniffed(f)) == Some(Format::Npy),
{
    assert(MAGIC@.len() == 6);
    assert(MAGIC@[0] == 0x93);
    let p = sniffed(f);
    assert(p.take(6) =~= MAGIC@);
    assert(f.take(6)[0] == f[0]);
    assert(p.take(4)[0] == p[0]);
}

/// The signatures as they stand in a file.
proof fn lemma_signatures()
    ensures
        le_bytes(0x0403_4b50, 4) == seq![0x50u8, 0x4b, 3, 4],
        le_bytes(0x0605_4b50, 4) == seq![0x50u8, 0x4b, 5, 6],
{
    reveal_with_fuel(le_bytes, 5);
    assert(le_bytes(0x0403_4b50, 4) =~= seq![0x50u8, 0x4b, 3, 4]);
    assert(le_bytes(0x0605_4b50, 4) =~= seq![0x50u8, 0x4b, 5, 6]);
}

proof fn lemma_npz_magic(f: Seq<u8>)
    requires
        f.len() >= 4,
        f.take(4) == seq![0x50u8, 0x4b, 3, 4] || f.take(4) == seq![0x50u8, 0x4b, 5, 6],
    ensures
        magic_format(sniffed(f)) == Some(Format::Npz),
{
    let p = sniffed(f);
    assert(p.take(4) =~= f.take(4));
    assert(p.take(4)[0] == 0x50);
    assert(MAGIC@[0] == 0x93 && MAGIC@.len() == 6);
    if p.len() >= 6 {
        assert(p.take(6)[0] == p.take(4)[0]);
    }
}

/// A written npz archive is recognized, whatever its name: by its first
/// member, or by the end record it starts with when it has no member. Left
/// out are archives that start with a ZIP64 record.
pub proof fn law_npz_is_recognized(ms: Seq<NpzMember>, zip64: bool, path: Seq<char>)
    requires
        ms.len() > 0 || !zip64,
    ensures
        ({
            let f = archive(npz_body(ms, ms.len()), npz_entries(ms, ms.len()), zip64);
            detected(sniffed(f), f.len(), path) == Some(Format::Npz)
        }),
{
    let body = npz_body(ms, ms.len());
    let es = npz_entries(ms, ms.len());
    let f = archive(body, es, zip64);
    lemma_signatures();
    if ms.len() > 0 {
        lemma_body_starts(ms, ms.len());
        assert(f.take(4) =~= body.take(4));
    } else {
        let eocd = eocd_record(0, 0, 0, false);
        assert(body =~= seq![]);
        assert(central_records(es, es.len(), zip64) =~= seq![]);
        assert(f =~= eocd);
        assert(eocd.take(4) =~= le_bytes(0x0605_4b50, 4));
    }
    lemma_npz_magic(f);
}

proof fn lemma_body_starts(ms: Seq<NpzMember>, n: nat)
    requires
        0 < n <= ms.len(),
    ensures
        npz_body(ms, n).len() >= 4,
        npz_body(ms, n).take(4) == le_bytes(0x0403_4b50, 4),
    decreases n,
{
    let m = (n - 1) as nat;
    lemma_le_bytes_len(0x0403_4b50, 4);
    if m == 0 {
        let t = ms[0];
        let r = local_record(
            t.name,
            member_method(t),
            crc_of(t.data) as nat,
            t.data.len(),
            member_payload(t),
        );
        assert(npz_body(ms, 0) =~= seq![]);
        assert(npz_body(ms, n) =~= r);
        assert(r.take(4) =~= le_bytes(0x0403_4b50, 4));
    } else {
        lemma_body_starts(ms, m);
        assert(npz_body(ms, n).take(4) =~= npz_body(ms, m).take(4));
    }
}

/// A written safetensors file is recognized, whatever its name. Left out are
/// headers longer than the format allows, and those whose very length spells
/// the signature of a ZIP archive.
pub proof fn law_safetensors_is_recognized(
    ts: Seq<StTensor>,
    metadata: Seq<(Seq<char>, Doc)>,
    path: Seq<char>,
)
    requires
        st_header_bytes(ts, metadata).len() <= MAX_HEADER,
        st_header_bytes(ts, metadata).len() != 0x0403_4b50,
        st_header_bytes(ts, metadata).len() != 0x0605_4b50,
    ensures
        detected(
            sniffed(st_file(ts, metadata)),
            st_file(ts, metadata).len(),
            path,
        ) == Some(Format::Safetensors),
{
    let f = st_file(ts, metadata);
    let header = st_header_bytes(ts, metadata);
    let n = header.len();
    lemma_le_bytes_len(n, 8);
    lemma_header_starts(ts, metadata);
    let p = sniffed(f);
    assert(p.subrange(0, 8) =~= le_bytes(n, 8));
    assert(n < pow256(8)) by {
        reveal_with_fuel(pow256, 9);
    }
    lemma_le_round_trip(p, 0, n, 8);
    assert(p[8] == header[0]);
    lemma_length_bytes(p, n);
}

proof fn lemma_header_starts(ts: Seq<StTensor>, metadata: Seq<(Seq<char>, Doc)>)
    ensures
        st_header_bytes(ts, metadata).len() >= 8,
        st_header_bytes(ts, metadata)[0] == LBRACE,
{
    let v = st_header(ts, metadata);
    let text = written(v, None);
    let rest = text.skip(1);
    assert(text[0] == '{');
    assert(text =~= seq!['{'] + rest);
    lemma_encode_concat(seq!['{'], rest);
    lemma_encode_one('{');
    let e = encode_utf8(text);
    assert(e[0] == LBRACE);
    assert(e.len() + padding(e.len(), 8) >= 8);
}

/// A length up to the cap spells no magic number but the two left out.
proof fn lemma_length_bytes(p: Seq<u8>, n: nat)
    requires
        p.len() >= 8,
        le(p, 0, 8) == n,
        n <= MAX_HEADER,
        n != 0x0403_4b50,
        n != 0x0605_4b50,
    ensures
        magic_format(p) is None,
{
    reveal_with_fuel(le, 9);
    assert(MAGIC@.len() == 6);
    let low = le(p, 0, 4);
    assert(p[4] == 0 && p[5] == 0 && p[6] == 0 && p[7] == 0 && low == n) by {
        reveal_with_fuel(pow256, 9);
    }
    assert(low == p[0] + 256 * (p[1] + 256 * (p[2] + 256 * p[3]))) by {
        reveal_with_fuel(pow256, 9);
    }
    assert(p.take(4)[0] == p[0] && p.take(4)[1] == p[1] && p.take(4)[2] == p[2] && p.take(4)[3]
        == p[3]);
    let gguf = seq![0x47u8, 0x47, 0x55, 0x46];
    assert(gguf[3] == 0x46);
    let local = seq![0x50u8, 0x4b, 3, 4];
    assert(local[0] == 0x50 && local[1] == 0x4b && local[2] == 3 && local[3] == 4);
    let eocd = seq![0x50u8, 0x4b, 5, 6];
    assert(eocd[0] == 0x50 && eocd[1] == 0x4b && eocd[2] == 5 && eocd[3] == 6);
    assert(p.take(6)[4] == 0 && MAGIC@[4] == 0x50);
}

} // verus!
