//! From writer to report: a written file, inspected with no hint as to its
//! format and under any name, gives the report on what was written.

use vstd::prelude::*;
use vstd::utf8::*;
use crate::builder::{archive, central_records, gguf_file, gguf_header, gguf_writable, npy_dict, npy_file, npy_padded, npy_writable, npz_body, npz_entries, st_file, st_header_bytes, st_writable, GgufTensor, GvModel, NpzMember, StTensor};
use crate::bytes::lemma_le_bytes_len;
use crate::cli::{inspected, sniffed};
use crate::gguf;
use crate::json::Doc;
use crate::laws::archives::{directory_fits, entry_fits, law_npz_reads_back, names_fit, written_tally};
use crate::laws::arrays::{dims_fit, law_npy_reads_back, plain, written_header};
use crate::laws::checkpoints::{law_safetensors_read_back, proper_names, written_report};
use crate::laws::models::{asks_for, described_tensors, law_gguf_reads_back, metadata_fits, shown_metadata, table_fits, table_problems};
use crate::laws::recognition::{law_gguf_is_recognized, law_npy_is_recognized, law_npz_is_recognized, law_safetensors_is_recognized};
use crate::npy;
use crate::npz;
use crate::report::ReportModel;
use crate::safetensors::{is_string_map, MAX_HEADER};
use crate::sniff::{detected, Format};

verus! {

/// A written safetensors file is inspected as what it is.
pub proof fn law_written_safetensors_inspected(
    ts: Seq<StTensor>,
    metadata: Seq<(Seq<char>, Doc)>,
    path: Seq<char>,
    limit: nat,
)
    requires
        st_writable(ts),
        proper_names(ts),
        is_string_map(Doc::Obj(metadata)),
        st_header_bytes(ts, metadata).len() <= MAX_HEADER,
        st_header_bytes(ts, metadata).len() != 0x0403_4b50,
        st_header_bytes(ts, metadata).len() != 0x0605_4b50,
    ensures
        inspected(st_file(ts, metadata), path, None, limit) == Ok::<
            ReportModel,
            (int, Seq<char>),
        >(written_report(ts, metadata, st_file(ts, metadata).len(), path)),
        written_report(ts, metadata, st_file(ts, metadata).len(), path).problems == Seq::<
            Seq<char>,
        >::empty(),
{
    let f = st_file(ts, metadata);
    law_safetensors_is_recognized(ts, metadata, path);
    lemma_le_bytes_len(st_header_bytes(ts, metadata).len(), 8);
    law_safetensors_read_back(ts, metadata, f.len(), path);
    assert(f.take(f.len() as int) =~= f);
}

/// A written npy file is inspected as what it is.
pub proof fn law_written_npy_inspected(
    descr: Seq<char>,
    fortran: bool,
    shape: Seq<u64>,
    path: Seq<char>,
    limit: nat,
)
    requires
        npy_writable(descr, shape),
        plain(descr),
        dims_fit(shape),
        npy_padded(encode_utf8(npy_dict(descr, fortran, shape)), 10).len() <= u16::MAX,
    ensures
        ({
            let f = npy_file(descr, fortran, shape);
            let r = npy::report_of(path, f.len(), written_header(1, 10, descr, fortran, shape));
            &&& inspected(f, path, None, limit) == Ok::<ReportModel, (int, Seq<char>)>(r)
            &&& r.problems == Seq::<Seq<char>>::empty()
        }),
{
    let f = npy_file(descr, fortran, shape);
    let h = written_header(1, 10, descr, fortran, shape);
    law_npy_is_recognized(descr, fortran, shape, path);
    lemma_npy_len(descr, fortran, shape);
    law_npy_reads_back(descr, fortran, shape, f.len(), path);
    lemma_npy_inspected(f, path, limit, npy::report_of(path, f.len(), h));
}

/// A written npy file is at least as long as its header.
proof fn lemma_npy_len(descr: Seq<char>, fortran: bool, shape: Seq<u64>)
    ensures
        written_header(1, 10, descr, fortran, shape).header_total <= npy_file(
            descr,
            fortran,
            shape,
        ).len(),
{
    let dict = npy_padded(encode_utf8(npy_dict(descr, fortran, shape)), 10);
    lemma_le_bytes_len(dict.len(), 2);
}

proof fn lemma_npy_inspected(f: Seq<u8>, path: Seq<char>, limit: nat, r: ReportModel)
    requires
        detected(sniffed(f), f.len(), path) == Some(Format::Npy),
        npy::parse_model(f.take(f.len() as int), f.len(), path) == Ok::<ReportModel, Seq<char>>(r),
    ensures
        inspected(f, path, None, limit) == Ok::<ReportModel, (int, Seq<char>)>(r),
{
    assert(f.take(f.len() as int) =~= f);
}

/// A written GGUF file is inspected as what it is.
pub proof fn law_written_gguf_inspected(
    kvs: Seq<(Seq<char>, GvModel)>,
    ts: Seq<GgufTensor>,
    a: nat,
    path: Seq<char>,
    limit: nat,
)
    requires
        gguf_writable(ts, a),
        metadata_fits(kvs),
        table_fits(ts),
        asks_for(shown_metadata(kvs, kvs.len(), limit), a),
        gguf_file(kvs, ts, a).len() <= u64::MAX,
    ensures
        ({
            let f = gguf_file(kvs, ts, a);
            let r = gguf::report_of(
                path,
                f.len(),
                3,
                gguf_header(kvs, ts, a).len(),
                shown_metadata(kvs, kvs.len(), limit),
                described_tensors(ts, ts.len(), a),
                table_problems(ts, ts.len()),
            );
            &&& inspected(f, path, None, limit) == Ok::<ReportModel, (int, Seq<char>)>(r)
            &&& r.problems == table_problems(ts, ts.len())
        }),
{
    let f = gguf_file(kvs, ts, a);
    law_gguf_is_recognized(kvs, ts, a, path);
    law_gguf_reads_back(kvs, ts, a, f.len(), f.len(), path, limit);
    assert(f.take(f.len() as int) =~= f);
}

/// A written npz archive is inspected as what it is.
pub proof fn law_written_npz_inspected(
    ms: Seq<NpzMember>,
    zip64: bool,
    path: Seq<char>,
    limit: nat,
)
    requires
        ms.len() > 0 || !zip64,
        names_fit(ms),
        forall|i: int|
            0 <= i < ms.len() ==> entry_fits(#[trigger] npz_entries(ms, ms.len())[i], zip64),
        directory_fits(
            ms.len(),
            central_records(npz_entries(ms, ms.len()), ms.len(), zip64).len(),
            npz_body(ms, ms.len()).len(),
            zip64,
        ),
        archive(npz_body(ms, ms.len()), npz_entries(ms, ms.len()), zip64).len() <= u64::MAX,
    ensures
        ({
            let es = npz_entries(ms, ms.len());
            let body = npz_body(ms, ms.len());
            let f = archive(body, es, zip64);
            let d = npz::Directory {
                entries: ms.len() as u64,
                size: central_records(es, ms.len(), zip64).len() as u64,
                offset: body.len() as u64,
                zip64,
            };
            inspected(f, path, None, limit) == Ok::<ReportModel, (int, Seq<char>)>(
                npz::report_of(path, f.len(), d, ms.len(), written_tally(ms, ms.len())),
            )
        }),
{
    law_npz_is_recognized(ms, zip64, path);
    law_npz_reads_back(ms, zip64, path);
}

} // verus!
