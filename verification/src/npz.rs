//! NumPy `.npz` parser. An npz file is a ZIP archive of `.npy` members, so
//! this module is a purpose-built ZIP reader: it locates the end-of-central-
//! directory record (ZIP64-aware), walks the central directory, and pulls
//! just enough of each member — decompressing a bounded prefix with the
//! in-repo DEFLATE decoder when the archive was written by
//! `np.savez_compressed` — to parse every member's npy header.
//!
//! The archive is read out of order, so the parser is a state machine:
//! [`Walk::request`] names the bytes it needs next, [`Walk::supply`] takes
//! them, and [`Walk::finish`] hands out the report. [`parse`] drives it over
//! a file that is already in memory.

use vstd::prelude::*;
use vstd::slice::slice_subrange;
use vstd::string::*;
use crate::bytes::{le, u16le, u32le, u64le};
use crate::inflate::{inflate_prefix, inflated};
use crate::json::{lemma_view_arr, lemma_view_obj, members_of, Doc, Json};
use crate::npy::{data_size, header_model, parse_header, sat_sub, NpyHeader, NpyModel, MAX_PREFIX};
use crate::report::{empty_report, min_nat, put_member, put_text, str_docs, tensor_model, text_list, tensors_of, texts, PeekError, Report, ReportModel, Tensor, TensorModel};
use crate::text::{chars_end_with, chars_of, dec, ends_with, lossy, put_dec, text_in, text_of};

verus! {

pub const EOCD_SIG: u32 = 0x0605_4b50;

pub const EOCD64_SIG: u32 = 0x0606_4b50;

pub const EOCD64_LOCATOR_SIG: u32 = 0x0706_4b50;

pub const CDIR_SIG: u32 = 0x0201_4b50;

pub const LOCAL_SIG: u32 = 0x0403_4b50;

/// A ZIP comment can be up to 65535 bytes, so the EOCD may sit that far from
/// the end of the file.
pub const EOCD_SCAN: u64 = 22 + 65535;

/// Central directories beyond this are not real-world npz files.
pub const MAX_CDIR: u64 = 67108864;

/// Compressed bytes budget per member when hunting for the npy header.
pub const MAX_COMP_READ: u64 = 4194304;

/// The message of a read that runs past the end of the file.
pub const SHORT_READ: &'static str = "I/O error: failed to fill whole buffer";

/// A file that can be read at any place: offset and length to bytes, or to
/// the message of the failure.
pub type Source = spec_fn(nat, nat) -> Result<Seq<u8>, Seq<char>>;

/// A file whose bytes are `b`.
pub open spec fn in_memory(b: Seq<u8>) -> Source {
    |off: nat, n: nat|
        if n == 0 {
            Ok(seq![])
        } else if off + n <= b.len() {
            Ok(b.subrange(off as int, (off + n) as int))
        } else {
            Err(SHORT_READ@)
        }
}

// ---------------------------------------------------------------------------
// Records
// ---------------------------------------------------------------------------

/// Where the central directory lies and what it declares.
#[derive(Debug, Clone, Copy)]
pub struct Directory {
    pub entries: u64,
    pub size: u64,
    pub offset: u64,
    pub zip64: bool,
}

/// One member as the central directory describes it.
#[derive(Debug)]
pub struct Member {
    pub name: String,
    pub method: u16,
    pub flags: u16,
    pub comp_size: u64,
    pub uncomp_size: u64,
    pub local_offset: u64,
}

#[verifier::ext_equal]
pub struct MemberModel {
    pub name: Seq<char>,
    pub method: nat,
    pub flags: nat,
    pub comp_size: nat,
    pub uncomp_size: nat,
    pub local_offset: nat,
}

impl View for Member {
    type V = MemberModel;

    open spec fn view(&self) -> MemberModel {
        MemberModel {
            name: self.name@,
            method: self.method as nat,
            flags: self.flags as nat,
            comp_size: self.comp_size as nat,
            uncomp_size: self.uncomp_size as nat,
            local_offset: self.local_offset as nat,
        }
    }
}

pub open spec fn member_models(ms: Seq<Member>) -> Seq<MemberModel> {
    Seq::new(ms.len(), |i: int| ms[i]@)
}

/// An end-of-central-directory record whose comment reaches exactly to the
/// end of the file.
pub open spec fn is_eocd(tail: Seq<u8>, pos: int) -> bool {
    le(tail, pos, 4) == EOCD_SIG && pos + 22 + le(tail, pos + 20, 2) == tail.len()
}

/// The last such record at or before `pos`.
pub open spec fn eocd_before(tail: Seq<u8>, pos: int) -> Option<int>
    decreases pos + 1,
{
    if pos < 0 {
        None
    } else if is_eocd(tail, pos) {
        Some(pos)
    } else {
        eocd_before(tail, pos - 1)
    }
}

/// The end-of-central-directory record: the one closest to the end is the
/// real one.
pub open spec fn eocd_in(tail: Seq<u8>) -> Option<int> {
    eocd_before(tail, tail.len() - 22)
}

/// Why a central directory cannot be the one of a file of `flen` bytes.
pub open spec fn directory_error(flen: nat, d: Directory) -> Option<Seq<char>> {
    if d.size > MAX_CDIR || d.offset + d.size > flen {
        Some(
            "central directory ("@ + dec(d.size as nat) + " bytes at offset "@ + dec(
                d.offset as nat,
            ) + ") does not fit the file"@,
        )
    } else if d.entries > d.size / 46 {
        Some(
            "central directory declares "@ + dec(d.entries as nat)
                + " entries, which cannot fit in "@ + dec(d.size as nat) + " bytes"@,
        )
    } else {
        None
    }
}

/// Uncompressed size, compressed size and local header offset.
pub struct Sizes {
    pub uncomp: nat,
    pub comp: nat,
    pub local: nat,
}

/// The 64-bit values of a ZIP64 extra field replace the sizes that hold the
/// 32-bit sentinel, in a fixed order.
pub open spec fn widen_sizes(f: Seq<u8>, s: Sizes) -> Sizes {
    let a: int = if s.uncomp == 0xffff_ffff && f.len() >= 8 {
        8
    } else {
        0
    };
    let b: int = if s.comp == 0xffff_ffff && f.len() >= a + 8 {
        a + 8
    } else {
        a
    };
    Sizes {
        uncomp: if a > 0 {
            le(f, 0, 8)
        } else {
            s.uncomp
        },
        comp: if b > a {
            le(f, a, 8)
        } else {
            s.comp
        },
        local: if s.local == 0xffff_ffff && f.len() >= b + 8 {
            le(f, b, 8)
        } else {
            s.local
        },
    }
}

/// The sizes after the extra fields of `x` from `p` on.
pub open spec fn sizes_from(x: Seq<u8>, p: int, s: Sizes) -> Sizes
    decreases x.len() - p,
{
    if p + 4 > x.len() {
        s
    } else {
        let end = p + 4 + le(x, p + 2, 2);
        if end > x.len() {
            s
        } else {
            sizes_from(
                x,
                end,
                if le(x, p, 2) == 1 {
                    widen_sizes(x.subrange(p + 4, end), s)
                } else {
                    s
                },
            )
        }
    }
}

/// Entry `i` of the central directory, at `pos`, and where it ends.
pub open spec fn entry_at(cd: Seq<u8>, pos: int, i: nat) -> Result<(MemberModel, int), Seq<char>> {
    if pos + 46 > cd.len() || le(cd, pos, 4) != CDIR_SIG {
        Err("central directory entry #"@ + dec(i) + " is corrupt"@)
    } else {
        let name_end = pos + 46 + le(cd, pos + 28, 2);
        let extra_end = name_end + le(cd, pos + 30, 2);
        let end = extra_end + le(cd, pos + 32, 2);
        if end > cd.len() {
            Err("central directory entry #"@ + dec(i) + " runs past the directory"@)
        } else {
            let s = sizes_from(
                cd.subrange(name_end, extra_end),
                0,
                Sizes {
                    uncomp: le(cd, pos + 24, 4),
                    comp: le(cd, pos + 20, 4),
                    local: le(cd, pos + 42, 4),
                },
            );
            Ok(
                (
                    MemberModel {
                        name: text_in(cd.subrange(pos + 46, name_end)),
                        method: le(cd, pos + 10, 2),
                        flags: le(cd, pos + 8, 2),
                        comp_size: s.comp,
                        uncomp_size: s.uncomp,
                        local_offset: s.local,
                    },
                    end,
                ),
            )
        }
    }
}

/// The entries of the central directory from entry `i` of `n`, at `pos`, on.
pub open spec fn entries_from(
    cd: Seq<u8>,
    pos: int,
    i: nat,
    n: nat,
    acc: Seq<MemberModel>,
) -> Result<Seq<MemberModel>, Seq<char>>
    decreases n - i,
{
    if i >= n {
        Ok(acc)
    } else {
        match entry_at(cd, pos, i) {
            Err(e) => Err(e),
            Ok((m, end)) => entries_from(cd, end, i + 1, n, acc.push(m)),
        }
    }
}

// ---------------------------------------------------------------------------
// Members
// ---------------------------------------------------------------------------

/// What has been learned from the members.
#[verifier::ext_equal]
pub struct TallyModel {
    pub stored: nat,
    pub deflated: nat,
    pub others: Seq<Seq<char>>,
    pub data_bytes: nat,
    pub tensors: Seq<TensorModel>,
    pub problems: Seq<Seq<char>>,
}

pub open spec fn empty_tally() -> TallyModel {
    TallyModel {
        stored: 0,
        deflated: 0,
        others: seq![],
        data_bytes: 0,
        tensors: seq![],
        problems: seq![],
    }
}

/// Whether a member's npy header is worth reading.
pub open spec fn wants_header(m: MemberModel) -> bool {
    (m.method == 0 || m.method == 8) && ends_with(m.name, ".npy"@) && m.flags % 2 == 0
}

/// What is wrong with a member whatever it holds: how it is compressed, and
/// that it is encrypted.
pub open spec fn member_problems(m: MemberModel) -> Seq<Seq<char>> {
    let exotic = if m.method != 0 && m.method != 8 {
        seq!["member '"@ + m.name + "' uses unsupported compression method "@ + dec(m.method)]
    } else {
        seq![]
    };
    if m.flags % 2 == 1 {
        exotic.push("member '"@ + m.name + "' is encrypted"@)
    } else {
        exotic
    }
}

/// Count a member, list it when it is no array, and note what keeps it from
/// being read.
pub open spec fn counted(t: TallyModel, m: MemberModel) -> TallyModel {
    TallyModel {
        data_bytes: min_nat(t.data_bytes + m.comp_size, u64::MAX as nat),
        stored: if m.method == 0 {
            t.stored + 1
        } else {
            t.stored
        },
        deflated: if m.method == 8 {
            t.deflated + 1
        } else {
            t.deflated
        },
        others: if ends_with(m.name, ".npy"@) {
            t.others
        } else {
            t.others.push(m.name)
        },
        problems: t.problems + member_problems(m),
        tensors: t.tensors,
    }
}

/// The problems of a member's header, each with the member's name.
pub open spec fn named_problems(name: Seq<char>, probs: Seq<Seq<char>>) -> Seq<Seq<char>> {
    Seq::new(probs.len(), |i: int| "member '"@ + name + "': "@ + probs[i])
}

/// The tensor a member holds, by its header.
pub open spec fn member_tensor(m: MemberModel, h: NpyModel) -> TensorModel {
    let bytes = match data_size(h.shape, h.itemsize) {
        Some(n) => n,
        None => sat_sub(m.uncomp_size, h.header_total),
    };
    TensorModel {
        extra: seq![
            ("member"@, Doc::Str(m.name)),
            (
                "compression"@,
                Doc::Str(
                    if m.method == 8 {
                        "deflate"@
                    } else {
                        "stored"@
                    },
                ),
            ),
            ("compressed_bytes"@, Doc::Int(m.comp_size as int)),
        ],
        ..tensor_model(
            m.name.take(m.name.len() - 4),
            h.dtype,
            h.shape,
            h.header_total,
            bytes,
        )
    }
}

/// Add what a member's header says, or why it could not be read.
pub open spec fn recorded(
    t: TallyModel,
    m: MemberModel,
    header: Result<NpyModel, Seq<char>>,
) -> TallyModel {
    match header {
        Err(e) => TallyModel {
            problems: t.problems.push("member '"@ + m.name + "': "@ + e),
            ..t
        },
        Ok(h) => {
            let noted = t.problems + named_problems(m.name, h.problems);
            TallyModel {
                problems: match data_size(h.shape, h.itemsize) {
                    Some(d) => if d + h.header_total != m.uncomp_size {
                        noted.push(
                            "member '"@ + m.name + "': npy header promises "@ + dec(
                                d + h.header_total,
                            ) + " bytes but the archive stores "@ + dec(m.uncomp_size)
                                + " — corrupt or truncated member"@,
                        )
                    } else {
                        noted
                    },
                    None => noted,
                },
                tensors: t.tensors.push(member_tensor(m, h)),
                ..t
            }
        },
    }
}

/// How much of a member's content is enough for its header.
pub open spec fn wanted(m: MemberModel) -> nat {
    min_nat(
        MAX_PREFIX as nat,
        if m.uncomp_size > 12 {
            m.uncomp_size
        } else {
            12
        },
    )
}

/// Where a member's data starts, by its local header, and how much of it to
/// read.
pub open spec fn data_span(flen: nat, m: MemberModel, lh: Seq<u8>) -> (nat, nat) {
    let off = min_nat(m.local_offset + 30 + le(lh, 26, 2) + le(lh, 28, 2), u64::MAX as nat);
    let limit = if m.method == 8 {
        MAX_COMP_READ as nat
    } else {
        wanted(m)
    };
    (off, min_nat(min_nat(limit, m.comp_size), sat_sub(flen, off)))
}

/// The npy header in the bytes a member's data starts with.
pub open spec fn header_in(m: MemberModel, bytes: Seq<u8>) -> Result<NpyModel, Seq<char>> {
    if m.method == 8 {
        match inflated(bytes, wanted(m)) {
            Err(e) => Err("deflate stream is corrupt: "@ + e),
            Ok((data, _)) => header_model(data),
        }
    } else {
        header_model(bytes)
    }
}

/// The npy header of a member whose local header is `lh`.
pub open spec fn header_after(
    f: Source,
    flen: nat,
    m: MemberModel,
    lh: Seq<u8>,
) -> Result<NpyModel, Seq<char>> {
    if le(lh, 0, 4) != LOCAL_SIG {
        Err("local file header signature mismatch"@)
    } else {
        let (off, n) = data_span(flen, m, lh);
        match f(off, n) {
            Err(e) => Err(e),
            Ok(bytes) => header_in(m, bytes),
        }
    }
}

/// The npy header of a member, read from just enough of it.
pub open spec fn member_header(f: Source, flen: nat, m: MemberModel) -> Result<
    NpyModel,
    Seq<char>,
> {
    if m.local_offset + 30 > flen {
        Err("local header offset is out of bounds"@)
    } else {
        match f(m.local_offset, 30) {
            Err(e) => Err(e),
            Ok(lh) => header_after(f, flen, m, lh),
        }
    }
}

/// The tally after the members from `i` on.
pub open spec fn members_from(
    f: Source,
    flen: nat,
    ms: Seq<MemberModel>,
    i: int,
    t: TallyModel,
) -> TallyModel
    decreases ms.len() - i,
{
    if !(0 <= i < ms.len()) {
        t
    } else {
        let c = counted(t, ms[i]);
        members_from(
            f,
            flen,
            ms,
            i + 1,
            if wants_header(ms[i]) {
                recorded(c, ms[i], member_header(f, flen, ms[i]))
            } else {
                c
            },
        )
    }
}

/// The report on an archive.
pub open spec fn report_of(
    path: Seq<char>,
    flen: nat,
    d: Directory,
    count: nat,
    t: TallyModel,
) -> ReportModel {
    ReportModel {
        header_bytes: sat_sub(flen, d.offset as nat),
        data_bytes: t.data_bytes,
        details: Doc::Obj(
            seq![
                ("members"@, Doc::Int(count as int)),
                ("zip64"@, Doc::Bool(d.zip64)),
                ("stored"@, Doc::Int(t.stored as int)),
                ("deflated"@, Doc::Int(t.deflated as int)),
                ("other_files"@, Doc::Arr(str_docs(t.others))),
            ],
        ),
        tensors: t.tensors,
        problems: t.problems,
        ..empty_report(path, "npz"@, flen)
    }
}

// ---------------------------------------------------------------------------
// The whole archive
// ---------------------------------------------------------------------------

pub open spec fn after_listing(
    f: Source,
    flen: nat,
    path: Seq<char>,
    d: Directory,
    cd: Seq<u8>,
) -> Result<ReportModel, Seq<char>> {
    match entries_from(cd, 0, 0, d.entries as nat, seq![]) {
        Err(e) => Err(e),
        Ok(ms) => Ok(
            report_of(path, flen, d, ms.len(), members_from(f, flen, ms, 0, empty_tally())),
        ),
    }
}

pub open spec fn after_directory(f: Source, flen: nat, path: Seq<char>, d: Directory) -> Result<
    ReportModel,
    Seq<char>,
> {
    match directory_error(flen, d) {
        Some(e) => Err(e),
        None => match f(d.offset as nat, d.size as nat) {
            Err(e) => Err(e),
            Ok(cd) => after_listing(f, flen, path, d, cd),
        },
    }
}

pub open spec fn after_record(f: Source, flen: nat, path: Seq<char>, rec: Seq<u8>) -> Result<
    ReportModel,
    Seq<char>,
> {
    if le(rec, 0, 4) != EOCD64_SIG {
        Err("ZIP64 end-of-central-directory record is corrupt"@)
    } else {
        after_directory(
            f,
            flen,
            path,
            Directory {
                entries: le(rec, 32, 8) as u64,
                size: le(rec, 40, 8) as u64,
                offset: le(rec, 48, 8) as u64,
                zip64: true,
            },
        )
    }
}

pub open spec fn after_locator(f: Source, flen: nat, path: Seq<char>, loc: Seq<u8>) -> Result<
    ReportModel,
    Seq<char>,
> {
    if le(loc, 0, 4) != EOCD64_LOCATOR_SIG {
        Err("ZIP64 locator record is missing or corrupt"@)
    } else if le(loc, 8, 8) + 56 > flen {
        Err("ZIP64 end-of-central-directory offset is out of bounds"@)
    } else {
        match f(le(loc, 8, 8), 56) {
            Err(e) => Err(e),
            Ok(rec) => after_record(f, flen, path, rec),
        }
    }
}

/// How much of the end of the file is searched.
pub open spec fn scan_len(flen: nat) -> nat {
    min_nat(EOCD_SCAN as nat, flen)
}

/// The directory an end-of-central-directory record at `pos` declares.
pub open spec fn declared(tail: Seq<u8>, pos: int) -> Directory {
    Directory {
        entries: le(tail, pos + 10, 2) as u64,
        size: le(tail, pos + 12, 4) as u64,
        offset: le(tail, pos + 16, 4) as u64,
        zip64: false,
    }
}

/// Whether a declared directory defers to ZIP64 records (numpy writes them
/// for archives or members over 4 GiB).
pub open spec fn needs_zip64(d: Directory) -> bool {
    d.entries == 0xffff || d.size == 0xffff_ffff || d.offset == 0xffff_ffff
}

pub open spec fn after_tail(f: Source, flen: nat, path: Seq<char>, tail: Seq<u8>) -> Result<
    ReportModel,
    Seq<char>,
> {
    match eocd_in(tail) {
        None => Err("not a zip archive (no end-of-central-directory record)"@),
        Some(pos) => {
            let d = declared(tail, pos);
            let at = flen - scan_len(flen) + pos;
            if !needs_zip64(d) {
                after_directory(f, flen, path, d)
            } else if at < 20 {
                Err("ZIP64 markers present but no ZIP64 locator fits"@)
            } else {
                match f((at - 20) as nat, 20) {
                    Err(e) => Err(e),
                    Ok(loc) => after_locator(f, flen, path, loc),
                }
            }
        },
    }
}

/// What an archive of `flen` bytes contains.
pub open spec fn parse_model(f: Source, flen: nat, path: Seq<char>) -> Result<
    ReportModel,
    Seq<char>,
> {
    match f((flen - scan_len(flen)) as nat, scan_len(flen)) {
        Err(e) => Err(e),
        Ok(tail) => after_tail(f, flen, path, tail),
    }
}

// ---------------------------------------------------------------------------
// Reading records
// ---------------------------------------------------------------------------

fn find_eocd(tail: &[u8]) -> (r: Option<usize>)
    ensures
        eocd_in(tail@) == match r {
            Some(p) => Some(p as int),
            None => None,
        },
        r matches Some(p) ==> p + 22 <= tail@.len(),
{
    if tail.len() < 22 {
        return None;
    }
    let mut left: usize = tail.len() - 21;
    while left > 0
        invariant
            left <= tail.len() - 21,
            tail.len() == tail@.len(),
            eocd_before(tail@, left - 1) == eocd_in(tail@),
        decreases left,
    {
        let pos: usize = left - 1;
        if u32le(tail, pos) == EOCD_SIG {
            let comment: usize = u16le(tail, pos + 20) as usize;
            if comment == tail.len() - pos - 22 {
                return Some(pos);
            }
        }
        left = left - 1;
    }
    None
}

fn check_directory(file_len: u64, d: &Directory) -> (r: Option<PeekError>)
    ensures
        directory_error(file_len as nat, *d) == match r {
            Some(e) => Some(e.0@),
            None => None,
        },
{
    if d.size > MAX_CDIR || d.offset as u128 + d.size as u128 > file_len as u128 {
        let mut s: String = "central directory (".to_owned();
        put_dec(&mut s, d.size as u128);
        s.append(" bytes at offset ");
        put_dec(&mut s, d.offset as u128);
        s.append(") does not fit the file");
        return Some(PeekError(s));
    }
    if d.entries > d.size / 46 {
        let mut s: String = "central directory declares ".to_owned();
        put_dec(&mut s, d.entries as u128);
        s.append(" entries, which cannot fit in ");
        put_dec(&mut s, d.size as u128);
        s.append(" bytes");
        return Some(PeekError(s));
    }
    None
}

/// Apply a ZIP64 extra field to (uncompressed, compressed, local offset).
fn apply_zip64(f: &[u8], s: (u64, u64, u64)) -> (r: (u64, u64, u64))
    ensures
        widen_sizes(
            f@,
            Sizes { uncomp: s.0 as nat, comp: s.1 as nat, local: s.2 as nat },
        ) == (Sizes { uncomp: r.0 as nat, comp: r.1 as nat, local: r.2 as nat }),
{
    let mut at: usize = 0;
    let mut r: (u64, u64, u64) = s;
    if s.0 == 0xffff_ffff && f.len() >= 8 {
        r.0 = u64le(f, 0);
        at = 8;
    }
    if s.1 == 0xffff_ffff && f.len() >= at + 8 {
        r.1 = u64le(f, at);
        at = at + 8;
    }
    if s.2 == 0xffff_ffff && f.len() >= at + 8 {
        r.2 = u64le(f, at);
    }
    r
}

fn read_sizes(x: &[u8], s: (u64, u64, u64)) -> (r: (u64, u64, u64))
    ensures
        sizes_from(
            x@,
            0,
            Sizes { uncomp: s.0 as nat, comp: s.1 as nat, local: s.2 as nat },
        ) == (Sizes { uncomp: r.0 as nat, comp: r.1 as nat, local: r.2 as nat }),
{
    let n: usize = x.len();
    let mut p: usize = 0;
    let mut r: (u64, u64, u64) = s;
    while n - p >= 4
        invariant
            p <= n,
            n == x@.len(),
            sizes_from(
                x@,
                p as int,
                Sizes { uncomp: r.0 as nat, comp: r.1 as nat, local: r.2 as nat },
            ) == sizes_from(
                x@,
                0,
                Sizes { uncomp: s.0 as nat, comp: s.1 as nat, local: s.2 as nat },
            ),
        decreases n - p,
    {
        let id: u16 = u16le(x, p);
        let sz: usize = u16le(x, p + 2) as usize;
        if sz > n - p - 4 {
            return r;
        }
        if id == 1 {
            r = apply_zip64(slice_subrange(x, p + 4, p + 4 + sz), r);
        }
        p = p + 4 + sz;
    }
    r
}

fn read_entry(cd: &[u8], pos: usize, i: u64) -> (r: Result<(Member, usize), PeekError>)
    requires
        pos <= cd@.len(),
    ensures
        entry_at(cd@, pos as int, i as nat) == match r {
            Ok((m, end)) => Ok::<(MemberModel, int), Seq<char>>((m@, end as int)),
            Err(e) => Err(e.0@),
        },
        r matches Ok((m, end)) ==> end <= cd@.len(),
{
    if cd.len() - pos < 46 || u32le(cd, pos) != CDIR_SIG {
        let mut s: String = "central directory entry #".to_owned();
        put_dec(&mut s, i as u128);
        s.append(" is corrupt");
        return Err(PeekError(s));
    }
    let name_len: usize = u16le(cd, pos + 28) as usize;
    let extra_len: usize = u16le(cd, pos + 30) as usize;
    let comment_len: usize = u16le(cd, pos + 32) as usize;
    if name_len + extra_len + comment_len > cd.len() - pos - 46 {
        let mut s: String = "central directory entry #".to_owned();
        put_dec(&mut s, i as u128);
        s.append(" runs past the directory");
        return Err(PeekError(s));
    }
    let name_end: usize = pos + 46 + name_len;
    let extra_end: usize = name_end + extra_len;
    let sizes: (u64, u64, u64) = (
        u32le(cd, pos + 24) as u64,
        u32le(cd, pos + 20) as u64,
        u32le(cd, pos + 42) as u64,
    );
    let (uncomp_size, comp_size, local_offset) = read_sizes(
        slice_subrange(cd, name_end, extra_end),
        sizes,
    );
    let m = Member {
        name: lossy(slice_subrange(cd, pos + 46, name_end)),
        method: u16le(cd, pos + 10),
        flags: u16le(cd, pos + 8),
        comp_size,
        uncomp_size,
        local_offset,
    };
    Ok((m, extra_end + comment_len))
}

fn list_members(cd: &[u8], n: u64) -> (r: Result<Vec<Member>, PeekError>)
    ensures
        entries_from(cd@, 0, 0, n as nat, seq![]) == match r {
            Ok(ms) => Ok::<Seq<MemberModel>, Seq<char>>(member_models(ms@)),
            Err(e) => Err(e.0@),
        },
{
    let mut ms: Vec<Member> = Vec::new();
    let mut pos: usize = 0;
    let mut i: u64 = 0;
    assert(member_models(ms@) =~= seq![]);
    while i < n
        invariant
            i <= n,
            pos <= cd@.len(),
            entries_from(cd@, pos as int, i as nat, n as nat, member_models(ms@)) == entries_from(
                cd@,
                0,
                0,
                n as nat,
                seq![],
            ),
        decreases n - i,
    {
        let ghost before = member_models(ms@);
        match read_entry(cd, pos, i) {
            Ok((m, end)) => {
                ms.push(m);
                assert(member_models(ms@) =~= before.push(m@));
                pos = end;
            },
            Err(e) => {
                return Err(e);
            },
        }
        i = i + 1;
    }
    Ok(ms)
}

// ---------------------------------------------------------------------------
// Members
// ---------------------------------------------------------------------------

/// What has been learned from the members.
#[derive(Debug)]
pub struct Tally {
    pub stored: u64,
    pub deflated: u64,
    pub others: Vec<String>,
    pub data_bytes: u64,
    pub tensors: Vec<Tensor>,
    pub problems: Vec<String>,
}

impl View for Tally {
    type V = TallyModel;

    open spec fn view(&self) -> TallyModel {
        TallyModel {
            stored: self.stored as nat,
            deflated: self.deflated as nat,
            others: texts(self.others@),
            data_bytes: self.data_bytes as nat,
            tensors: tensors_of(self.tensors@),
            problems: texts(self.problems@),
        }
    }
}

/// Start of a message about a member.
fn about(name: &str, rest: &str) -> (r: String)
    ensures
        r@ == "member '"@ + name@ + rest@,
{
    let mut s: String = "member '".to_owned();
    s.append(name);
    s.append(rest);
    s
}

fn is_npy_name(name: &str) -> (r: bool)
    ensures
        r == ends_with(name@, ".npy"@),
{
    chars_end_with(chars_of(name).as_slice(), ".npy")
}

/// The name without its `.npy` suffix.
fn strip_npy(name: &str) -> (r: String)
    requires
        ends_with(name@, ".npy"@),
    ensures
        r@ == name@.take(name@.len() - 4),
{
    proof {
        reveal_strlit(".npy");
    }
    let v: Vec<char> = chars_of(name);
    let r: String = text_of(v.as_slice(), 0, v.len() - 4);
    assert(r@ =~= name@.take(name@.len() - 4));
    r
}

impl Tally {
    fn new() -> (r: Tally)
        ensures
            r@ == empty_tally(),
    {
        let r = Tally {
            stored: 0,
            deflated: 0,
            others: Vec::new(),
            data_bytes: 0,
            tensors: Vec::new(),
            problems: Vec::new(),
        };
        assert(r@ =~= empty_tally());
        r
    }

    /// Count a member; the result is whether its header is worth reading.
    fn count(&mut self, m: &Member) -> (r: bool)
        requires
            old(self).stored < u64::MAX,
            old(self).deflated < u64::MAX,
        ensures
            final(self)@ == counted(old(self)@, m@),
            r == wants_header(m@),
            final(self).stored <= old(self).stored + 1,
            final(self).deflated <= old(self).deflated + 1,
    {
        self.data_bytes = self.data_bytes.saturating_add(m.comp_size);
        let mut readable: bool = true;
        if m.method == 0 {
            self.stored = self.stored + 1;
        } else if m.method == 8 {
            self.deflated = self.deflated + 1;
        } else {
            let mut s: String = about(m.name.as_str(), "' uses unsupported compression method ");
            put_dec(&mut s, m.method as u128);
            put_text(&mut self.problems, s);
            readable = false;
        }
        if m.flags % 2 == 1 {
            put_text(&mut self.problems, about(m.name.as_str(), "' is encrypted"));
            readable = false;
        }
        if !is_npy_name(m.name.as_str()) {
            put_text(&mut self.others, m.name.clone());
            readable = false;
        }
        assert(self@.problems =~= old(self)@.problems + member_problems(m@));
        assert(self@ =~= counted(old(self)@, m@));
        readable
    }

    fn note_all(&mut self, name: &str, probs: &Vec<String>)
        ensures
            final(self)@ == (TallyModel {
                problems: old(self)@.problems + named_problems(name@, texts(probs@)),
                ..old(self)@
            }),
            final(self).stored == old(self).stored,
            final(self).deflated == old(self).deflated,
    {
        let ghost all = named_problems(name@, texts(probs@));
        let ghost before = texts(self.problems@);
        let mut i: usize = 0;
        assert(before =~= before + all.take(0));
        while i < probs.len()
            invariant
                i <= probs@.len(),
                all == named_problems(name@, texts(probs@)),
                before == old(self)@.problems,
                self.stored == old(self).stored,
                self.deflated == old(self).deflated,
                self.others == old(self).others,
                self.data_bytes == old(self).data_bytes,
                self.tensors == old(self).tensors,
                texts(self.problems@) == before + all.take(i as int),
            decreases probs@.len() - i,
        {
            let mut s: String = about(name, "': ");
            s.append(probs[i].as_str());
            put_text(&mut self.problems, s);
            i = i + 1;
            assert(before + all.take(i as int) =~= (before + all.take(i - 1)).push(all[i - 1]));
        }
        assert(all.take(i as int) =~= all);
        assert(self@ =~= (TallyModel { problems: before + all, ..old(self)@ }));
    }

    /// Add what a member's header says, or why it could not be read.
    fn record(&mut self, m: &Member, header: Result<NpyHeader, PeekError>)
        requires
            ends_with(m@.name, ".npy"@),
        ensures
            final(self)@ == recorded(
                old(self)@,
                m@,
                match header {
                    Ok(h) => Ok(h@),
                    Err(e) => Err(e.0@),
                },
            ),
            final(self).stored == old(self).stored,
            final(self).deflated == old(self).deflated,
    {
        match header {
            Err(e) => {
                let mut s: String = about(m.name.as_str(), "': ");
                s.append(e.0.as_str());
                put_text(&mut self.problems, s);
                assert(self@ =~= recorded(old(self)@, m@, Err(e.0@)));
            },
            Ok(h) => {
                self.note_all(m.name.as_str(), &h.problems);
                let size: Option<u64> = h.data_bytes();
                match size {
                    Some(d) => {
                        let total: u128 = d as u128 + h.header_total as u128;
                        if total != m.uncomp_size as u128 {
                            let mut s: String = about(
                                m.name.as_str(),
                                "': npy header promises ",
                            );
                            put_dec(&mut s, total);
                            s.append(" bytes but the archive stores ");
                            put_dec(&mut s, m.uncomp_size as u128);
                            s.append(" — corrupt or truncated member");
                            put_text(&mut self.problems, s);
                        }
                    },
                    None => {},
                }
                let t: Tensor = tensor_of(m, &h, size);
                let ghost before = tensors_of(self.tensors@);
                self.tensors.push(t);
                assert(tensors_of(self.tensors@) =~= before.push(t@));
                assert(self@ =~= recorded(old(self)@, m@, Ok(h@)));
            },
        }
    }
}

fn tensor_of(m: &Member, h: &NpyHeader, size: Option<u64>) -> (r: Tensor)
    requires
        ends_with(m@.name, ".npy"@),
        data_size(h@.shape, h@.itemsize) == (match size {
            Some(n) => Some(n as nat),
            None => None,
        }),
    ensures
        r@ == member_tensor(m@, h@),
{
    let name: String = strip_npy(m.name.as_str());
    let bytes: u64 = match size {
        Some(n) => n,
        None => m.uncomp_size.saturating_sub(h.header_total),
    };
    let mut t: Tensor = Tensor::new(
        name.as_str(),
        h.dtype.as_str(),
        copy_shape(&h.shape),
        h.header_total,
        bytes,
    );
    put_member(&mut t.extra, "member", Json::Str(m.name.clone()));
    put_member(
        &mut t.extra,
        "compression",
        Json::Str(
            if m.method == 8 {
                "deflate".to_owned()
            } else {
                "stored".to_owned()
            },
        ),
    );
    put_member(&mut t.extra, "compressed_bytes", Json::Int(m.comp_size as i128));
    assert(t@ =~= member_tensor(m@, h@));
    t
}

fn copy_shape(shape: &Vec<u64>) -> (r: Vec<u64>)
    ensures
        r@ == shape@,
{
    let mut r: Vec<u64> = Vec::new();
    let mut i: usize = 0;
    while i < shape.len()
        invariant
            i <= shape@.len(),
            r@ == shape@.take(i as int),
        decreases shape@.len() - i,
    {
        r.push(shape[i]);
        i = i + 1;
        assert(shape@.take(i as int) =~= shape@.take(i - 1).push(shape@[i - 1]));
    }
    assert(shape@.take(i as int) =~= shape@);
    r
}

fn min(a: u64, b: u64) -> (r: u64)
    ensures
        r == min_nat(a as nat, b as nat),
{
    if a <= b {
        a
    } else {
        b
    }
}

fn want_of(m: &Member) -> (r: usize)
    ensures
        r == wanted(m@),
{
    let n: u64 = if m.uncomp_size > 12 {
        m.uncomp_size
    } else {
        12
    };
    if n < MAX_PREFIX as u64 {
        n as usize
    } else {
        MAX_PREFIX
    }
}

/// Where a member's data starts and how much of it to read.
fn span_of(file_len: u64, m: &Member, lh: &[u8]) -> (r: (u64, u64))
    requires
        lh@.len() == 30,
    ensures
        data_span(file_len as nat, m@, lh@) == (r.0 as nat, r.1 as nat),
{
    let skip: u64 = 30 + u16le(lh, 26) as u64 + u16le(lh, 28) as u64;
    let off: u64 = m.local_offset.saturating_add(skip);
    let limit: u64 = if m.method == 8 {
        MAX_COMP_READ
    } else {
        want_of(m) as u64
    };
    (off, min(min(limit, m.comp_size), file_len.saturating_sub(off)))
}

fn read_header(m: &Member, bytes: &[u8]) -> (r: Result<NpyHeader, PeekError>)
    ensures
        header_in(m@, bytes@) == match r {
            Ok(h) => Ok::<NpyModel, Seq<char>>(h@),
            Err(e) => Err(e.0@),
        },
{
    if m.method == 8 {
        match inflate_prefix(bytes, want_of(m)) {
            Err(e) => {
                let mut s: String = "deflate stream is corrupt: ".to_owned();
                s.append(e.as_str());
                Err(PeekError(s))
            },
            Ok(i) => parse_header(i.data.as_slice()),
        }
    } else {
        parse_header(bytes)
    }
}

// ---------------------------------------------------------------------------
// The walk through an archive
// ---------------------------------------------------------------------------

/// What a [`Walk`] waits for.
#[derive(Debug, Clone, Copy)]
pub enum Stage {
    /// The end of the file.
    Tail,
    /// The ZIP64 locator.
    Locator(u64),
    /// The ZIP64 end-of-central-directory record.
    Record(u64),
    /// The central directory.
    Listing,
    /// The local header of a member.
    Local(usize),
    /// The start of a member's data: offset and length.
    Data(usize, u64, u64),
    /// Nothing: the outcome is known.
    Done,
}

/// A parse of an npz archive in progress.
#[derive(Debug)]
pub struct Walk {
    path: String,
    file_len: u64,
    stage: Stage,
    dir: Directory,
    members: Vec<Member>,
    tally: Tally,
    error: Option<PeekError>,
}

pub open spec fn answered(r: Result<&[u8], PeekError>) -> Result<Seq<u8>, Seq<char>> {
    match r {
        Ok(b) => Ok(b@),
        Err(e) => Err(e.0@),
    }
}

impl Walk {
    pub closed spec fn inv(&self) -> bool {
        &&& self.tally.stored <= self.members@.len() <= usize::MAX
        &&& self.tally.deflated <= self.members@.len()
        &&& !(self.stage is Done) ==> self.error is None
        &&& match self.stage {
            Stage::Local(i) => {
                &&& i < self.members@.len()
                &&& wants_header(self.members@[i as int]@)
                &&& self.tally.stored <= i + 1
                &&& self.tally.deflated <= i + 1
            },
            Stage::Data(i, off, n) => {
                &&& n <= MAX_COMP_READ
                &&& i < self.members@.len()
                &&& wants_header(self.members@[i as int]@)
                &&& self.tally.stored <= i + 1
                &&& self.tally.deflated <= i + 1
            },
            Stage::Listing => self.tally@ == empty_tally() && self.dir.size <= MAX_CDIR,
            Stage::Tail => self.tally@ == empty_tally(),
            Stage::Locator(_) => self.tally@ == empty_tally(),
            Stage::Record(_) => self.tally@ == empty_tally(),
            Stage::Done => true,
        }
    }

    /// The bytes asked for next.
    pub closed spec fn asks(&self) -> Option<(nat, nat)> {
        match self.stage {
            Stage::Tail => Some(
                (
                    (self.file_len - scan_len(self.file_len as nat)) as nat,
                    scan_len(self.file_len as nat),
                ),
            ),
            Stage::Locator(at) => Some((at as nat, 20)),
            Stage::Record(at) => Some((at as nat, 56)),
            Stage::Listing => Some((self.dir.offset as nat, self.dir.size as nat)),
            Stage::Local(i) => Some((self.members@[i as int].local_offset as nat, 30)),
            Stage::Data(_, off, n) => Some((off as nat, n as nat)),
            Stage::Done => None,
        }
    }

    /// How far the walk has come: every answer makes this smaller.
    pub closed spec fn steps_left(&self) -> (int, int) {
        match self.stage {
            Stage::Tail => (5, 0),
            Stage::Locator(_) => (4, 0),
            Stage::Record(_) => (3, 0),
            Stage::Listing => (2, 0),
            Stage::Local(i) => (1, 2 * (self.members@.len() - i)),
            Stage::Data(i, _, _) => (1, 2 * (self.members@.len() - i) - 1),
            Stage::Done => (0, 0),
        }
    }

    spec fn with_header(&self, f: Source, i: int, h: Result<NpyModel, Seq<char>>) -> Result<
        ReportModel,
        Seq<char>,
    > {
        let ms = member_models(self.members@);
        let flen = self.file_len as nat;
        Ok(
            report_of(
                self.path@,
                flen,
                self.dir,
                ms.len(),
                members_from(f, flen, ms, i + 1, recorded(self.tally@, ms[i], h)),
            ),
        )
    }

    /// What the walk comes to when every answer is given by `f`.
    pub closed spec fn outcome(&self, f: Source) -> Result<ReportModel, Seq<char>> {
        let flen = self.file_len as nat;
        let path = self.path@;
        match self.stage {
            Stage::Tail => parse_model(f, flen, path),
            Stage::Locator(at) => match f(at as nat, 20) {
                Err(e) => Err(e),
                Ok(loc) => after_locator(f, flen, path, loc),
            },
            Stage::Record(at) => match f(at as nat, 56) {
                Err(e) => Err(e),
                Ok(rec) => after_record(f, flen, path, rec),
            },
            Stage::Listing => match f(self.dir.offset as nat, self.dir.size as nat) {
                Err(e) => Err(e),
                Ok(cd) => after_listing(f, flen, path, self.dir, cd),
            },
            Stage::Local(i) => {
                let m = self.members@[i as int]@;
                self.with_header(
                    f,
                    i as int,
                    match f(m.local_offset, 30) {
                        Err(e) => Err(e),
                        Ok(lh) => header_after(f, flen, m, lh),
                    },
                )
            },
            Stage::Data(i, off, n) => {
                let m = self.members@[i as int]@;
                self.with_header(
                    f,
                    i as int,
                    match f(off as nat, n as nat) {
                        Err(e) => Err(e),
                        Ok(bytes) => header_in(m, bytes),
                    },
                )
            },
            Stage::Done => match self.error {
                Some(e) => Err(e.0@),
                None => Ok(
                    report_of(path, flen, self.dir, self.members@.len(), self.tally@),
                ),
            },
        }
    }

    /// Start on an archive of `file_len` bytes.
    pub fn new(file_len: u64, path: &str) -> (r: Walk)
        ensures
            r.inv(),
            forall|f: Source| #[trigger] r.outcome(f) == parse_model(f, file_len as nat, path@),
    {
        Walk {
            path: path.to_owned(),
            file_len,
            stage: Stage::Tail,
            dir: Directory { entries: 0, size: 0, offset: 0, zip64: false },
            members: Vec::new(),
            tally: Tally::new(),
            error: None,
        }
    }

    /// The offset and length of the bytes needed next; nothing when the
    /// outcome is known. However large the archive and its members are, no
    /// request exceeds the largest directory that is read.
    pub fn request(&self) -> (r: Option<(u64, u64)>)
        requires
            self.inv(),
        ensures
            r matches Some((_, n)) ==> n <= MAX_CDIR,
            self.asks() == match r {
                Some((off, n)) => Some((off as nat, n as nat)),
                None => None,
            },
    {
        match self.stage {
            Stage::Tail => {
                let n: u64 = min(EOCD_SCAN, self.file_len);
                Some((self.file_len - n, n))
            },
            Stage::Locator(at) => Some((at, 20)),
            Stage::Record(at) => Some((at, 56)),
            Stage::Listing => Some((self.dir.offset, self.dir.size)),
            Stage::Local(i) => Some((self.members[i].local_offset, 30)),
            Stage::Data(_, off, n) => Some((off, n)),
            Stage::Done => None,
        }
    }

    fn fail(&mut self, e: PeekError)
        requires
            old(self).inv(),
        ensures
            final(self).inv(),
            final(self).stage is Done,
            forall|f: Source|
                #[trigger] final(self).outcome(f) == Err::<ReportModel, Seq<char>>(e.0@),
    {
        self.stage = Stage::Done;
        self.error = Some(e);
    }

    /// Go on with a central directory that has been located.
    fn enter(&mut self, dir: Directory)
        requires
            old(self).inv(),
            !(old(self).stage is Done),
            old(self).tally@ == empty_tally(),
        ensures
            final(self).inv(),
            final(self).stage is Done || final(self).stage is Listing,
            forall|f: Source|
                #[trigger] final(self).outcome(f) == after_directory(
                    f,
                    old(self).file_len as nat,
                    old(self).path@,
                    dir,
                ),
    {
        match check_directory(self.file_len, &dir) {
            Some(e) => self.fail(e),
            None => {
                self.dir = dir;
                self.stage = Stage::Listing;
            },
        }
    }

    /// Go on with the members from `i` on.
    fn advance(&mut self, i: usize)
        requires
            i <= old(self).members@.len() <= usize::MAX,
            old(self).tally.stored <= i,
            old(self).tally.deflated <= i,
            old(self).error is None,
        ensures
            final(self).inv(),
            final(self).members@ == old(self).members@,
            match final(self).stage {
                Stage::Local(k) => i <= k,
                Stage::Done => true,
                _ => false,
            },
            forall|f: Source|
                #[trigger] final(self).outcome(f) == Ok::<ReportModel, Seq<char>>(
                    report_of(
                        old(self).path@,
                        old(self).file_len as nat,
                        old(self).dir,
                        old(self).members@.len(),
                        members_from(
                            f,
                            old(self).file_len as nat,
                            member_models(old(self).members@),
                            i as int,
                            old(self).tally@,
                        ),
                    ),
                ),
    {
        let ghost flen = self.file_len as nat;
        let ghost ms = member_models(self.members@);
        let ghost start = self.tally@;
        let mut k: usize = i;
        while k < self.members.len()
            invariant
                i <= k <= self.members@.len() <= usize::MAX,
                self.members == old(self).members,
                self.path == old(self).path,
                self.file_len == old(self).file_len,
                self.dir == old(self).dir,
                self.error is None,
                self.tally.stored <= k,
                self.tally.deflated <= k,
                flen == self.file_len as nat,
                ms == member_models(self.members@),
                start == old(self).tally@,
                forall|f: Source|
                    #[trigger] members_from(f, flen, ms, k as int, self.tally@) == members_from(
                        f,
                        flen,
                        ms,
                        i as int,
                        start,
                    ),
            decreases self.members@.len() - k,
        {
            let ghost before = self.tally@;
            let wants: bool = self.tally.count(&self.members[k]);
            if wants {
                if self.members[k].local_offset as u128 + 30 <= self.file_len as u128 {
                    self.stage = Stage::Local(k);
                    assert forall|f: Source| #[trigger] self.outcome(f) == Ok::<
                        ReportModel,
                        Seq<char>,
                    >(
                        report_of(
                            old(self).path@,
                            flen,
                            old(self).dir,
                            old(self).members@.len(),
                            members_from(f, flen, ms, i as int, start),
                        ),
                    ) by {
                        assert(members_from(f, flen, ms, k as int, before) == members_from(
                            f,
                            flen,
                            ms,
                            i as int,
                            start,
                        ));
                    }
                    return;
                }
                let e = PeekError("local header offset is out of bounds".to_owned());
                self.tally.record(&self.members[k], Err(e));
            }
            assert forall|f: Source| #[trigger]
                members_from(f, flen, ms, k + 1, self.tally@) == members_from(
                    f,
                    flen,
                    ms,
                    i as int,
                    start,
                ) by {
                assert(members_from(f, flen, ms, k as int, before) == members_from(
                    f,
                    flen,
                    ms,
                    i as int,
                    start,
                ));
            }
            k = k + 1;
        }
        self.stage = Stage::Done;
        assert forall|f: Source| #[trigger] self.outcome(f) == Ok::<ReportModel, Seq<char>>(
            report_of(
                old(self).path@,
                flen,
                old(self).dir,
                old(self).members@.len(),
                members_from(f, flen, ms, i as int, start),
            ),
        ) by {
            assert(members_from(f, flen, ms, k as int, self.tally@) == members_from(
                f,
                flen,
                ms,
                i as int,
                start,
            ));
        }
    }

    fn take_tail(&mut self, tail: &[u8])
        requires
            old(self).inv(),
            old(self).stage is Tail,
            tail@.len() == scan_len(old(self).file_len as nat),
        ensures
            final(self).inv(),
            !(final(self).stage is Tail) && !(final(self).stage is Record) && !(final(
                self).stage is Local) && !(final(self).stage is Data),
            forall|f: Source|
                #[trigger] final(self).outcome(f) == after_tail(
                    f,
                    old(self).file_len as nat,
                    old(self).path@,
                    tail@,
                ),
    {
        match find_eocd(tail) {
            None => self.fail(
                PeekError("not a zip archive (no end-of-central-directory record)".to_owned()),
            ),
            Some(pos) => {
                let d = Directory {
                    entries: u16le(tail, pos + 10) as u64,
                    size: u32le(tail, pos + 12) as u64,
                    offset: u32le(tail, pos + 16) as u64,
                    zip64: false,
                };
                assert(d == declared(tail@, pos as int));
                if !(d.entries == 0xffff || d.size == 0xffff_ffff || d.offset == 0xffff_ffff) {
                    self.enter(d);
                } else {
                    let at: u64 = self.file_len - tail.len() as u64 + pos as u64;
                    if at < 20 {
                        self.fail(
                            PeekError(
                                "ZIP64 markers present but no ZIP64 locator fits".to_owned(),
                            ),
                        );
                    } else {
                        self.stage = Stage::Locator(at - 20);
                    }
                }
            },
        }
    }

    fn take_locator(&mut self, loc: &[u8])
        requires
            old(self).inv(),
            old(self).stage is Locator,
            loc@.len() == 20,
        ensures
            final(self).inv(),
            final(self).stage is Done || final(self).stage is Record,
            forall|f: Source|
                #[trigger] final(self).outcome(f) == after_locator(
                    f,
                    old(self).file_len as nat,
                    old(self).path@,
                    loc@,
                ),
    {
        if u32le(loc, 0) != EOCD64_LOCATOR_SIG {
            self.fail(PeekError("ZIP64 locator record is missing or corrupt".to_owned()));
            return;
        }
        let at: u64 = u64le(loc, 8);
        if at as u128 + 56 > self.file_len as u128 {
            self.fail(
                PeekError("ZIP64 end-of-central-directory offset is out of bounds".to_owned()),
            );
            return;
        }
        self.stage = Stage::Record(at);
    }

    fn take_record(&mut self, rec: &[u8])
        requires
            old(self).inv(),
            old(self).stage is Record,
            rec@.len() == 56,
        ensures
            final(self).inv(),
            final(self).stage is Done || final(self).stage is Listing,
            forall|f: Source|
                #[trigger] final(self).outcome(f) == after_record(
                    f,
                    old(self).file_len as nat,
                    old(self).path@,
                    rec@,
                ),
    {
        if u32le(rec, 0) != EOCD64_SIG {
            self.fail(PeekError("ZIP64 end-of-central-directory record is corrupt".to_owned()));
            return;
        }
        let d = Directory {
            entries: u64le(rec, 32),
            size: u64le(rec, 40),
            offset: u64le(rec, 48),
            zip64: true,
        };
        self.enter(d);
    }

    fn take_listing(&mut self, cd: &[u8])
        requires
            old(self).inv(),
            old(self).stage is Listing,
        ensures
            final(self).inv(),
            final(self).stage is Done || final(self).stage is Local,
            forall|f: Source|
                #[trigger] final(self).outcome(f) == after_listing(
                    f,
                    old(self).file_len as nat,
                    old(self).path@,
                    old(self).dir,
                    cd@,
                ),
    {
        match list_members(cd, self.dir.entries) {
            Err(e) => self.fail(e),
            Ok(ms) => {
                let n: usize = ms.len();
                self.members = ms;
                assert(n == self.members@.len());
                self.advance(0);
            },
        }
    }

    /// Record the outcome of reading the header of member `i`, and go on.
    fn take_header(&mut self, i: usize, h: Result<NpyHeader, PeekError>)
        requires
            old(self).inv(),
            match old(self).stage {
                Stage::Local(k) => k == i,
                Stage::Data(k, _, _) => k == i,
                _ => false,
            },
        ensures
            final(self).inv(),
            final(self).members@ == old(self).members@,
            match final(self).stage {
                Stage::Local(k) => i < k,
                Stage::Done => true,
                _ => false,
            },
            forall|f: Source|
                #[trigger] final(self).outcome(f) == old(self).with_header(
                    f,
                    i as int,
                    match h {
                        Ok(h) => Ok(h@),
                        Err(e) => Err(e.0@),
                    },
                ),
    {
        self.tally.record(&self.members[i], h);
        self.advance(i + 1);
    }

    /// Take the bytes asked for, or the reason they cannot be had.
    pub fn supply(&mut self, answer: Result<&[u8], PeekError>)
        requires
            old(self).inv(),
            old(self).asks() matches Some((off, n)) && (answer matches Ok(b) ==> b@.len() == n),
        ensures
            final(self).inv(),
            decreases_to!(old(self).steps_left().0, old(self).steps_left().1 => final(
                self).steps_left().0, final(self).steps_left().1),
            forall|f: Source|
                (old(self).asks() matches Some((off, n)) && f(off, n) == answered(answer))
                    ==> #[trigger] final(self).outcome(f) == old(self).outcome(f),
    {
        match self.stage {
            Stage::Tail => match answer {
                Ok(b) => self.take_tail(b),
                Err(e) => self.fail(e),
            },
            Stage::Locator(_) => match answer {
                Ok(b) => self.take_locator(b),
                Err(e) => self.fail(e),
            },
            Stage::Record(_) => match answer {
                Ok(b) => self.take_record(b),
                Err(e) => self.fail(e),
            },
            Stage::Listing => match answer {
                Ok(b) => self.take_listing(b),
                Err(e) => self.fail(e),
            },
            Stage::Local(i) => match answer {
                Ok(lh) => {
                    if u32le(lh, 0) != LOCAL_SIG {
                        let e = PeekError("local file header signature mismatch".to_owned());
                        self.take_header(i, Err(e));
                    } else {
                        let (off, n) = span_of(self.file_len, &self.members[i], lh);
                        self.stage = Stage::Data(i, off, n);
                    }
                },
                Err(e) => self.take_header(i, Err(e)),
            },
            Stage::Data(i, _, _) => match answer {
                Ok(b) => {
                    let h: Result<NpyHeader, PeekError> = read_header(&self.members[i], b);
                    self.take_header(i, h);
                },
                Err(e) => self.take_header(i, Err(e)),
            },
            Stage::Done => {},
        }
    }

    /// The report, once nothing more is needed.
    pub fn finish(self) -> (r: Result<Report, PeekError>)
        requires
            self.inv(),
            self.asks() is None,
        ensures
            forall|f: Source|
                #[trigger] self.outcome(f) == match r {
                    Ok(report) => Ok::<ReportModel, Seq<char>>(report@),
                    Err(e) => Err(e.0@),
                },
    {
        match self.error {
            Some(e) => Err(e),
            None => Ok(
                report(self.path.as_str(), self.file_len, self.dir, self.members.len(), self.tally),
            ),
        }
    }
}

fn report(path: &str, file_len: u64, dir: Directory, count: usize, tally: Tally) -> (r: Report)
    ensures
        r@ == report_of(path@, file_len as nat, dir, count as nat, tally@),
{
    let ghost want = report_of(path@, file_len as nat, dir, count as nat, tally@);
    let mut report: Report = Report::new(path, "npz", file_len);
    report.header_bytes = file_len.saturating_sub(dir.offset);
    report.data_bytes = tally.data_bytes;
    let others: Vec<Json> = text_list(&tally.others);
    proof {
        lemma_view_arr(others);
    }
    let mut details: Vec<(String, Json)> = Vec::new();
    put_member(&mut details, "members", Json::Int(count as i128));
    put_member(&mut details, "zip64", Json::Bool(dir.zip64));
    put_member(&mut details, "stored", Json::Int(tally.stored as i128));
    put_member(&mut details, "deflated", Json::Int(tally.deflated as i128));
    put_member(&mut details, "other_files", Json::Arr(others));
    proof {
        lemma_view_obj(details);
        assert(members_of(details@) =~= want.details->Obj_0);
    }
    report.details = Json::Obj(details);
    report.tensors = tally.tensors;
    report.problems = tally.problems;
    assert(report@ =~= want);
    report
}

fn read_window(data: &[u8], off: u64, n: u64) -> (r: Result<&[u8], PeekError>)
    ensures
        answered(r) == in_memory(data@)(off as nat, n as nat),
        r matches Ok(b) ==> b@.len() == n,
{
    if n == 0 {
        let none: &[u8] = slice_subrange(data, 0, 0);
        assert(none@ =~= seq![]);
        return Ok(none);
    }
    let have: u64 = data.len() as u64;
    if off > have || n > have - off {
        return Err(PeekError(SHORT_READ.to_owned()));
    }
    Ok(slice_subrange(data, off as usize, (off + n) as usize))
}

/// Parse an npz archive of `file_len` bytes held in `data`.
pub fn parse(data: &[u8], file_len: u64, path: &str) -> (r: Result<Report, PeekError>)
    ensures
        parse_model(in_memory(data@), file_len as nat, path@) == match r {
            Ok(report) => Ok::<ReportModel, Seq<char>>(report@),
            Err(e) => Err(e.0@),
        },
{
    let mut walk: Walk = Walk::new(file_len, path);
    let ghost f = in_memory(data@);
    assert(walk.outcome(f) == parse_model(f, file_len as nat, path@));
    loop
        invariant
            walk.inv(),
            f == in_memory(data@),
            walk.outcome(f) == parse_model(f, file_len as nat, path@),
        ensures
            walk.asks() is None,
        decreases walk.steps_left().0, walk.steps_left().1,
    {
        match walk.request() {
            None => {
                break ;
            },
            Some((off, n)) => {
                let answer: Result<&[u8], PeekError> = read_window(data, off, n);
                walk.supply(answer);
                assert(walk.outcome(f) == parse_model(f, file_len as nat, path@));
            },
        }
    }
    walk.finish()
}

} // verus!
