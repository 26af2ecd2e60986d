//! How a file is recognized by its first bytes, its size and its name.

use vstd::prelude::*;
use crate::bytes::le;
use crate::cli::{chosen_format, inspected, parsed_as};
use crate::report::ReportModel;
use crate::sniff::{detected, extension_format, magic_format, Format};
use crate::text::{ends_with, lower, starts_with};

verus! {

/// Whether bytes begin with others.
pub open spec fn begins(b: Seq<u8>, with: Seq<u8>) -> bool {
    with.len() <= b.len() && forall|i: int| 0 <= i < with.len() ==> b[i] == with[i]
}

proof fn lemma_begins(b: Seq<u8>, with: Seq<u8>)
    ensures
        starts_with(b, with) == begins(b, with),
{
    if begins(b, with) {
        assert(b.take(with.len() as int) =~= with);
    }
    if starts_with(b, with) {
        assert forall|i: int| 0 <= i < with.len() implies b[i] == with[i] by {
            assert(b.take(with.len() as int)[i] == with[i]);
        }
    }
}

/// The first bytes decide, whatever the file is called: `GGUF`; 0x93 and
/// `NUMPY`; `PK` and the rest of the mark of a local record or of the end of an
/// archive.
pub proof fn law_magic_bytes_decide(b: Seq<u8>, flen: nat, path: Seq<char>)
    ensures
        begins(b, seq![0x47u8, 0x47, 0x55, 0x46]) ==> detected(b, flen, path) == Some(
            Format::Gguf,
        ),
        begins(b, seq![0x93u8, 0x4e, 0x55, 0x4d, 0x50, 0x59]) ==> detected(b, flen, path) == Some(
            Format::Npy,
        ),
        begins(b, seq![0x50u8, 0x4b, 3, 4]) || begins(b, seq![0x50u8, 0x4b, 5, 6]) ==> detected(
            b,
            flen,
            path,
        ) == Some(Format::Npz),
{
    let g = seq![0x47u8, 0x47, 0x55, 0x46];
    let n = seq![0x93u8, 0x4e, 0x55, 0x4d, 0x50, 0x59];
    let l = seq![0x50u8, 0x4b, 3, 4];
    let e = seq![0x50u8, 0x4b, 5, 6];
    assert(crate::npy::MAGIC@ =~= n);
    lemma_begins(b, g);
    lemma_begins(b, n);
    lemma_begins(b, l);
    lemma_begins(b, e);
    assert(g[0] == 0x47 && n[0] == 0x93 && l[0] == 0x50 && e[0] == 0x50);
}

proof fn lemma_no_magic(b: Seq<u8>)
    requires
        b.len() > 0,
        b[0] != 0x47,
        b[0] != 0x93,
        b[0] != 0x50,
    ensures
        magic_format(b) is None,
{
    let g = seq![0x47u8, 0x47, 0x55, 0x46];
    let n = seq![0x93u8, 0x4e, 0x55, 0x4d, 0x50, 0x59];
    let l = seq![0x50u8, 0x4b, 3, 4];
    let e = seq![0x50u8, 0x4b, 5, 6];
    assert(crate::npy::MAGIC@ =~= n);
    lemma_begins(b, g);
    lemma_begins(b, n);
    lemma_begins(b, l);
    lemma_begins(b, e);
    assert(g[0] == 0x47 && n[0] == 0x93 && l[0] == 0x50 && e[0] == 0x50);
}

/// A length that fits in the file, and an opening brace behind it, decide for
/// safetensors; where they are missing only the name is left.
pub proof fn law_length_and_brace_decide(b: Seq<u8>, flen: nat, path: Seq<char>)
    requires
        b.len() > 0,
        b[0] != 0x47,
        b[0] != 0x93,
        b[0] != 0x50,
    ensures
        b.len() >= 9 && b[8] == 0x7b && 0 < le(b, 0, 8) && le(b, 0, 8) + 8 <= flen ==> detected(
            b,
            flen,
            path,
        ) == Some(Format::Safetensors),
        b.len() < 9 || b[8] != 0x7b || le(b, 0, 8) == 0 || le(b, 0, 8) + 8 > flen ==> detected(
            b,
            flen,
            path,
        ) == extension_format(path),
{
    lemma_no_magic(b);
}

proof fn lemma_lower_split(s: Seq<char>, t: Seq<char>)
    ensures
        lower(s + t) == lower(s) + lower(t),
        ends_with(lower(s + t), lower(t)),
{
    assert(lower(s + t) =~= lower(s) + lower(t));
    let w = lower(s + t);
    assert(w.skip(w.len() - lower(t).len()) =~= lower(t));
}

/// The last letters of a name, in small or in capital letters, tell the format.
pub proof fn law_extensions(stem: Seq<char>, ext: Seq<char>)
    ensures
        lower(ext) == ".safetensors"@ ==> extension_format(stem + ext) == Some(
            Format::Safetensors,
        ),
        lower(ext) == ".gguf"@ ==> extension_format(stem + ext) == Some(Format::Gguf),
        lower(ext) == ".npy"@ ==> extension_format(stem + ext) == Some(Format::Npy),
        lower(ext) == ".npz"@ ==> extension_format(stem + ext) == Some(Format::Npz),
{
    reveal_strlit(".safetensors");
    reveal_strlit(".gguf");
    reveal_strlit(".npy");
    reveal_strlit(".npz");
    lemma_lower_split(stem, ext);
    let p = lower(stem + ext);
    let n = p.len() as int;
    assert(".safetensors"@.last() == 's' && ".gguf"@.last() == 'f' && ".npy"@.last() == 'y'
        && ".npz"@.last() == 'z');
    assert forall|x: Seq<char>| x.len() > 0 && #[trigger] ends_with(p, x) implies p.last()
        == x.last() by {
        assert(p.skip(n - x.len())[x.len() - 1] == x.last());
    }
}

/// Letters from A to Z become the small ones; nothing else changes.
pub proof fn law_lower_case(s: Seq<char>, i: int, k: int)
    requires
        0 <= i < s.len(),
        0 <= k < 26,
    ensures
        lower(s).len() == s.len(),
        s[i] == ("ABCDEFGHIJKLMNOPQRSTUVWXYZ"@)[k] ==> lower(s)[i] == (
        "abcdefghijklmnopqrstuvwxyz"@)[k],
        !('A' <= s[i] <= 'Z') ==> lower(s)[i] == s[i],
{
    reveal_strlit("ABCDEFGHIJKLMNOPQRSTUVWXYZ");
    reveal_strlit("abcdefghijklmnopqrstuvwxyz");
    let big = ("ABCDEFGHIJKLMNOPQRSTUVWXYZ"@)[k];
    let small = ("abcdefghijklmnopqrstuvwxyz"@)[k];
    assert(big as int == 65 + k && small as int == 97 + k) by {
        assert(k == 0 || k == 1 || k == 2 || k == 3 || k == 4 || k == 5 || k == 6 || k == 7 || k
            == 8 || k == 9 || k == 10 || k == 11 || k == 12 || k == 13 || k == 14 || k == 15 || k
            == 16 || k == 17 || k == 18 || k == 19 || k == 20 || k == 21 || k == 22 || k == 23 || k
            == 24 || k == 25);
    }
}

/// A format that is asked for is not second-guessed; otherwise the one that is
/// recognized is used, and a file that is not recognized is refused.
pub proof fn law_asked_for_format(
    b: Seq<u8>,
    path: Seq<char>,
    f: Format,
    limit: nat,
    prefix: Seq<u8>,
    flen: nat,
)
    ensures
        chosen_format(Some(f), prefix, flen, path) == Ok::<Format, (int, Seq<char>)>(f),
        detected(prefix, flen, path) == Some(f) ==> chosen_format(None, prefix, flen, path) == Ok::<
            Format,
            (int, Seq<char>),
        >(f),
        detected(prefix, flen, path) is None ==> (chosen_format(None, prefix, flen, path) matches Err(
            (code, msg),
        ) && code == 1),
        parsed_as(f, b, path, limit) matches Ok(r) ==> inspected(b, path, Some(f), limit) == Ok::<
            ReportModel,
            (int, Seq<char>),
        >(r),
        parsed_as(f, b, path, limit) matches Err(msg) ==> inspected(b, path, Some(f), limit)
            == Err::<ReportModel, (int, Seq<char>)>((1, msg)),
{
}

/// What is reported as a format is in that format, under the path and with the
/// size of the file.
pub proof fn law_report_names_its_file(b: Seq<u8>, path: Seq<char>, limit: nat)
    ensures
        parsed_as(Format::Safetensors, b, path, limit) matches Ok(r) ==> r.format
            == "safetensors"@ && r.file == path && r.file_bytes == b.len(),
        parsed_as(Format::Gguf, b, path, limit) matches Ok(r) ==> r.format == "gguf"@ && r.file
            == path && r.file_bytes == b.len(),
        parsed_as(Format::Npy, b, path, limit) matches Ok(r) ==> r.format == "npy"@ && r.file
            == path && r.file_bytes == b.len(),
        parsed_as(Format::Npz, b, path, limit) matches Ok(r) ==> r.format == "npz"@ && r.file
            == path && r.file_bytes == b.len(),
{
}

} // verus!
