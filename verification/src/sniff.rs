//! Format detection. Magic bytes first — file extensions lie — with a
//! plausibility heuristic for safetensors (which has no magic) and an
//! extension fallback for empty or ambiguous prefixes.

use vstd::prelude::*;
use crate::ascii::LBRACE;
use crate::bytes::{le, u64le};
use crate::npy::MAGIC;
use crate::text::{bytes_start_with, chars_end_with, chars_of, ends_with, lower, lower_chars, same, starts_with};

verus! {

/// The four formats tensorpeek understands.
#[derive(Debug, Clone, Copy, PartialEq, Eq, Structural)]
pub enum Format {
    Safetensors,
    Gguf,
    Npy,
    Npz,
}

/// The name of a format.
pub open spec fn format_name(f: Format) -> Seq<char> {
    match f {
        Format::Safetensors => "safetensors"@,
        Format::Gguf => "gguf"@,
        Format::Npy => "npy"@,
        Format::Npz => "npz"@,
    }
}

/// The format with a given name.
pub open spec fn named_format(s: Seq<char>) -> Option<Format> {
    if s == "safetensors"@ {
        Some(Format::Safetensors)
    } else if s == "gguf"@ {
        Some(Format::Gguf)
    } else if s == "npy"@ {
        Some(Format::Npy)
    } else if s == "npz"@ {
        Some(Format::Npz)
    } else {
        None
    }
}

impl Format {
    pub fn name(self) -> (r: &'static str)
        ensures
            r@ == format_name(self),
    {
        match self {
            Format::Safetensors => "safetensors",
            Format::Gguf => "gguf",
            Format::Npy => "npy",
            Format::Npz => "npz",
        }
    }

    /// For `--as <format>` on the command line.
    pub fn from_name(s: &str) -> (r: Option<Format>)
        ensures
            r == named_format(s@),
    {
        if same(s, "safetensors") {
            Some(Format::Safetensors)
        } else if same(s, "gguf") {
            Some(Format::Gguf)
        } else if same(s, "npy") {
            Some(Format::Npy)
        } else if same(s, "npz") {
            Some(Format::Npz)
        } else {
            None
        }
    }
}

/// The format the first bytes prove by a magic number. Any ZIP local-header
/// or (for an empty archive) end-of-directory signature counts as npz.
pub open spec fn magic_format(prefix: Seq<u8>) -> Option<Format> {
    if starts_with(prefix, seq![0x47u8, 0x47, 0x55, 0x46]) {
        Some(Format::Gguf)
    } else if starts_with(prefix, MAGIC@) {
        Some(Format::Npy)
    } else if starts_with(prefix, seq![0x50u8, 0x4b, 3, 4]) || starts_with(
        prefix,
        seq![0x50u8, 0x4b, 5, 6],
    ) {
        Some(Format::Npz)
    } else {
        None
    }
}

/// safetensors has no magic: an 8-byte LE header length that fits the file,
/// followed by the `{` of the JSON header, is a strong signal.
pub open spec fn looks_like_safetensors(prefix: Seq<u8>, file_len: nat) -> bool {
    prefix.len() >= 9 && le(prefix, 0, 8) > 0 && le(prefix, 0, 8) + 8 <= file_len && prefix[8]
        == LBRACE
}

/// The format a file name's extension claims, whatever its case.
pub open spec fn extension_format(path: Seq<char>) -> Option<Format> {
    let p = lower(path);
    if ends_with(p, ".safetensors"@) {
        Some(Format::Safetensors)
    } else if ends_with(p, ".gguf"@) {
        Some(Format::Gguf)
    } else if ends_with(p, ".npy"@) {
        Some(Format::Npy)
    } else if ends_with(p, ".npz"@) {
        Some(Format::Npz)
    } else {
        None
    }
}

pub open spec fn detected(prefix: Seq<u8>, file_len: nat, path: Seq<char>) -> Option<Format> {
    if magic_format(prefix) is Some {
        magic_format(prefix)
    } else if looks_like_safetensors(prefix, file_len) {
        Some(Format::Safetensors)
    } else {
        extension_format(path)
    }
}

/// Detect the format from the first bytes of the file (at least 9 are
/// needed for the safetensors heuristic), the file length and — as a last
/// resort — the file name.
pub fn detect(prefix: &[u8], file_len: u64, path: &str) -> (r: Option<Format>)
    ensures
        r == detected(prefix@, file_len as nat, path@),
{
    let gguf: [u8; 4] = [0x47, 0x47, 0x55, 0x46];
    let local: [u8; 4] = [0x50, 0x4b, 3, 4];
    let eocd: [u8; 4] = [0x50, 0x4b, 5, 6];
    assert(gguf@ =~= seq![0x47u8, 0x47, 0x55, 0x46]);
    assert(local@ =~= seq![0x50u8, 0x4b, 3, 4]);
    assert(eocd@ =~= seq![0x50u8, 0x4b, 5, 6]);
    if bytes_start_with(prefix, &gguf) {
        return Some(Format::Gguf);
    }
    if bytes_start_with(prefix, &MAGIC) {
        return Some(Format::Npy);
    }
    if bytes_start_with(prefix, &local) || bytes_start_with(prefix, &eocd) {
        return Some(Format::Npz);
    }
    if prefix.len() >= 9 {
        let header_len: u64 = u64le(prefix, 0);
        if header_len > 0 && file_len >= 8 && header_len <= file_len - 8 && prefix[8] == LBRACE {
            return Some(Format::Safetensors);
        }
    }
    let p: Vec<char> = lower_chars(chars_of(path).as_slice());
    if chars_end_with(p.as_slice(), ".safetensors") {
        Some(Format::Safetensors)
    } else if chars_end_with(p.as_slice(), ".gguf") {
        Some(Format::Gguf)
    } else if chars_end_with(p.as_slice(), ".npy") {
        Some(Format::Npy)
    } else if chars_end_with(p.as_slice(), ".npz") {
        Some(Format::Npz)
    } else {
        None
    }
}

/// Every format is found again by its name.
pub proof fn law_format_names(f: Format)
    ensures
        named_format(format_name(f)) == Some(f),
{
    reveal_strlit("safetensors");
    reveal_strlit("gguf");
    reveal_strlit("npy");
    reveal_strlit("npz");
    assert("gguf"@.len() == 4 && "npy"@.len() == 3 && "npz"@.len() == 3 && "safetensors"@.len()
        == 11);
    assert("npy"@[2] != "npz"@[2]);
}

/// A magic number decides, whatever the file is called and however long it is.
pub proof fn law_magic_beats_extension(prefix: Seq<u8>, file_len: nat, path: Seq<char>, f: Format)
    requires
        magic_format(prefix) == Some(f),
    ensures
        detected(prefix, file_len, path) == Some(f),
{
}

/// Magic numbers are decided within the first six bytes: a longer prefix of
/// the same file does not change what they prove.
pub proof fn law_magic_needs_six_bytes(prefix: Seq<u8>)
    requires
        prefix.len() >= 6,
    ensures
        magic_format(prefix.take(6)) == magic_format(prefix),
{
    let p = prefix.take(6);
    assert(p.take(4) =~= prefix.take(4));
    assert(p.take(6) =~= prefix.take(6));
    assert(MAGIC@.len() == 6);
}

} // verus!
