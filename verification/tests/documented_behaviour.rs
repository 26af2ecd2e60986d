use tensorpeek::builder::{self, crc32, GgufBuilder, Gv, ZipWriter};
use tensorpeek::cli;
use tensorpeek::inflate::inflate_prefix;
use tensorpeek::json::Json;
use tensorpeek::report::{Report, Tensor};
use tensorpeek::{gguf, npy, npz};

/// A final dynamic block: the literal 'a' and the end of the block have codes
/// of one bit, and there is one distance code of no bits.
const LITERALS_ALONE: [u8; 13] = [
    0x05, 0xC0, 0x81, 0x08, 0, 0, 0, 0, 0x20, 0xD6, 0xFD, 0x25, 0x4E,
];

#[test]
fn a_block_of_literals_needs_no_distance_codes() {
    let r = inflate_prefix(&LITERALS_ALONE, 100).unwrap();
    assert_eq!(r.data, b"a");
    assert!(r.complete);
}

struct Bits {
    bytes: Vec<u8>,
    n: usize,
}

impl Bits {
    fn put(&mut self, value: u32, len: usize) {
        for i in 0..len {
            if self.n % 8 == 0 {
                self.bytes.push(0);
            }
            let last = self.bytes.len() - 1;
            self.bytes[last] |= (((value >> i) & 1) as u8) << (self.n % 8);
            self.n += 1;
        }
    }
}

/// A dynamic block whose literal code has the symbols `a` and `b` of one bit
/// each, and whose one distance code has no bits; `codes` follow.
fn no_distances(a: usize, b: usize, codes: &[u32]) -> Vec<u8> {
    let mut w = Bits { bytes: Vec::new(), n: 0 };
    w.put(1, 1);
    w.put(2, 2);
    w.put(1, 5); // 258 literal/length codes
    w.put(0, 5); // one distance code
    w.put(15, 4); // all 19 code length codes
    // Code lengths 0 and 1 have codes of one bit, in the format's order.
    for sym in [16, 17, 18, 0, 8, 7, 9, 6, 10, 5, 11, 4, 12, 3, 13, 2, 14, 1, 15] {
        w.put(if sym <= 1 { 1 } else { 0 }, 3);
    }
    for sym in 0..259 {
        w.put(if sym == a || sym == b { 1 } else { 0 }, 1);
    }
    for c in codes {
        w.put(*c, 1);
    }
    w.put(0, 32);
    w.bytes
}

#[test]
fn a_length_without_distance_codes_is_an_error() {
    // 'a', then the end of the block.
    let r = inflate_prefix(&no_distances(97, 256, &[0, 0, 1]), 100).unwrap();
    assert_eq!(r.data, b"aa");
    assert!(r.complete);
    // 'a', then a length, which needs a distance.
    let e = inflate_prefix(&no_distances(97, 257, &[0, 1]), 100).unwrap_err();
    assert_eq!(e, "invalid Huffman code");
    // A literal code without symbols stays an error.
    let e = inflate_prefix(&no_distances(1000, 1000, &[]), 100).unwrap_err();
    assert_eq!(e, "empty Huffman code");
}

#[test]
fn saturated_counts_are_never_negative() {
    let mut r = Report::new("x", "safetensors", 0);
    r.tensors.push(Tensor::new("h", "f32", vec![u64::MAX; 4], 0, 0));
    assert_eq!(r.parameters(), u128::MAX);
    let j = r.to_json(true, None);
    assert_eq!(j.get("parameters"), Some(&Json::Int(i128::MAX)));
    let t = &j.get("tensors").unwrap().as_arr().unwrap()[0];
    assert_eq!(t.get("numel"), Some(&Json::Int(i128::MAX)));
    let mut r = Report::new("x", "safetensors", 0);
    r.tensors.push(Tensor::new("h", "f32", vec![1 << 63, 1 << 63], 0, 0));
    assert_eq!(r.to_json(false, None).get("parameters"), Some(&Json::Int(1 << 126)));
}

#[test]
fn npy_text_is_decoded() {
    let file = builder::npy_raw(
        "{'descr': [('\u{e9}', '<f4')], 'fortran_order': False, 'shape': (1,), }",
        4,
    );
    let h = npy::parse_header(&file).unwrap();
    assert_eq!(h.dtype, "struct");
    assert_eq!(h.itemsize, Some(4));
    assert_eq!(
        h.descr,
        Json::Arr(vec![Json::Arr(vec![Json::from("\u{e9}"), Json::from("<f4")])])
    );
    let h = npy::parse_header(&builder::npy_raw(
        "{'descr': '\u{65e5}\\'\\\u{1f600}', '\u{fc}': 1, 'fortran_order': False, 'shape': (), }",
        0,
    ))
    .unwrap();
    assert_eq!(h.dtype, "\u{65e5}'\\\u{1f600}");
    assert_eq!(
        h.problems,
        [
            "unexpected npy header key '\u{fc}'",
            "unknown dtype descr '\u{65e5}'\\\u{1f600}'"
        ]
    );
    // A unit outside ASCII is written and read back.
    let file = builder::npy("<M8[\u{b5}s]", false, &[2]);
    let h = npy::parse_header(&file).unwrap();
    assert_eq!(h.descr, Json::from("<M8[\u{b5}s]"));
    assert_eq!(h.header_total + 16, file.len() as u64);
}

fn args(list: &[&str]) -> Vec<String> {
    list.iter().map(|s| s.to_string()).collect()
}

#[test]
fn a_lone_failure_prints_no_document() {
    for code in [1, 2] {
        for list in [&["f"][..], &["--compact", "f"][..], &["inspect", "--strict", "f"][..]] {
            let opts = cli::parse_args(&args(list)).unwrap();
            let out = cli::run(&opts, &vec![Err((code, "bad".to_string()))]);
            assert_eq!(out.stdout, "");
            assert_eq!(out.stderr, "tensorpeek: f: bad\n");
            assert_eq!(out.code, code);
        }
    }
    let opts = cli::parse_args(&args(&["--compact", "f", "g"])).unwrap();
    let out = cli::run(
        &opts,
        &vec![Err((1, "bad".to_string())), Err((1, "worse".to_string()))],
    );
    assert_eq!(
        out.stdout,
        "[{\"file\":\"f\",\"error\":\"bad\"},{\"file\":\"g\",\"error\":\"worse\"}]\n"
    );
}

#[test]
fn encryption_and_other_files_are_noted_whatever_the_member() {
    let mut z = ZipWriter::new();
    z.add_stored("notes.txt", b"secret");
    z.add_stored("odd.bin", b"exotic");
    z.add_stored("both.npy", b"exotic and secret");
    z.add_stored("plain.md", b"hello");
    z.entries[0].flags = 1;
    z.entries[1].method = 14;
    z.entries[2].method = 12;
    z.entries[2].flags = 1;
    let file = z.finish(false);
    let r = npz::parse(&file, file.len() as u64, "f").unwrap();
    assert_eq!(
        r.problems,
        [
            "member 'notes.txt' is encrypted",
            "member 'odd.bin' uses unsupported compression method 14",
            "member 'both.npy' uses unsupported compression method 12",
            "member 'both.npy' is encrypted",
        ]
    );
    assert_eq!(
        r.details.compact(),
        "{\"members\":4,\"zip64\":false,\"stored\":2,\"deflated\":0,\"other_files\":[\"notes.txt\",\"odd.bin\",\"plain.md\"]}"
    );
}

#[test]
fn arrays_beside_other_files_have_no_problem() {
    let a = builder::npy("<f4", false, &[2, 3]);
    let b = builder::npy(">i2", true, &[5]);
    let payloads = a.len() + 5 + b.len() + 5 + 4 + 5;
    let file = builder::npz(&[
        ("a.npy", a, false),
        ("read.me", b"hello".to_vec(), false),
        ("b.npy", b, true),
        ("more", b"data".to_vec(), true),
    ]);
    let r = npz::parse(&file, file.len() as u64, "f").unwrap();
    assert!(r.problems.is_empty());
    assert_eq!(r.data_bytes, payloads as u64);
    assert_eq!(
        r.details.compact(),
        "{\"members\":4,\"zip64\":false,\"stored\":2,\"deflated\":2,\"other_files\":[\"read.me\",\"more\"]}"
    );
    let got: Vec<(&str, &[u64])> = r
        .tensors
        .iter()
        .map(|t| (t.name.as_str(), t.shape.as_slice()))
        .collect();
    assert_eq!(got, [("a", &[2u64, 3][..]), ("b", &[5u64][..])]);
}

#[test]
fn the_zip64_form_holds_the_same_members() {
    let names = ["a", "long-name.npy", "\u{e9}.npy"];
    let build = |zip64: bool| {
        let mut z = ZipWriter::new();
        for n in names {
            z.add_stored(n, n.as_bytes());
        }
        let local = z.buf.clone();
        let sizes: Vec<(u64, u64, u64)> = z
            .entries
            .iter()
            .map(|e| (e.uncomp_size, e.comp_size, e.local_offset))
            .collect();
        (local, sizes, z.finish(zip64))
    };
    let (local, sizes, plain) = build(false);
    let (_, _, wide) = build(true);
    let n = local.len();
    assert_eq!(plain[..n], local[..]);
    assert_eq!(wide[..n], local[..]);
    let entries: usize = names.iter().map(|s| 46 + s.len()).sum();
    assert_eq!(plain.len(), n + entries + 22);
    assert_eq!(wide.len(), plain.len() + 28 * names.len() + 76);
    let word = |at: usize| u64::from_le_bytes(wide[at..at + 8].try_into().unwrap());
    let mut at = n;
    for (i, name) in names.iter().enumerate() {
        assert_eq!(wide[at + 20..at + 28], [0xff; 8]);
        assert_eq!(wide[at + 42..at + 46], [0xff; 4]);
        let x = at + 46 + name.len();
        assert_eq!(wide[x..x + 4], [1, 0, 24, 0]);
        assert_eq!((word(x + 4), word(x + 12), word(x + 20)), sizes[i]);
        at = x + 28;
    }
    assert_eq!(wide[wide.len() - 14..wide.len() - 2], [0xff; 12]);
}

#[test]
fn checksums_follow_their_laws() {
    let a = b"the quick brown fox";
    let b = b"jumps over the lazy";
    let c = b"dog 0123456789 !?()";
    let d: Vec<u8> = (0..a.len()).map(|i| a[i] ^ b[i] ^ c[i]).collect();
    assert_eq!(crc32(&d), crc32(a) ^ crc32(b) ^ crc32(c));
    for data in [&b""[..], &a[..], &[0xff; 100][..]] {
        let mut v = data.to_vec();
        v.extend(crc32(data).to_le_bytes());
        assert_eq!(crc32(&v), 0x2144_DF1C);
    }
}

#[test]
fn the_array_limit_changes_only_what_is_shown() {
    let file = GgufBuilder::new()
        .kv("a", Gv::AI32(vec![1, -2, 3, -4]))
        .kv("after", Gv::Str("end".to_string()))
        .tensor("t", &[2], 0)
        .build();
    let n = file.len() as u64;
    let whole = gguf::parse(&file, n, "f", usize::MAX).unwrap();
    for limit in 0..6usize {
        let r = gguf::parse(&file, n, "f", limit).unwrap();
        let shown = r.metadata.get("a").unwrap().compact();
        if limit >= 4 {
            assert_eq!(shown, "[1,-2,3,-4]");
        } else {
            let first: Vec<String> = [1, -2, 3, -4][..limit].iter().map(|x| x.to_string()).collect();
            assert_eq!(
                shown,
                format!(
                    "{{\"$array\":{{\"elem\":\"i32\",\"len\":4,\"first\":[{}]}}}}",
                    first.join(",")
                )
            );
        }
        assert_eq!(r.metadata.get("after"), whole.metadata.get("after"));
        assert_eq!(r.details, whole.details);
        assert_eq!(r.problems, whole.problems);
        assert_eq!(r.tensors.len(), 1);
    }
}

#[test]
fn the_gguf_header_is_enough() {
    let file = GgufBuilder::new().kv("a", Gv::U32(1)).tensor("t", &[100], 0).build();
    let n = file.len() as u64;
    let whole = gguf::parse(&file, n, "f", 16).unwrap().to_json(true, None);
    // magic, version, counts; key, type, value; name, rank, dimension, type, offset
    let header = 24 + (9 + 4 + 4) + (9 + 4 + 8 + 4 + 8);
    let r = gguf::parse(&file[..header], n, "f", 16).unwrap();
    assert_eq!(r.to_json(true, None), whole);
    let e = gguf::parse(&file[..header - 1], n, "f", 16).unwrap_err();
    assert_eq!(e.0, gguf::SHORT_READ);
}
