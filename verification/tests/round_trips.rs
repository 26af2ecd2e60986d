use tensorpeek::builder::{self, GgufBuilder, Gv, ZipWriter};
use tensorpeek::cli::inspect_bytes;
use tensorpeek::inflate::inflate_prefix;
use tensorpeek::json::Json;
use tensorpeek::npz::{Walk, MAX_CDIR};
use tensorpeek::report::{PeekError, Report};
use tensorpeek::sniff::{detect, Format};
use tensorpeek::{gguf, npy, npz, safetensors};

fn shown(r: &Result<Report, PeekError>) -> String {
    match r {
        Ok(report) => report.to_json(true, None).compact(),
        Err(e) => format!("error: {}", e.0),
    }
}

#[test]
fn written_safetensors_are_read_back_whole_or_cut() {
    let file = builder::safetensors(
        &[("a", "F32", &[2, 3]), ("b", "BF16", &[5]), ("c", "BOOL", &[])],
        &[("format", "pt"), ("note", "caf\u{e9} \"x\"")],
    );
    let r = safetensors::parse(&file, file.len() as u64, "f").unwrap();
    assert!(r.problems.is_empty());
    assert_eq!(r.header_bytes % 8, 0);
    assert_eq!(r.data_bytes, 24 + 10 + 1);
    assert_eq!(r.header_bytes + r.data_bytes, file.len() as u64);
    let got: Vec<(&str, &str, u64, u64)> = r
        .tensors
        .iter()
        .map(|t| (t.name.as_str(), t.dtype.as_str(), t.offset, t.bytes))
        .collect();
    assert_eq!(
        got,
        [
            ("a", "f32", 0, 24),
            ("b", "bf16", 24, 10),
            ("c", "bool", 34, 1)
        ]
    );
    assert_eq!(
        r.metadata.compact(),
        "{\"format\":\"pt\",\"note\":\"caf\u{e9} \\\"x\\\"\"}"
    );
    for cut in 1..=35u64 {
        let n = file.len() as u64 - cut;
        let r = safetensors::parse(&file[..n as usize], n, "f").unwrap();
        assert_eq!(
            r.problems,
            [format!(
                "data section needs 35 bytes but only {} are present ({cut} missing) — truncated file",
                35 - cut
            )]
        );
        assert_eq!(r.tensors.len(), 3);
    }
}

#[test]
fn the_safetensors_header_is_enough() {
    let file = builder::safetensors(&[("a", "F32", &[200])], &[]);
    let needed = safetensors::prefix_len(&file[..8]);
    let n = file.len() as u64;
    assert_eq!(needed + 800, n);
    assert_eq!(
        shown(&safetensors::parse(&file[..needed as usize], n, "f")),
        shown(&safetensors::parse(&file, n, "f"))
    );
    assert_eq!(safetensors::prefix_len(&[]), 8);
    assert_eq!(safetensors::prefix_len(&[0xff; 8]), 8);
}

#[test]
fn written_npy_files_are_read_back_whole_or_cut() {
    let cases: [(&str, &str, u64, &str); 8] = [
        ("<f4", "f32", 4, "little"),
        (">i8", "i64", 8, "big"),
        ("|b1", "bool", 1, "none"),
        ("=u2", "u16", 2, "native"),
        ("<c16", "complex128", 16, "little"),
        ("<U3", "str3", 12, "little"),
        ("|S7", "bytes7", 7, "none"),
        ("<M8[ns]", "datetime64", 8, "little"),
    ];
    let shapes: [&[u64]; 4] = [&[], &[7], &[2, 3], &[4, 0, 2]];
    for (descr, dtype, size, order) in cases {
        for shape in shapes {
            for fortran in [false, true] {
                let n: u64 = shape.iter().product();
                for (file, version) in [
                    (builder::npy(descr, fortran, shape), (1, 0)),
                    (builder::npy_v2(descr, fortran, shape), (2, 0)),
                ] {
                    let h = npy::parse_header(&file).unwrap();
                    assert_eq!(h.version, version);
                    assert_eq!(h.header_total % 64, 0);
                    assert_eq!(h.dtype, dtype);
                    assert_eq!(h.itemsize, Some(size));
                    assert_eq!(h.byte_order, order);
                    assert_eq!(h.fortran_order, fortran);
                    assert_eq!(h.shape, shape);
                    assert_eq!(h.descr, Json::from(descr));
                    assert_eq!(h.header_total + n * size, file.len() as u64);
                    assert_eq!(h.numel(), n as u128);
                    assert_eq!(h.data_bytes(), Some(n * size));
                }
            }
        }
    }
    let file = builder::npy("<f8", false, &[3]);
    for cut in 0..=24u64 {
        let n = file.len() as u64 - cut;
        let r = npy::parse(&file[..n as usize], n, "f").unwrap();
        if cut == 0 {
            assert!(r.problems.is_empty());
        } else {
            assert_eq!(
                r.problems,
                [format!(
                    "array data needs 24 bytes but only {} are present ({cut} missing) — truncated file",
                    24 - cut
                )]
            );
        }
    }
}

#[test]
fn the_npy_header_is_enough() {
    let file = builder::npy("<f4", false, &[100]);
    let total = npy::parse_header(&file).unwrap().header_total as usize;
    let alone = npy::parse_header(&file[..total]).unwrap();
    assert_eq!(alone.header_total, total as u64);
    assert_eq!(alone.shape, [100]);
    assert!(npy::parse_header(&file[..total - 1]).is_err());
}

fn rich_gguf() -> GgufBuilder {
    GgufBuilder::new()
        .kv("general.alignment", Gv::U32(64))
        .kv("a", Gv::U8(200))
        .kv("b", Gv::I8(-5))
        .kv("c", Gv::U16(65535))
        .kv("d", Gv::I16(-32768))
        .kv("e", Gv::I32(-1))
        .kv("f", Gv::F32(1.5f32.to_bits()))
        .kv("g", Gv::Bool(true))
        .kv("h", Gv::Str("gr\u{fc}n".to_string()))
        .kv("i", Gv::U64(u64::MAX))
        .kv("j", Gv::I64(i64::MIN))
        .kv("k", Gv::F64((-0.25f64).to_bits()))
        .kv("l", Gv::AStr(vec!["x".to_string(), "".to_string(), "yz".to_string()]))
        .kv("m", Gv::AI32(vec![-2, 0, 7]))
        .kv("n", Gv::AF32(vec![0.5f32.to_bits(), 2f32.to_bits()]))
        .tensor("t0", &[3], 0)
        .tensor("t1", &[32, 2], 8)
        .tensor("t2", &[], 1)
}

#[test]
fn written_gguf_files_are_read_back_whole_or_cut() {
    let file = rich_gguf().build();
    let n = file.len() as u64;
    let r = gguf::parse(&file, n, "f", 2).unwrap();
    assert!(r.problems.is_empty(), "{:?}", r.problems);
    assert_eq!(
        r.metadata.compact(),
        [
            "{\"general.alignment\":64,\"a\":200,\"b\":-5,\"c\":65535,\"d\":-32768,\"e\":-1,",
            "\"f\":1.5,\"g\":true,\"h\":\"gr\u{fc}n\",\"i\":18446744073709551615,",
            "\"j\":-9223372036854775808,\"k\":-0.25,",
            "\"l\":{\"$array\":{\"elem\":\"string\",\"len\":3,\"first\":[\"x\",\"\"]}},",
            "\"m\":{\"$array\":{\"elem\":\"i32\",\"len\":3,\"first\":[-2,0]}},",
            "\"n\":[0.5,2.0]}",
        ]
        .concat()
    );
    let start = r.details.get("data_start").and_then(Json::as_int).unwrap();
    assert_eq!(start % 64, 0);
    let got: Vec<(u64, u64)> = r.tensors.iter().map(|t| (t.offset, t.bytes)).collect();
    assert_eq!(got, [(0, 12), (64, 68), (192, 2)]);
    assert_eq!(r.data_bytes, 194);
    assert_eq!(start as u64 + r.data_bytes, n);
    for cut in [1u64, 2, 100, 194] {
        let k = n - cut;
        let r = gguf::parse(&file[..k as usize], k, "f", 2).unwrap();
        assert_eq!(
            r.problems,
            [format!(
                "tensor data needs 194 bytes but only {} are present ({cut} missing) — truncated file",
                194 - cut
            )]
        );
    }
    assert_eq!(rich_gguf().build_with_alignment(64), file);
}

#[test]
fn a_gguf_prefix_decides_or_runs_short() {
    let file = rich_gguf().build();
    let n = file.len() as u64;
    let whole = shown(&gguf::parse(&file, n, "f", 16));
    let mut decided = 0;
    for k in 0..=file.len() {
        let r = gguf::parse(&file[..k], n, "f", 16);
        let next = gguf::next_prefix(&r, k as u64, n);
        if shown(&r) == whole {
            decided += 1;
            assert_eq!(next, None);
        } else {
            assert_eq!(shown(&r), format!("error: {}", gguf::SHORT_READ));
            let twice = if k == 0 { gguf::FIRST_PREFIX } else { 2 * k as u64 };
            assert_eq!(next, Some(twice.min(n)));
        }
    }
    assert!(decided > 194);
    // An error that is not a short read is final.
    let r = gguf::parse(b"nope", 1000, "f", 16);
    assert_eq!(shown(&r), "error: not a GGUF file (bad magic)");
    assert_eq!(gguf::next_prefix(&r, 4, 1000), None);
}

fn two_arrays() -> Vec<(&'static str, Vec<u8>, bool)> {
    vec![
        ("w.npy", builder::npy("<f4", false, &[4, 4]), false),
        ("b.npy", builder::npy("<i8", false, &[100]), true),
    ]
}

#[test]
fn written_archives_are_read_back_with_and_without_zip64() {
    for zip64 in [false, true] {
        let mut z = ZipWriter::new();
        for (name, data, deflate) in two_arrays() {
            if deflate {
                z.add_deflated(name, &data);
            } else {
                z.add_stored(name, &data);
            }
        }
        let file = z.finish(zip64);
        if !zip64 {
            assert_eq!(file, builder::npz(&two_arrays()));
        }
        let r = npz::parse(&file, file.len() as u64, "f").unwrap();
        assert!(r.problems.is_empty());
        assert_eq!(
            r.details.compact(),
            format!("{{\"members\":2,\"zip64\":{zip64},\"stored\":1,\"deflated\":1,\"other_files\":[]}}")
        );
        assert_eq!(r.tensors[0].name, "w");
        assert_eq!(r.tensors[1].name, "b");
        assert_eq!(r.tensors[1].shape, [100]);
        assert_eq!(r.tensors[1].bytes, 800);
    }
}

#[test]
fn members_larger_than_any_read_still_give_their_header() {
    // 5 MB of deflated data is beyond the compressed bytes that are read.
    let big = builder::npy("<u1", false, &[5_000_000]);
    let file = builder::npz(&[("big.npy", big, true)]);
    let r = npz::parse(&file, file.len() as u64, "f").unwrap();
    assert!(r.problems.is_empty(), "{:?}", r.problems);
    assert_eq!(r.tensors[0].shape, [5_000_000]);
    assert_eq!(r.tensors[0].dtype, "u8");
}

#[test]
fn an_archive_can_be_walked_by_hand() {
    let file = builder::npz(&two_arrays());
    let n = file.len() as u64;
    let mut walk = Walk::new(n, "f");
    let mut asked: Vec<(u64, u64)> = Vec::new();
    while let Some((off, len)) = walk.request() {
        assert!(len <= MAX_CDIR);
        asked.push((off, len));
        walk.supply(Ok(&file[off as usize..(off + len) as usize]));
    }
    // Tail, directory, and a local header and the data of each member.
    assert_eq!(asked.len(), 6);
    assert_eq!(asked[0], (0, n));
    assert_eq!(asked[2], (0, 30));
    let r = walk.finish();
    assert_eq!(shown(&r), shown(&npz::parse(&file, n, "f")));
}

#[test]
fn failed_reads_end_the_walk_or_become_member_problems() {
    let file = builder::npz(&two_arrays());
    let n = file.len() as u64;
    let mut walk = Walk::new(n, "f");
    walk.supply(Err(PeekError("I/O error: gone".to_string())));
    assert!(walk.request().is_none());
    assert_eq!(walk.finish().unwrap_err().to_string(), "I/O error: gone");

    let mut walk = Walk::new(n, "f");
    let mut k = 0;
    while let Some((off, len)) = walk.request() {
        if k == 2 {
            walk.supply(Err(PeekError("I/O error: gone".to_string())));
        } else {
            walk.supply(Ok(&file[off as usize..(off + len) as usize]));
        }
        k += 1;
    }
    let r = walk.finish().unwrap();
    assert_eq!(r.problems, ["member 'w.npy': I/O error: gone"]);
    assert_eq!(r.tensors.len(), 1);
}

#[test]
fn every_written_file_is_recognized_under_any_name() {
    let files: [(Vec<u8>, Format); 6] = [
        (builder::safetensors(&[], &[]), Format::Safetensors),
        (
            builder::safetensors(&[("w", "F32", &[2])], &[("a", "b")]),
            Format::Safetensors,
        ),
        (GgufBuilder::demo().build(), Format::Gguf),
        (builder::npy("<f4", false, &[2]), Format::Npy),
        (builder::npz(&two_arrays()), Format::Npz),
        (builder::npz(&[]), Format::Npz),
    ];
    for (file, format) in &files {
        for path in ["x", "x.npy", "x.gguf", "x.safetensors", "x.npz"] {
            let start = &file[..file.len().min(16)];
            assert_eq!(detect(start, file.len() as u64, path), Some(*format));
            let r = inspect_bytes(file, path, None, 16).unwrap();
            assert_eq!(r.format, format.name());
            assert!(r.problems.is_empty());
        }
    }
}

#[test]
fn a_smaller_budget_gives_a_prefix() {
    let data: Vec<u8> = (0..140_000u32).map(|i| (i / 7 % 251) as u8).collect();
    let stream = builder::deflate_stored(&data);
    let budgets = [0usize, 1, 2, 65_534, 65_535, 65_536, 131_070, 139_999];
    for max in budgets {
        let r = inflate_prefix(&stream, max).unwrap();
        assert_eq!(r.data, &data[..max]);
        assert!(!r.complete);
    }
    for max in [140_000usize, 140_001, 1_000_000] {
        let r = inflate_prefix(&stream, max).unwrap();
        assert_eq!(r.data, data);
        assert_eq!(r.complete, max > data.len());
    }
}

#[test]
fn demo_files_behave_as_documented() {
    let model = builder::safetensors(
        &[
            ("embed.weight", "F32", &[32, 8]),
            ("fc1.weight", "F16", &[8, 16]),
            ("fc1.bias", "F16", &[16]),
        ],
        &[("format", "pt"), ("producer", "gen_fixtures")],
    );
    let r = inspect_bytes(&model, "model.safetensors", None, 16).unwrap();
    assert_eq!(r.tensors.len(), 3);
    assert_eq!(r.metadata.get("format").and_then(Json::as_str), Some("pt"));
    assert!(r.problems.is_empty());

    let r = inspect_bytes(&GgufBuilder::demo().build(), "model.gguf", None, 16).unwrap();
    assert_eq!(r.details.get("version").and_then(Json::as_int), Some(3));
    assert_eq!(r.details.get("architecture").and_then(Json::as_str), Some("llama"));
    assert_eq!(r.tensors.len(), 4);

    let r = inspect_bytes(&builder::npy("<f4", false, &[512, 64]), "e.npy", None, 16).unwrap();
    assert_eq!((r.tensors[0].name.as_str(), r.tensors[0].dtype.as_str()), ("", "f32"));
    assert_eq!(r.tensors[0].shape, [512, 64]);

    let r = inspect_bytes(&builder::npz(&two_arrays()), "weights.npz", None, 16).unwrap();
    assert_eq!(r.details.get("stored").and_then(Json::as_int), Some(1));
    assert_eq!(r.details.get("deflated").and_then(Json::as_int), Some(1));

    let mut cut = builder::safetensors(&[("w", "F32", &[256])], &[]);
    cut.truncate(cut.len() - 100);
    let r = inspect_bytes(&cut, "truncated.safetensors", None, 16).unwrap();
    assert!(r.problems[0].contains("(100 missing)"));

    let e = inspect_bytes(b"\xde\xad\xbe\xefjust some junk bytes", "not-a-tensor.bin", None, 16)
        .unwrap_err();
    assert_eq!(e.0, 1);
    assert!(e.1.contains("unrecognized format") && e.1.contains("--as"));
}
