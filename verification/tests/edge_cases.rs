use tensorpeek::builder::{self, GgufBuilder, Gv, ZipWriter};
use tensorpeek::cli::{self, Cmd};
use tensorpeek::json::Json;
use tensorpeek::npy::{self, Py};
use tensorpeek::report::{filter_match, PeekError, Report, Tensor};
use tensorpeek::sniff::Format;
use tensorpeek::{gguf, npz, safetensors};

fn json_error(text: &str) -> (String, usize) {
    let e = Json::parse(text.as_bytes()).unwrap_err();
    (e.msg, e.offset)
}

#[test]
fn json_errors_name_their_place() {
    let cases: [(&str, &str, usize); 20] = [
        ("", "unexpected end of input", 0),
        ("  ", "unexpected end of input", 2),
        ("tru", "invalid literal", 0),
        ("@", "unexpected character", 0),
        ("1 2", "trailing data after JSON document", 2),
        ("[1 2]", "expected ',' or ']' in array", 3),
        ("{\"a\":1 2}", "expected ',' or '}' in object", 7),
        ("{1:2}", "expected string key", 1),
        ("{\"a\" 1}", "expected ':' after key", 5),
        ("\"abc", "unterminated string", 4),
        ("\"\\", "unterminated escape", 2),
        ("\"\\q\"", "invalid escape", 3),
        ("\"\\u12", "truncated \\u escape", 5),
        ("\"\\u12x4\"", "bad hex digit", 5),
        ("\"\\ud800x\"", "lone high surrogate", 7),
        ("\"\\udc00\"", "lone low surrogate", 7),
        ("01", "leading zero in number", 1),
        ("1.", "expected digit after '.'", 2),
        ("1e+", "expected exponent digit", 3),
        ("-", "expected digit", 1),
    ];
    for (text, msg, offset) in cases {
        assert_eq!(json_error(text), (msg.to_string(), offset), "{text}");
        assert!(offset <= text.len());
    }
    assert_eq!(json_error("\"\\ud800\\n\"").0, "lone high surrogate");
    assert_eq!(json_error("\"\\ud800\\u0041\"").0, "invalid low surrogate");
    let e = Json::parse(b"\"\x01\"").unwrap_err();
    assert_eq!(e.to_string(), "raw control character in string at byte 2");
    assert_eq!(Json::parse(b"\"\xff\"").unwrap_err().msg, "invalid UTF-8");
    assert_eq!(Json::parse(b"\"\xc3\"").unwrap_err().msg, "invalid UTF-8");
    assert_eq!(
        Json::parse(b"\"\xe2\x82").unwrap_err().msg,
        "truncated UTF-8 sequence"
    );
}

#[test]
fn json_nesting_stops_at_the_cap() {
    let deep = |n: usize| format!("{}{}", "[".repeat(n), "]".repeat(n));
    assert!(Json::parse(deep(129).as_bytes()).is_ok());
    assert_eq!(json_error(&deep(130)).0, "nesting too deep");
}

#[test]
fn json_equality_is_that_of_numbers() {
    let zero = Json::Float(0f64.to_bits());
    let minus_zero = Json::Float((-0f64).to_bits());
    let nan = Json::Float(f64::NAN.to_bits());
    assert!(zero == minus_zero);
    assert!(nan != nan.clone());
    assert!(Json::Float(1f64.to_bits()) != Json::Int(1));
    let text = b"{\"a\":[1,2.5,null,true,\"x\"],\"b\":{}}";
    let v = Json::parse(text).unwrap();
    assert!(v == v.clone());
    assert!(v != Json::parse(b"{\"a\":[1,2.5,null,true,\"y\"],\"b\":{}}").unwrap());
    assert!(v != Json::parse(b"{\"a\":[1,2.5,null,true,\"x\"],\"c\":{}}").unwrap());
    assert!(v != Json::parse(b"{\"a\":[1,2.5,null,true],\"b\":{}}").unwrap());
    assert_eq!(Json::from("x"), Json::Str("x".to_string()));
    assert_eq!(Json::from(u64::MAX), Json::Int(18446744073709551615));
}

#[test]
fn both_forms_of_a_document_are_read_back() {
    let text = "{\"a\":[1,-2,3.5,1e-7,\"\\u0000\\t\u{1f600}\"],\"b\":{\"c\":null,\"d\":[[],{}]},\"\":false}";
    let v = Json::parse(text.as_bytes()).unwrap();
    assert_eq!(Json::parse(v.compact().as_bytes()).unwrap(), v);
    assert_eq!(Json::parse(v.pretty().as_bytes()).unwrap(), v);
    let padded = format!(" \t\r\n{}\n ", v.pretty());
    assert_eq!(Json::parse(padded.as_bytes()).unwrap(), v);
    for n in [0, -1, i128::MAX, i128::MIN, 1 << 64] {
        assert_eq!(Json::parse(Json::Int(n).compact().as_bytes()), Ok(Json::Int(n)));
    }
}

fn npy_error(dict: &str) -> String {
    npy::parse_header(&builder::npy_raw(dict, 0)).unwrap_err().0
}

#[test]
fn npy_dict_errors_name_their_place() {
    let cases: [(&str, &str); 14] = [
        ("x", "npy header does not start with '{' (at header byte 0)"),
        ("{'a", "unterminated string (at header byte 3)"),
        ("{'a\\", "unterminated escape (at header byte 4)"),
        ("{'a' 1}", "expected ':' in header dict (at header byte 5)"),
        ("{1: 2}", "dict key is not a string (at header byte 2)"),
        ("{'a': 1 2}", "expected ',' or '}' in header dict (at header byte 8)"),
        ("{'a': (1 2)}", "expected ',' or a closing bracket (at header byte 9)"),
        ("{'a': None}", "unsupported literal in header dict (at header byte 6)"),
        ("{'a': -}", "invalid integer (at header byte 7)"),
        ("{'a': 9223372036854775808}", "invalid integer (at header byte 25)"),
        ("{}", "npy header is missing 'descr'"),
        ("{'descr': '<f4'}", "npy header is missing 'fortran_order'"),
        ("{'descr': '<f4', 'fortran_order': True}", "npy header is missing 'shape'"),
        ("{'fortran_order': 1}", "fortran_order is not a boolean"),
    ];
    for (dict, msg) in cases {
        assert_eq!(npy_error(dict), msg, "{dict}");
    }
    let head = "{'descr': '<f4', 'fortran_order': False, 'shape': ";
    assert_eq!(npy_error(&format!("{head}3}}")), "npy shape is not a tuple");
    assert_eq!(
        npy_error(&format!("{head}(3, -1)}}")),
        "npy shape contains a non-integer dimension"
    );
    let mut file = builder::npy_raw("{'descr': '<f4', }", 0);
    file[12] = 0xff;
    assert_eq!(
        npy::parse_header(&file).unwrap_err().0,
        "npy header dict is not valid ASCII/UTF-8"
    );
}

#[test]
fn npy_oddities_are_problems() {
    let h = |dict: &str| npy::parse_header(&builder::npy_raw(dict, 0)).unwrap();
    let rest = "'fortran_order': False, 'shape': (2,), }";
    let a = h(&format!("{{'descr': '<f4', 'extra': True, {rest}"));
    assert_eq!(a.problems, ["unexpected npy header key 'extra'"]);
    let b = h(&format!("{{'descr': True, {rest}"));
    assert_eq!(b.problems, ["descr is neither a string nor a field list"]);
    let c = h(&format!("{{'descr': [('a', '?9')], {rest}"));
    assert_eq!(c.problems, ["structured descr could not be fully interpreted"]);
    assert_eq!(c.itemsize, None);
    assert_eq!(c.data_bytes(), None);
    let d = h(&format!("{{'descr': [('a', '<f4', (2, 3)), ('b', [('c', '|u1')])], {rest}"));
    assert_eq!(d.itemsize, Some(25));
    assert_eq!(
        d.descr.compact(),
        "[[\"a\",\"<f4\",[2,3]],[\"b\",[[\"c\",\"|u1\"]]]]"
    );
    let file = builder::npy_raw(&format!("{{'descr': '<f4', {rest}"), 9);
    let r = npy::parse(&file, file.len() as u64, "f").unwrap();
    assert_eq!(r.problems, ["1 trailing byte after the array data"]);
}

#[test]
fn descr_strings_are_interpreted_exactly() {
    assert_eq!(
        npy::parse_descr_str("<f8"),
        Some(("f64".to_string(), 8, "little"))
    );
    assert_eq!(
        npy::parse_descr_str("U16"),
        Some(("str16".to_string(), 64, "native"))
    );
    assert_eq!(
        npy::parse_descr_str(">V0"),
        Some(("void0".to_string(), 0, "none"))
    );
    for s in ["", "<", "<f", "<f3", "<x4", "<f4x", "<U4611686018427387904", "\u{e9}4"] {
        assert_eq!(npy::parse_descr_str(s), None, "{s}");
    }
    let v = Py::Items(vec![Py::Str("a".to_string()), Py::Int(-3), Py::Bool(true)], true);
    assert!(v == v.clone());
}

fn gguf_error(bytes: &[u8]) -> String {
    gguf::parse(bytes, bytes.len() as u64, "f", 16).unwrap_err().0
}

fn head(version: u32, tensors: u64, keys: u64) -> Vec<u8> {
    let mut b = b"GGUF".to_vec();
    b.extend(version.to_le_bytes());
    b.extend(tensors.to_le_bytes());
    b.extend(keys.to_le_bytes());
    b
}

fn put_str(b: &mut Vec<u8>, s: &[u8]) {
    b.extend((s.len() as u64).to_le_bytes());
    b.extend(s);
}

#[test]
fn gguf_errors_are_told_apart() {
    assert_eq!(
        gguf_error(b"GG"),
        "header needs 4 more bytes at offset 0 but the file ends at 2 — truncated header"
    );
    assert_eq!(gguf_error(&head(1, 0, 0)), "GGUF v1 is obsolete and unsupported");
    assert_eq!(gguf_error(&head(9, 0, 0)), "unsupported GGUF version 9");
    assert_eq!(
        gguf_error(&head(3 << 24, 0, 0)),
        "this looks like a big-endian GGUF file, which tensorpeek does not support"
    );
    assert_eq!(
        gguf_error(&head(3, 1, 2)),
        "header declares 2 metadata keys and 1 tensors, which cannot fit in a 24-byte file"
    );
    let mut b = head(3, 0, 1);
    b.extend(100u64.to_le_bytes());
    b.extend([0u8; 20]);
    assert_eq!(
        gguf_error(&b),
        "string length 100 at offset 24 exceeds the rest of the file"
    );
    let mut b = head(3, 0, 1);
    put_str(&mut b, b"k");
    b.extend(13u32.to_le_bytes());
    b.extend([0u8; 8]);
    assert_eq!(gguf_error(&b), "unknown metadata value type 13");
    let mut b = head(3, 0, 1);
    put_str(&mut b, b"k");
    b.extend(9u32.to_le_bytes());
    b.extend(4u32.to_le_bytes());
    b.extend(1000u64.to_le_bytes());
    assert_eq!(
        gguf_error(&b),
        "array declares 1000 elements, which cannot fit in the rest of the file"
    );
    let mut b = head(3, 0, 1);
    put_str(&mut b, b"k");
    b.extend(9u32.to_le_bytes());
    for _ in 0..4 {
        b.extend(9u32.to_le_bytes());
        b.extend(1u64.to_le_bytes());
    }
    b.extend([0u8; 12]);
    assert_eq!(gguf_error(&b), "metadata arrays nested too deeply");
    let mut b = head(3, 1, 0);
    put_str(&mut b, b"t");
    b.extend(9u32.to_le_bytes());
    b.extend([0u8; 80]);
    assert_eq!(
        gguf_error(&b),
        "tensor 't' declares 9 dimensions (max 8) — corrupt header"
    );
}

#[test]
fn gguf_bytes_that_are_not_utf8_are_replaced_and_noted() {
    let mut b = head(3, 1, 2);
    put_str(&mut b, b"k\xff");
    b.extend(8u32.to_le_bytes());
    put_str(&mut b, b"a\xc3(");
    put_str(&mut b, b"flag");
    b.extend(7u32.to_le_bytes());
    b.push(2);
    put_str(&mut b, b"\xfft");
    b.extend(0u32.to_le_bytes());
    b.extend(24u32.to_le_bytes());
    b.extend(0u64.to_le_bytes());
    let r = gguf::parse(&b, b.len() as u64, "f", 16).unwrap();
    assert_eq!(
        r.metadata.compact(),
        "{\"k\u{fffd}\":\"a\u{fffd}(\",\"flag\":true}"
    );
    assert_eq!(r.tensors[0].name, "\u{fffd}t");
    assert_eq!(
        r.problems[..4],
        [
            "metadata key 'k\u{fffd}' is not valid UTF-8",
            "string metadata value is not valid UTF-8",
            "bool metadata value has byte 2 (must be 0 or 1)",
            "tensor #0 name is not valid UTF-8",
        ]
    );
}

#[test]
fn gguf_trailing_bytes_count_from_the_alignment_on() {
    let file = GgufBuilder::new().tensor("t", &[1], 0).build();
    let r = |extra: usize| {
        let mut b = file.clone();
        b.resize(file.len() + extra, 0);
        gguf::parse(&b, b.len() as u64, "f", 16).unwrap().problems
    };
    assert!(r(31).is_empty());
    assert_eq!(r(32), ["32 trailing bytes after the last tensor"]);
}

fn st(json: &str) -> Result<Report, PeekError> {
    let mut b = (json.len() as u64).to_le_bytes().to_vec();
    b.extend(json.as_bytes());
    safetensors::parse(&b, b.len() as u64, "f")
}

#[test]
fn safetensors_errors_and_problems_are_told_apart() {
    let fatal = |b: &[u8]| safetensors::parse(b, b.len() as u64, "f").unwrap_err().0;
    assert_eq!(fatal(b"short"), "file too small for a safetensors header");
    assert_eq!(
        fatal(&[0xff; 9]),
        "declared header length 18446744073709551615 exceeds the 100 MB format cap"
    );
    assert_eq!(
        fatal(&[2, 0, 0, 0, 0, 0, 0, 0]),
        "declared header length 2 exceeds the file itself (8 bytes)"
    );
    assert_eq!(
        safetensors::parse(&[2, 0, 0, 0, 0, 0, 0, 0], 10, "f").unwrap_err().0,
        "file ends inside the JSON header"
    );
    assert_eq!(
        st("{]").unwrap_err().0,
        "header is not valid JSON: expected string key at byte 1"
    );
    assert_eq!(st("[]").unwrap_err().0, "header JSON is not an object");
    let cases: [(&str, &str); 8] = [
        ("{\"__metadata__\":{\"a\":1}}", "__metadata__ is not a string-to-string map"),
        ("{\"t\":{}}", "tensor 't': missing or non-string dtype"),
        ("{\"t\":{\"dtype\":\"F32\"}}", "tensor 't': missing or non-array shape"),
        (
            "{\"t\":{\"dtype\":\"F32\",\"shape\":[-1]}}",
            "tensor 't': shape contains a non-integer or negative dimension",
        ),
        (
            "{\"t\":{\"dtype\":\"F32\",\"shape\":[]}}",
            "tensor 't': missing data_offsets",
        ),
        (
            "{\"t\":{\"dtype\":\"F32\",\"shape\":[],\"data_offsets\":[0,true]}}",
            "tensor 't': data_offsets is not a pair of integers",
        ),
        (
            "{\"t\":{\"dtype\":\"F32\",\"shape\":[],\"data_offsets\":[4,0]}}",
            "tensor 't': invalid data_offsets [4, 0]",
        ),
        (
            "{\"t\":{\"dtype\":\"F32\",\"shape\":[18446744073709551615,18446744073709551615,4],\"data_offsets\":[0,0]}}",
            "tensor 't': shape overflows element arithmetic",
        ),
    ];
    for (json, msg) in cases {
        assert_eq!(st(json).unwrap().problems, [msg], "{json}");
    }
}

#[test]
fn npz_names_that_are_not_utf8_are_replaced() {
    let data = builder::npy("<f4", false, &[1]);
    let file = builder::npz(&[("?.npy", data, false)]);
    // The name stands in the local header and in the directory.
    let mut b = file.clone();
    for i in 0..b.len() {
        if b[i..].starts_with(b"?.npy") {
            b[i] = 0xff;
        }
    }
    let r = npz::parse(&b, b.len() as u64, "f").unwrap();
    assert_eq!(r.tensors[0].name, "\u{fffd}");
    assert!(r.problems.is_empty());
}

#[test]
fn npz_errors_are_told_apart() {
    let err = |b: &[u8]| npz::parse(b, b.len() as u64, "f").unwrap_err().0;
    assert_eq!(
        err(b"nothing"),
        "not a zip archive (no end-of-central-directory record)"
    );
    let mut eocd = b"PK\x05\x06".to_vec();
    eocd.extend([0u8; 18]);
    eocd[10] = 0xff;
    eocd[11] = 0xff;
    assert_eq!(err(&eocd), "ZIP64 markers present but no ZIP64 locator fits");
    let mut b = vec![0u8; 20];
    b.extend(&eocd);
    assert_eq!(err(&b), "ZIP64 locator record is missing or corrupt");
    b[..4].copy_from_slice(b"PK\x06\x07");
    b[8] = 200;
    assert_eq!(err(&b), "ZIP64 end-of-central-directory offset is out of bounds");
    let mut b = vec![0u8; 56];
    b.extend(b"PK\x06\x07");
    b.extend([0u8; 16]);
    b.extend(&eocd);
    assert_eq!(err(&b), "ZIP64 end-of-central-directory record is corrupt");
    let mut eocd = b"PK\x05\x06".to_vec();
    eocd.extend([0u8; 18]);
    eocd[12] = 100;
    assert_eq!(
        err(&eocd),
        "central directory (100 bytes at offset 0) does not fit the file"
    );
    eocd[12] = 20;
    eocd[10] = 1;
    assert_eq!(
        err(&eocd),
        "central directory declares 1 entries, which cannot fit in 20 bytes"
    );
    let mut b = vec![0u8; 46];
    eocd[12] = 46;
    b.extend(&eocd);
    assert_eq!(err(&b), "central directory entry #0 is corrupt");
    b[..4].copy_from_slice(b"PK\x01\x02");
    b[28] = 1;
    assert_eq!(err(&b), "central directory entry #0 runs past the directory");
}

#[test]
fn npz_member_problems_are_told_apart() {
    let array = builder::npy("<f4", false, &[2]);
    let mut z = ZipWriter::new();
    z.add_stored("a.npy", &array);
    z.add_stored("readme.txt", b"hello");
    z.add_stored("b.npy", b"short");
    z.add_precompressed("c.npy", &[7], 100, 0);
    let file = z.finish(false);
    let r = npz::parse(&file, file.len() as u64, "f").unwrap();
    assert_eq!(r.tensors.len(), 1);
    assert_eq!(
        r.details.compact(),
        "{\"members\":4,\"zip64\":false,\"stored\":3,\"deflated\":1,\"other_files\":[\"readme.txt\"]}"
    );
    assert_eq!(
        r.problems,
        [
            "member 'b.npy': not an npy file (bad magic)",
            "member 'c.npy': deflate stream is corrupt: reserved block type 3",
        ]
    );
    let mut z = ZipWriter::new();
    z.add_stored("a.npy", &array);
    z.entries[0].local_offset = 1_000_000;
    let file = z.finish(false);
    let r = npz::parse(&file, file.len() as u64, "f").unwrap();
    assert_eq!(
        r.problems,
        ["member 'a.npy': local header offset is out of bounds"]
    );
    let mut z = ZipWriter::new();
    z.add_stored("a.npy", &array);
    z.entries[0].local_offset = 1;
    let file = z.finish(false);
    let r = npz::parse(&file, file.len() as u64, "f").unwrap();
    assert_eq!(
        r.problems,
        ["member 'a.npy': local file header signature mismatch"]
    );
}

#[test]
fn globs_follow_their_laws() {
    for name in ["", "*", "*abc", "a.b,c", "blk.0.weight"] {
        assert!(filter_match("*", name), "{name}");
    }
    assert!(filter_match("abc", "abc"));
    assert!(!filter_match("abc", "abcd"));
    assert!(!filter_match("abc", ""));
    assert!(filter_match("abc*", "abc"));
    assert!(filter_match("abc*", "abcd"));
    assert!(!filter_match("abc*", "ab"));
    assert!(filter_match("x , a?c", "abc"));
    assert!(filter_match("abc,x", "abc"));
    assert!(!filter_match("x,y", "abc"));
    assert!(filter_match("x,", ""));
}

#[test]
fn filters_leave_the_totals_alone() {
    let mut r = Report::new("f", "npy", 10);
    for name in ["a", "b", "ab"] {
        r.tensors.push(Tensor::new(name, "f32", vec![2], 0, 8));
    }
    let all = r.to_json(true, None);
    let some = r.to_json(true, Some("a*"));
    let none = r.to_json(false, Some("a*"));
    let names = |j: &Json| -> Vec<String> {
        j.get("tensors")
            .unwrap()
            .as_arr()
            .unwrap()
            .iter()
            .map(|t| t.get("name").unwrap().as_str().unwrap().to_string())
            .collect()
    };
    assert_eq!(names(&all), ["a", "b", "ab"]);
    assert_eq!(names(&some), ["a", "ab"]);
    assert!(none.get("tensors").is_none());
    for j in [&all, &some, &none] {
        assert_eq!(j.get("tensor_count"), Some(&Json::Int(3)));
        assert_eq!(j.get("parameters"), Some(&Json::Int(6)));
    }
    let copy = r.tensors[0].clone();
    assert_eq!(copy.name, "a");
    assert!(matches!(Gv::U8(3).clone(), Gv::U8(3)));
}

fn args(list: &[&str]) -> Vec<String> {
    list.iter().map(|s| s.to_string()).collect()
}

#[test]
fn command_lines_follow_their_laws() {
    let parse = |list: &[&str]| cli::parse_args(&args(list));
    for (inline, apart) in [
        (vec!["--filter=a=b", "f"], vec!["--filter", "a=b", "f"]),
        (vec!["--array-limit=7", "f"], vec!["--array-limit", "7", "f"]),
        (vec!["--as=npz", "f"], vec!["--as", "npz", "f"]),
    ] {
        let a = parse(&inline).unwrap();
        let b = parse(&apart).unwrap();
        assert_eq!(a.filter, b.filter);
        assert_eq!(a.array_limit, b.array_limit);
        assert_eq!(a.forced, b.forced);
        assert_eq!(a.files, b.files);
    }
    for flag in ["--compact", "--no-tensors", "--strict", "--full-arrays", "--help", "--version"] {
        assert_eq!(
            parse(&[&format!("{flag}=x"), "f"]).unwrap_err(),
            format!("{flag} does not take a value")
        );
    }
    assert_eq!(
        parse(&["--array-limit", "-1", "f"]).unwrap_err(),
        "--array-limit needs a non-negative integer, got '-1'"
    );
    assert_eq!(parse(&["--as"]).unwrap_err(), "--as needs a value");
    assert_eq!(
        parse(&["--as", "x", "f"]).unwrap_err(),
        "unknown format 'x' (expected safetensors, gguf, npy or npz)"
    );
    assert_eq!(parse(&["-x"]).unwrap_err(), "unknown option '-x'");
    assert_eq!(parse(&["ls"]).unwrap_err(), "no input files given");
    assert_eq!(
        parse(&["formats", "f"]).unwrap_err(),
        "'formats' takes no arguments"
    );
    assert_eq!(parse(&["-"]).unwrap().files, ["-"]);
    assert_eq!(parse(&["--full-arrays", "f"]).unwrap().array_limit, usize::MAX);
    assert!(parse(&[]).unwrap().command == Cmd::Help);
    assert!(parse(&["f", "-V", "--bogus"]).unwrap().command == Cmd::Version);
}

#[test]
fn the_exit_code_is_the_worst_of_the_files() {
    let clean = || Report::new("f", "npy", 0);
    let flawed = || {
        let mut r = Report::new("f", "npy", 0);
        r.problems.push("odd".to_string());
        r
    };
    let code = |strict: bool, rs: Vec<Result<Report, (i32, String)>>| {
        let mut list = vec!["inspect", "--compact"];
        if strict {
            list.push("--strict");
        }
        for _ in 0..rs.len() {
            list.push("f");
        }
        let opts = cli::parse_args(&args(&list)).unwrap();
        let out = cli::run(&opts, &rs);
        // What is printed is JSON with one document per file.
        let doc = Json::parse(out.stdout.as_bytes()).unwrap();
        if rs.len() > 1 {
            assert_eq!(doc.as_arr().unwrap().len(), rs.len());
        }
        out.code
    };
    let io = || Err((2, "cannot open".to_string()));
    let bad = || Err((1, "bad".to_string()));
    assert_eq!(code(false, vec![Ok(clean())]), 0);
    assert_eq!(code(false, vec![Ok(flawed())]), 0);
    assert_eq!(code(true, vec![Ok(flawed())]), 1);
    assert_eq!(code(true, vec![Ok(clean())]), 0);
    assert_eq!(code(false, vec![Ok(clean()), bad()]), 1);
    assert_eq!(code(false, vec![io(), bad(), Ok(clean())]), 2);
}

#[test]
fn forcing_a_format_skips_detection() {
    let file = builder::npy("<f4", false, &[1]);
    let r = cli::inspect_bytes(&file, "x.npy", Some(Format::Gguf), 16);
    assert_eq!(
        r.unwrap_err(),
        (1, "not a GGUF file (bad magic)".to_string())
    );
    let r = cli::inspect_bytes(b"\xde\xad\xbe\xefjust some junk bytes", "x.bin", None, 16);
    assert_eq!(
        r.unwrap_err(),
        (
            1,
            "unrecognized format (not safetensors, GGUF, npy or npz; use --as to override detection)"
                .to_string()
        )
    );
}

#[test]
fn numbers_json_cannot_hold_come_out_as_null() {
    let file = GgufBuilder::new()
        .kv("nan", Gv::F32(f32::NAN.to_bits()))
        .kv("inf", Gv::F64(f64::NEG_INFINITY.to_bits()))
        .kv("one", Gv::F32(1f32.to_bits()))
        .build();
    for compact in [true, false] {
        let r = cli::inspect_bytes(&file, "f", None, 16).unwrap();
        let list: &[&str] = if compact { &["--compact", "f"] } else { &["f"] };
        let out = cli::run(&cli::parse_args(&args(list)).unwrap(), &vec![Ok(r)]);
        let doc = Json::parse(out.stdout.as_bytes()).unwrap();
        assert_eq!(
            doc.get("metadata").unwrap().compact(),
            "{\"nan\":null,\"inf\":null,\"one\":1.0}"
        );
    }
}
