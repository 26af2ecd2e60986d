use tensorpeek::builder::{self, GgufBuilder};
use tensorpeek::cli::{self, Cmd, Output};
use tensorpeek::json::Json;
use tensorpeek::VERSION;

/// Run a command line against files that exist only in memory.
fn run(args: &[&str], files: &[(&str, &[u8])]) -> Output {
    let args: Vec<String> = args.iter().map(|s| s.to_string()).collect();
    let opts = match cli::parse_args(&args) {
        Ok(o) => o,
        Err(msg) => return cli::usage_error(&msg),
    };
    let mut results = Vec::new();
    if opts.command == Cmd::Inspect || opts.command == Cmd::Ls {
        for path in &opts.files {
            results.push(match files.iter().find(|f| f.0 == path) {
                Some((_, data)) => cli::inspect_bytes(data, path, opts.forced, opts.array_limit),
                None => Err((2, "cannot open: No such file or directory".to_string())),
            });
        }
    }
    cli::run(&opts, &results)
}

fn stdout_json(out: &Output) -> Json {
    Json::parse(out.stdout.as_bytes()).expect("stdout is JSON")
}

#[test]
fn version_and_help() {
    let out = run(&["--version"], &[]);
    assert_eq!(out.stdout.trim(), format!("tensorpeek {}", VERSION));
    assert_eq!(out.code, 0);

    let out = run(&["--help"], &[]);
    assert!(out.stdout.contains("COMMANDS:"), "help must list commands");
    assert!(
        out.stdout.contains("EXIT CODES:"),
        "help must document exit codes"
    );
    assert_eq!(out.code, 0);
}

#[test]
fn inspect_safetensors_reports_the_full_schema() {
    let bytes = builder::safetensors(
        &[
            ("embed.weight", "F32", &[32, 8]),
            ("fc1.weight", "F16", &[8, 16]),
        ],
        &[("format", "pt")],
    );
    let out = run(
        &["inspect", "model.safetensors"],
        &[("model.safetensors", &bytes)],
    );
    assert_eq!(out.code, 0, "stderr: {}", out.stderr);
    let j = stdout_json(&out);
    assert_eq!(j.get("format").and_then(Json::as_str), Some("safetensors"));
    assert_eq!(j.get("tensor_count").and_then(Json::as_int), Some(2));
    assert_eq!(
        j.get("parameters").and_then(Json::as_int),
        Some(32 * 8 + 8 * 16)
    );
    assert_eq!(
        j.get("metadata")
            .and_then(|m| m.get("format"))
            .and_then(Json::as_str),
        Some("pt")
    );
    let t0 = &j.get("tensors").and_then(Json::as_arr).unwrap()[0];
    assert_eq!(t0.get("name").and_then(Json::as_str), Some("embed.weight"));
    assert_eq!(t0.get("dtype").and_then(Json::as_str), Some("f32"));
}

#[test]
fn gguf_metadata_filter_and_array_limit() {
    let bytes = GgufBuilder::demo().build();
    let out = run(
        &["inspect", "--filter", "blk.*", "--array-limit", "4", "m.gguf"],
        &[("m.gguf", &bytes)],
    );
    assert_eq!(out.code, 0);
    let j = stdout_json(&out);
    assert_eq!(
        j.get("gguf")
            .and_then(|d| d.get("architecture"))
            .and_then(Json::as_str),
        Some("llama")
    );
    let tensors = j.get("tensors").and_then(Json::as_arr).unwrap();
    assert_eq!(tensors.len(), 2, "filter must keep only blk.* tensors");
    assert_eq!(
        j.get("tensor_count").and_then(Json::as_int),
        Some(4),
        "counts stay unfiltered"
    );
    let tokens = j
        .get("metadata")
        .and_then(|m| m.get("tokenizer.ggml.tokens"))
        .unwrap();
    assert_eq!(
        tokens
            .get("$array")
            .and_then(|a| a.get("len"))
            .and_then(Json::as_int),
        Some(12),
        "long arrays are summarized at --array-limit 4"
    );
}

#[test]
fn implicit_inspect_with_compact_output_is_single_line_json() {
    let bytes = builder::npy("<i8", true, &[5]);
    // No `inspect` keyword: the first argument is an option or a file, so
    // inspect is implied.
    let out = run(&["--compact", "a.npy"], &[("a.npy", &bytes)]);
    assert_eq!(out.code, 0);
    assert_eq!(out.stdout.trim().lines().count(), 1);
    let j = stdout_json(&out);
    assert_eq!(j.get("format").and_then(Json::as_str), Some("npy"));
    assert_eq!(
        j.get("npy").and_then(|d| d.get("fortran_order")),
        Some(&Json::Bool(true))
    );
}

#[test]
fn npz_members_become_named_tensors() {
    let bytes = builder::npz(&[
        ("weights.npy", builder::npy("<f4", false, &[4, 4]), true),
        ("bias.npy", builder::npy("<f4", false, &[4]), false),
    ]);
    let out = run(&["inspect", "w.npz"], &[("w.npz", &bytes)]);
    assert_eq!(out.code, 0, "stderr: {}", out.stderr);
    let j = stdout_json(&out);
    assert_eq!(
        j.get("npz")
            .and_then(|d| d.get("members"))
            .and_then(Json::as_int),
        Some(2)
    );
    let tensors = j.get("tensors").and_then(Json::as_arr).unwrap();
    assert_eq!(
        tensors[0].get("name").and_then(Json::as_str),
        Some("weights")
    );
    assert_eq!(
        tensors[0].get("compression").and_then(Json::as_str),
        Some("deflate")
    );
}

#[test]
fn multi_file_inspect_emits_an_array_with_error_objects() {
    let good = builder::npy("<f4", false, &[2]);
    let bad = b"GGUFxxxxthis is not a real header";
    let out = run(
        &["inspect", "good.npy", "bad.gguf"],
        &[("good.npy", &good), ("bad.gguf", bad)],
    );
    assert_eq!(out.code, 1, "one failed parse must exit 1");
    let j = stdout_json(&out);
    let arr = j.as_arr().expect("multiple files produce a JSON array");
    assert_eq!(arr.len(), 2);
    assert!(arr[0].get("error").is_none());
    assert!(
        arr[1].get("error").is_some(),
        "the broken file gets an error object"
    );
}

#[test]
fn ls_renders_an_aligned_table_with_a_summary() {
    let bytes = builder::safetensors(&[("fc.weight", "F32", &[64, 64])], &[]);
    let out = run(&["ls", "m.safetensors"], &[("m.safetensors", &bytes)]);
    assert_eq!(out.code, 0);
    let text = &out.stdout;
    assert!(
        text.contains("1 tensor · 4.1 K params"),
        "summary line: {text}"
    );
    assert!(
        text.contains("NAME") && text.contains("DTYPE"),
        "table header: {text}"
    );
    assert!(text.contains("64×64"), "shape column: {text}");
}

#[test]
fn strict_turns_truncation_problems_into_exit_1() {
    let mut bytes = builder::safetensors(&[("w", "F32", &[100])], &[]);
    bytes.truncate(bytes.len() - 40);
    let files: &[(&str, &[u8])] = &[("cut.safetensors", &bytes)];

    let out = run(&["inspect", "cut.safetensors"], files);
    assert_eq!(out.code, 0, "problems alone do not fail without --strict");
    let j = stdout_json(&out);
    assert!(j.get("problems").is_some());

    let out = run(&["inspect", "--strict", "cut.safetensors"], files);
    assert_eq!(out.code, 1);
    assert!(out.stderr.contains("40 missing"));
}

#[test]
fn forced_format_overrides_detection() {
    // A GGUF header inside a file with a lying extension, read via --as.
    let bytes = GgufBuilder::demo().build();
    let out = run(
        &["inspect", "--as", "gguf", "--no-tensors", "model.bin"],
        &[("model.bin", &bytes)],
    );
    assert_eq!(out.code, 0);
    let j = stdout_json(&out);
    assert_eq!(j.get("format").and_then(Json::as_str), Some("gguf"));
    assert!(j.get("tensors").is_none(), "--no-tensors drops the list");
    assert_eq!(j.get("tensor_count").and_then(Json::as_int), Some(4));
}

#[test]
fn documented_exit_codes_for_usage_io_and_content_errors() {
    // Unreadable input and usage mistakes exit 2.
    let out = run(&["inspect", "does-not-exist.gguf"], &[]);
    assert_eq!(out.code, 2);
    assert!(out.stderr.contains("cannot open"));
    let out = run(&["--bogus-flag", "x"], &[]);
    assert_eq!(out.code, 2);
    let out = run(&["inspect"], &[]);
    assert_eq!(out.code, 2);
    assert!(out.stderr.contains("no input files"));
    // Content that no parser recognizes exits 1 and hints at --as.
    let mystery = [0xDE, 0xAD, 0xBE, 0xEF, 0, 0, 0, 0, 0, 0, 0, 0];
    let out = run(&["inspect", "mystery.bin"], &[("mystery.bin", &mystery)]);
    assert_eq!(out.code, 1);
    assert!(out.stderr.contains("--as"));
}

#[test]
fn formats_command_documents_all_four() {
    let out = run(&["formats"], &[]);
    assert_eq!(out.code, 0);
    for f in ["safetensors", "gguf", "npy", "npz"] {
        assert!(out.stdout.contains(f), "missing {f}");
    }
}
