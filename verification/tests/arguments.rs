use tensorpeek::cli::{parse_args, Cmd};
use tensorpeek::sniff::Format;

fn sv(args: &[&str]) -> Vec<String> {
    args.iter().map(|s| s.to_string()).collect()
}

#[test]
fn implicit_inspect_collects_files_and_flags() {
    let o = parse_args(&sv(&["model.gguf", "--compact", "--filter=blk.*", "b.npy"])).unwrap();
    assert_eq!(o.command, Cmd::Inspect);
    assert_eq!(o.files, ["model.gguf", "b.npy"]);
    assert!(o.compact);
    assert_eq!(o.filter.as_deref(), Some("blk.*"));
}

#[test]
fn option_values_work_inline_and_separated() {
    let o = parse_args(&sv(&[
        "ls",
        "--filter",
        "x?",
        "--array-limit=3",
        "--as",
        "gguf",
        "f",
    ]))
    .unwrap();
    assert_eq!(o.command, Cmd::Ls);
    assert_eq!(o.filter.as_deref(), Some("x?"));
    assert_eq!(o.array_limit, 3);
    assert_eq!(o.forced, Some(Format::Gguf));
}

#[test]
fn usage_errors_are_reported() {
    assert!(parse_args(&sv(&["--bogus", "f"]))
        .unwrap_err()
        .contains("unknown option"));
    assert!(parse_args(&sv(&["inspect"]))
        .unwrap_err()
        .contains("no input files"));
    assert!(parse_args(&sv(&["--as", "onnx", "f"]))
        .unwrap_err()
        .contains("unknown format"));
    assert!(parse_args(&sv(&["--filter"]))
        .unwrap_err()
        .contains("needs a value"));
    // A boolean flag must reject an inline value instead of silently
    // treating `--strict=false` as `--strict`.
    assert!(parse_args(&sv(&["--strict=false", "f"]))
        .unwrap_err()
        .contains("does not take a value"));
}
