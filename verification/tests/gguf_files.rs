use tensorpeek::builder::{GgufBuilder, Gv};
use tensorpeek::gguf::parse;
use tensorpeek::json::Json;
use tensorpeek::report::{PeekError, Report};

fn parse_bytes(b: &[u8], limit: usize) -> Result<Report, PeekError> {
    parse(b, b.len() as u64, "test.gguf", limit)
}

#[test]
fn parses_the_demo_model() {
    let bytes = GgufBuilder::demo().build();
    let r = parse_bytes(&bytes, usize::MAX).unwrap();
    assert_eq!(r.format, "gguf");
    assert_eq!(r.details.get("version").and_then(Json::as_int), Some(3));
    assert_eq!(
        r.details.get("architecture").and_then(Json::as_str),
        Some("llama")
    );
    assert_eq!(
        r.metadata.get("general.name").and_then(Json::as_str),
        Some("tinyllama-demo")
    );
    assert!(r.problems.is_empty(), "problems: {:?}", r.problems);
}

#[test]
fn quantized_sizes_use_block_geometry_and_shapes_keep_disk_order() {
    let bytes = GgufBuilder::demo().build();
    let r = parse_bytes(&bytes, usize::MAX).unwrap();
    let t = r
        .tensors
        .iter()
        .find(|t| t.name == "token_embd.weight")
        .unwrap();
    assert_eq!(t.dtype, "q8_0");
    // 64*256 elements / 32 per block * 34 bytes per block.
    assert_eq!(t.bytes, 64 * 256 / 32 * 34);
    assert_eq!(
        t.shape,
        [64, 256],
        "ne0 (embedding width) must come first, as stored"
    );
}

#[test]
fn gguf_header_and_data_accounting_add_up() {
    let bytes = GgufBuilder::demo().build();
    let r = parse_bytes(&bytes, usize::MAX).unwrap();
    assert_eq!(r.header_bytes % 32, 0, "data start must be aligned");
    assert_eq!(r.header_bytes + r.data_bytes, bytes.len() as u64);
}

#[test]
fn custom_alignment_is_honored() {
    let bytes = GgufBuilder::demo()
        .kv("general.alignment", Gv::U32(64))
        .build();
    let r = parse_bytes(&bytes, usize::MAX).unwrap();
    assert_eq!(r.details.get("alignment").and_then(Json::as_int), Some(64));
    assert_eq!(r.header_bytes % 64, 0);
}

#[test]
fn bad_alignment_falls_back_to_default_with_a_problem() {
    let bytes = GgufBuilder::demo()
        .kv("general.alignment", Gv::U32(48))
        .build_with_alignment(32);
    let r = parse_bytes(&bytes, usize::MAX).unwrap();
    assert_eq!(r.details.get("alignment").and_then(Json::as_int), Some(32));
    assert!(
        r.problems.iter().any(|p| p.contains("power of two")),
        "problems: {:?}",
        r.problems
    );
}

#[test]
fn truncation_is_reported_with_the_missing_byte_count() {
    let mut bytes = GgufBuilder::demo().build();
    let n = bytes.len();
    bytes.truncate(n - 500);
    let r = parse_bytes(&bytes, usize::MAX).unwrap();
    assert!(
        r.problems.iter().any(|p| p.contains("500 missing")),
        "problems: {:?}",
        r.problems
    );
}

#[test]
fn arrays_are_summarized_at_the_limit_and_kept_in_full_without_one() {
    let bytes = GgufBuilder::demo().build();
    let r = parse_bytes(&bytes, 4).unwrap();
    let tokens = r.metadata.get("tokenizer.ggml.tokens").unwrap();
    let marker = tokens.get("$array").expect("summarized array marker");
    assert_eq!(marker.get("len").and_then(Json::as_int), Some(12));
    assert_eq!(marker.get("first").and_then(Json::as_arr).unwrap().len(), 4);

    let r = parse_bytes(&bytes, usize::MAX).unwrap();
    let tokens = r.metadata.get("tokenizer.ggml.tokens").unwrap();
    assert_eq!(tokens.as_arr().unwrap().len(), 12);
}

#[test]
fn scalar_metadata_types_round_trip() {
    let bytes = GgufBuilder::demo()
        .kv("test.f32", Gv::F32(0.5f32.to_bits()))
        .kv("test.bool", Gv::Bool(true))
        .kv("test.i64", Gv::I64(-9_000_000_000))
        .kv("test.u16", Gv::U16(65535))
        .build();
    let r = parse_bytes(&bytes, usize::MAX).unwrap();
    assert_eq!(r.metadata.get("test.f32"), Some(&Json::Float(0.5f64.to_bits())));
    assert_eq!(r.metadata.get("test.bool"), Some(&Json::Bool(true)));
    assert_eq!(
        r.metadata.get("test.i64").and_then(Json::as_int),
        Some(-9_000_000_000)
    );
    assert_eq!(
        r.metadata.get("test.u16").and_then(Json::as_int),
        Some(65535)
    );
}

#[test]
fn bad_magic_and_unsupported_versions_are_fatal() {
    let err = parse_bytes(b"GGML1234rest-of-file", usize::MAX).unwrap_err();
    assert!(err.0.contains("bad magic"));

    let mut v1 = b"GGUF".to_vec();
    v1.extend_from_slice(&1u32.to_le_bytes());
    v1.extend_from_slice(&[0u8; 16]);
    assert!(parse_bytes(&v1, usize::MAX).unwrap_err().0.contains("v1"));

    let mut v9 = b"GGUF".to_vec();
    v9.extend_from_slice(&9999u32.to_le_bytes());
    v9.extend_from_slice(&[0u8; 16]);
    assert!(parse_bytes(&v9, usize::MAX)
        .unwrap_err()
        .0
        .contains("unsupported"));

    // Version 3 with swapped bytes reads as 0x03000000 — call it out.
    let mut be = b"GGUF".to_vec();
    be.extend_from_slice(&3u32.to_be_bytes());
    be.extend_from_slice(&[0u8; 16]);
    let err = parse_bytes(&be, usize::MAX).unwrap_err();
    assert!(err.0.contains("big-endian"), "got: {}", err.0);
}

#[test]
fn hostile_counts_and_lengths_are_rejected_before_allocation() {
    let mut b = b"GGUF".to_vec();
    b.extend_from_slice(&3u32.to_le_bytes());
    b.extend_from_slice(&u64::MAX.to_le_bytes()); // tensor_count
    b.extend_from_slice(&u64::MAX.to_le_bytes()); // kv_count
    let err = parse_bytes(&b, usize::MAX).unwrap_err();
    assert!(err.0.contains("cannot fit"), "got: {}", err.0);

    let mut b = b"GGUF".to_vec();
    b.extend_from_slice(&3u32.to_le_bytes());
    b.extend_from_slice(&0u64.to_le_bytes()); // tensors
    b.extend_from_slice(&1u64.to_le_bytes()); // one kv
    b.extend_from_slice(&u64::MAX.to_le_bytes()); // key length: absurd
    b.extend_from_slice(&[0u8; 64]);
    let err = parse_bytes(&b, usize::MAX).unwrap_err();
    assert!(err.0.contains("exceeds"), "got: {}", err.0);
}

#[test]
fn unknown_tensor_type_is_a_problem_not_a_crash() {
    let bytes = GgufBuilder::demo()
        .tensor("weird.weight", &[32], 99)
        .build();
    let r = parse_bytes(&bytes, usize::MAX).unwrap();
    let t = r.tensors.iter().find(|t| t.name == "weird.weight").unwrap();
    assert_eq!(t.dtype, "unknown(99)");
    assert!(r.problems.iter().any(|p| p.contains("unknown ggml type")));
}

#[test]
fn non_divisible_block_row_is_flagged() {
    // 40 is not divisible by the q8_0 block length of 32.
    let bytes = GgufBuilder::demo().tensor("odd.weight", &[40], 8).build();
    let r = parse_bytes(&bytes, usize::MAX).unwrap();
    assert!(
        r.problems.iter().any(|p| p.contains("not divisible")),
        "problems: {:?}",
        r.problems
    );
}

#[test]
fn duplicate_metadata_keys_are_noted() {
    let bytes = GgufBuilder::demo()
        .kv("general.name", Gv::Str("again".into()))
        .build();
    let r = parse_bytes(&bytes, usize::MAX).unwrap();
    assert!(
        r.problems
            .iter()
            .any(|p| p.contains("duplicate metadata key")),
        "problems: {:?}",
        r.problems
    );
}
