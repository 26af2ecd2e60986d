use tensorpeek::builder;
use tensorpeek::json::Json;
use tensorpeek::report::{PeekError, Report};
use tensorpeek::safetensors::{parse, MAX_HEADER};

fn parse_bytes(b: &[u8]) -> Result<Report, PeekError> {
    parse(b, b.len() as u64, "test.safetensors")
}

fn demo() -> Vec<u8> {
    builder::safetensors(
        &[
            ("embed.weight", "F32", &[32, 8]),
            ("fc1.weight", "F16", &[8, 16]),
            ("fc1.bias", "F16", &[16]),
        ],
        &[("format", "pt")],
    )
}

#[test]
fn parses_a_well_formed_file_in_header_order() {
    let r = parse_bytes(&demo()).unwrap();
    assert_eq!(r.format, "safetensors");
    assert_eq!(r.tensors.len(), 3);
    assert_eq!(r.parameters(), 32 * 8 + 8 * 16 + 16);
    assert!(
        r.problems.is_empty(),
        "unexpected problems: {:?}",
        r.problems
    );
    let names: Vec<&str> = r.tensors.iter().map(|t| t.name.as_str()).collect();
    assert_eq!(names, ["embed.weight", "fc1.weight", "fc1.bias"]);
}

#[test]
fn dtype_is_canonicalized_and_bytes_computed() {
    let r = parse_bytes(&demo()).unwrap();
    let t = &r.tensors[1];
    assert_eq!(t.dtype, "f16");
    assert_eq!(t.shape, [8, 16]);
    assert_eq!(t.bytes, 8 * 16 * 2);
    assert_eq!(t.offset, 32 * 8 * 4); // right after embed.weight
}

#[test]
fn metadata_map_is_reported() {
    let r = parse_bytes(&demo()).unwrap();
    assert_eq!(r.metadata.get("format").and_then(Json::as_str), Some("pt"));
}

#[test]
fn safetensors_header_and_data_accounting_add_up() {
    let bytes = demo();
    let r = parse_bytes(&bytes).unwrap();
    assert_eq!(r.header_bytes + r.data_bytes, bytes.len() as u64);
    assert_eq!(r.data_bytes, 32 * 8 * 4 + 8 * 16 * 2 + 16 * 2);
}

#[test]
fn truncation_and_trailing_bytes_are_problems_not_errors() {
    let mut bytes = demo();
    bytes.truncate(bytes.len() - 100);
    let r = parse_bytes(&bytes).unwrap();
    assert!(
        r.problems.iter().any(|p| p.contains("100 missing")),
        "problems: {:?}",
        r.problems
    );
    let mut bytes = demo();
    bytes.extend_from_slice(&[0u8; 7]);
    let r = parse_bytes(&bytes).unwrap();
    assert!(
        r.problems.iter().any(|p| p.contains("7 trailing")),
        "problems: {:?}",
        r.problems
    );
}

#[test]
fn undecidable_headers_are_fatal() {
    // Claims an 800-byte header in a 20-byte file.
    let mut bytes = 800u64.to_le_bytes().to_vec();
    bytes.extend_from_slice(b"{\"a\":1}");
    let err = parse_bytes(&bytes).unwrap_err();
    assert!(err.0.contains("exceeds the file"), "got: {}", err.0);
    // Claims a header beyond the format's 100 MB cap.
    let mut bytes = (MAX_HEADER + 1).to_le_bytes().to_vec();
    bytes.extend_from_slice(&[b' '; 64]);
    let err = parse(&bytes[..], u64::MAX, "x").unwrap_err();
    assert!(err.0.contains("100 MB"), "got: {}", err.0);
    // A header that is not JSON at all.
    let mut bytes = 5u64.to_le_bytes().to_vec();
    bytes.extend_from_slice(b"{oops");
    assert!(parse_bytes(&bytes)
        .unwrap_err()
        .0
        .contains("not valid JSON"));
}

#[test]
fn unknown_dtype_is_reported_but_not_fatal() {
    let header = br#"{"t":{"dtype":"F6_E2M3","shape":[4],"data_offsets":[0,3]}}"#;
    let mut bytes = (header.len() as u64).to_le_bytes().to_vec();
    bytes.extend_from_slice(header);
    bytes.extend_from_slice(&[0u8; 3]);
    let r = parse_bytes(&bytes).unwrap();
    assert_eq!(r.tensors[0].dtype, "F6_E2M3");
    assert!(r.problems.iter().any(|p| p.contains("unknown dtype")));
}

#[test]
fn size_mismatch_between_dtype_and_offsets_is_flagged() {
    // F32 [4] needs 16 bytes but the offsets span only 8.
    let header = br#"{"t":{"dtype":"F32","shape":[4],"data_offsets":[0,8]}}"#;
    let mut bytes = (header.len() as u64).to_le_bytes().to_vec();
    bytes.extend_from_slice(header);
    bytes.extend_from_slice(&[0u8; 8]);
    let r = parse_bytes(&bytes).unwrap();
    assert!(
        r.problems.iter().any(|p| p.contains("needs 16 bytes")),
        "problems: {:?}",
        r.problems
    );
}

#[test]
fn scalar_tensor_with_empty_shape() {
    let header = br#"{"s":{"dtype":"F64","shape":[],"data_offsets":[0,8]}}"#;
    let mut bytes = (header.len() as u64).to_le_bytes().to_vec();
    bytes.extend_from_slice(header);
    bytes.extend_from_slice(&[0u8; 8]);
    let r = parse_bytes(&bytes).unwrap();
    assert_eq!(r.tensors[0].numel, 1);
    assert!(r.problems.is_empty(), "problems: {:?}", r.problems);
}

#[test]
fn padded_header_with_trailing_spaces_parses() {
    // The reference writer pads headers with spaces to align the data.
    let header = br#"{"t":{"dtype":"U8","shape":[2],"data_offsets":[0,2]}}    "#;
    let mut bytes = (header.len() as u64).to_le_bytes().to_vec();
    bytes.extend_from_slice(header);
    bytes.extend_from_slice(&[0u8; 2]);
    let r = parse_bytes(&bytes).unwrap();
    assert_eq!(r.tensors.len(), 1);
    assert!(r.problems.is_empty());
}
