use tensorpeek::builder;
use tensorpeek::json::Json;
use tensorpeek::npy::{parse, parse_descr_str, MAGIC};
use tensorpeek::report::{PeekError, Report};

fn parse_bytes(b: &[u8]) -> Result<Report, PeekError> {
    parse(b, b.len() as u64, "test.npy")
}

#[test]
fn parses_a_v1_float32_array_with_exact_accounting() {
    let bytes = builder::npy("<f4", false, &[2, 3]);
    let r = parse_bytes(&bytes).unwrap();
    let t = &r.tensors[0];
    assert_eq!(t.dtype, "f32");
    assert_eq!(t.shape, [2, 3]);
    assert_eq!(t.bytes, 24);
    assert_eq!(t.name, "", "the npy array is unnamed");
    assert!(r.problems.is_empty(), "problems: {:?}", r.problems);
    // numpy pads headers so data starts on a 64-byte boundary.
    assert_eq!(r.header_bytes % 64, 0);
    assert_eq!(r.header_bytes + r.data_bytes, bytes.len() as u64);
}

#[test]
fn fortran_order_and_byte_order_are_reported() {
    let bytes = builder::npy(">i8", true, &[4]);
    let r = parse_bytes(&bytes).unwrap();
    assert_eq!(r.details.get("fortran_order"), Some(&Json::Bool(true)));
    assert_eq!(
        r.details.get("byte_order").and_then(Json::as_str),
        Some("big")
    );
    assert_eq!(r.tensors[0].dtype, "i64");
}

#[test]
fn scalar_and_one_element_tuple_shapes() {
    // A zero-dimensional array: shape (), one element.
    let bytes = builder::npy("<f8", false, &[]);
    let r = parse_bytes(&bytes).unwrap();
    assert_eq!(r.tensors[0].numel, 1);
    assert_eq!(r.tensors[0].bytes, 8);
    // numpy writes `(5,)` with a trailing comma for 1-D shapes.
    let bytes = builder::npy("<u2", false, &[5]);
    assert!(String::from_utf8_lossy(&bytes[..64]).contains("(5,)"));
    let r = parse_bytes(&bytes).unwrap();
    assert_eq!(r.tensors[0].shape, [5]);
    assert_eq!(r.tensors[0].bytes, 10);
}

#[test]
fn version_2_header_uses_a_u32_length() {
    let bytes = builder::npy_v2("<f4", false, &[8]);
    let r = parse_bytes(&bytes).unwrap();
    assert_eq!(r.details.get("version").and_then(Json::as_str), Some("2.0"));
    assert_eq!(r.tensors[0].bytes, 32);
    assert!(r.problems.is_empty(), "problems: {:?}", r.problems);
}

#[test]
fn truncated_data_is_a_problem() {
    let mut bytes = builder::npy("<f4", false, &[100]);
    bytes.truncate(bytes.len() - 40);
    let r = parse_bytes(&bytes).unwrap();
    assert!(
        r.problems.iter().any(|p| p.contains("40 missing")),
        "problems: {:?}",
        r.problems
    );
}

#[test]
fn unicode_and_bytes_descrs_get_correct_itemsizes() {
    let (dtype, itemsize, _) = parse_descr_str("<U16").unwrap();
    assert_eq!((dtype.as_str(), itemsize), ("str16", 64)); // UCS-4
    let (dtype, itemsize, _) = parse_descr_str("|S10").unwrap();
    assert_eq!((dtype.as_str(), itemsize), ("bytes10", 10));
    let (dtype, itemsize, _) = parse_descr_str("<M8[ns]").unwrap();
    assert_eq!((dtype.as_str(), itemsize), ("datetime64", 8));
}

#[test]
fn structured_descr_computes_the_record_size() {
    let header = "{'descr': [('time', '<u8'), ('pos', '<f4', (3,)), ('flag', '|b1')], \
                  'fortran_order': False, 'shape': (10,), }";
    let bytes = builder::npy_raw(header, 10 * (8 + 12 + 1));
    let r = parse_bytes(&bytes).unwrap();
    assert_eq!(r.tensors[0].dtype, "struct");
    assert_eq!(r.tensors[0].bytes, 210);
    assert!(r.problems.is_empty(), "problems: {:?}", r.problems);
}

#[test]
fn unknown_descr_is_a_problem_not_a_crash() {
    let header = "{'descr': '<x9', 'fortran_order': False, 'shape': (2,), }";
    let bytes = builder::npy_raw(header, 0);
    let r = parse_bytes(&bytes).unwrap();
    assert_eq!(r.tensors[0].dtype, "<x9");
    assert!(r.problems.iter().any(|p| p.contains("unknown dtype descr")));
}

#[test]
fn missing_required_key_is_fatal() {
    let header = "{'descr': '<f4', 'shape': (2,), }";
    let bytes = builder::npy_raw(header, 8);
    let err = parse_bytes(&bytes).unwrap_err();
    assert!(err.0.contains("fortran_order"), "got: {}", err.0);
}

#[test]
fn bad_magic_version_and_oversized_header_length_are_fatal() {
    assert!(parse_bytes(b"\x93NUMPZ\x01\x00xxxx")
        .unwrap_err()
        .0
        .contains("bad magic"));

    let mut b = MAGIC.to_vec();
    b.extend_from_slice(&[9, 0, 10, 0]);
    b.extend_from_slice(&[b' '; 10]);
    assert!(parse_bytes(&b).unwrap_err().0.contains("version 9"));

    let mut b = MAGIC.to_vec();
    b.extend_from_slice(&[1, 0]);
    b.extend_from_slice(&9999u16.to_le_bytes());
    b.extend_from_slice(b"{'descr': '<f4'");
    let err = parse_bytes(&b).unwrap_err();
    assert!(err.0.contains("truncated header"), "got: {}", err.0);
}

#[test]
fn malformed_dict_is_fatal_with_position() {
    let header = "{'descr' '<f4'}";
    let bytes = builder::npy_raw(header, 0);
    let err = parse_bytes(&bytes).unwrap_err();
    assert!(err.0.contains("expected ':'"), "got: {}", err.0);
}
