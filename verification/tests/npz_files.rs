use tensorpeek::builder::{self, ZipWriter};
use tensorpeek::json::Json;
use tensorpeek::npz::parse;
use tensorpeek::report::{PeekError, Report};

fn parse_bytes(b: &[u8]) -> Result<Report, PeekError> {
    parse(b, b.len() as u64, "test.npz")
}

/// Raw-deflate stream produced once by a reference zlib for an npy
/// payload `<f4`, shape (2, 3), 24 zero data bytes (152 bytes total).
const DEFLATED_NPY_F32_2X3: &[u8] = &[
    0x9b, 0xec, 0x17, 0xea, 0x1b, 0x10, 0xc9, 0xc8, 0x50, 0xc6, 0x50, 0xad, 0x9e, 0x92, 0x5a,
    0x9c, 0x5c, 0xa4, 0x6e, 0xa5, 0xa0, 0x6e, 0x93, 0x66, 0xa2, 0xae, 0xa3, 0xa0, 0x9e, 0x96,
    0x5f, 0x54, 0x52, 0x94, 0x98, 0x17, 0x9f, 0x5f, 0x94, 0x92, 0x0a, 0x12, 0x77, 0x4b, 0xcc,
    0x29, 0x4e, 0x05, 0x8a, 0x17, 0x67, 0x24, 0x16, 0xa4, 0x02, 0xf9, 0x1a, 0x46, 0x3a, 0x0a,
    0xc6, 0x9a, 0x3a, 0x0a, 0xb5, 0x0a, 0x64, 0x03, 0x2e, 0x06, 0x1c, 0x00, 0x00,
];

#[test]
fn parses_a_stored_archive_with_two_arrays() {
    let bytes = builder::npz(&[
        ("weights.npy", builder::npy("<f4", false, &[4, 4]), false),
        ("bias.npy", builder::npy("<f4", false, &[4]), false),
    ]);
    let r = parse_bytes(&bytes).unwrap();
    assert_eq!(r.tensors.len(), 2);
    assert_eq!(
        r.tensors[0].name, "weights",
        "member names lose the .npy suffix"
    );
    assert_eq!(r.tensors[0].shape, [4, 4]);
    assert_eq!(r.tensors[1].bytes, 16);
    assert!(r.problems.is_empty(), "problems: {:?}", r.problems);
}

#[test]
fn parses_a_deflated_member_via_the_in_repo_inflater() {
    let bytes = builder::npz(&[("arr_0.npy", builder::npy("<i8", false, &[100]), true)]);
    let r = parse_bytes(&bytes).unwrap();
    assert_eq!(r.tensors[0].dtype, "i64");
    assert_eq!(r.tensors[0].shape, [100]);
    let comp = r.tensors[0]
        .extra
        .iter()
        .find(|(k, _)| k == "compression")
        .unwrap();
    assert_eq!(comp.1.as_str(), Some("deflate"));
    assert!(r.problems.is_empty(), "problems: {:?}", r.problems);
}

#[test]
fn parses_a_member_deflated_by_a_reference_zlib() {
    // The compressed stream uses real Huffman coding, not our
    // stored-block writer — this proves interop with numpy's output.
    let mut z = ZipWriter::new();
    z.add_precompressed("arr_0.npy", DEFLATED_NPY_F32_2X3, 152, 0x1826_b378);
    let bytes = z.finish(false);
    let r = parse_bytes(&bytes).unwrap();
    assert_eq!(r.tensors[0].dtype, "f32");
    assert_eq!(r.tensors[0].shape, [2, 3]);
    assert!(r.problems.is_empty(), "problems: {:?}", r.problems);
}

#[test]
fn details_count_members_and_compression_kinds() {
    let bytes = builder::npz(&[
        ("a.npy", builder::npy("<f4", false, &[2]), false),
        ("b.npy", builder::npy("<f4", false, &[2]), true),
        ("readme.txt", b"hello".to_vec(), false),
    ]);
    let r = parse_bytes(&bytes).unwrap();
    assert_eq!(r.details.get("members").and_then(Json::as_int), Some(3));
    assert_eq!(r.details.get("stored").and_then(Json::as_int), Some(2));
    assert_eq!(r.details.get("deflated").and_then(Json::as_int), Some(1));
    let others = r.details.get("other_files").and_then(Json::as_arr).unwrap();
    assert_eq!(others[0].as_str(), Some("readme.txt"));
    assert_eq!(r.tensors.len(), 2, "the .txt member is not a tensor");
}

#[test]
fn zip64_archives_are_read() {
    let mut z = ZipWriter::new();
    z.add_stored("big.npy", &builder::npy("<u1", false, &[64]));
    let bytes = z.finish(true); // force ZIP64 records
    let r = parse_bytes(&bytes).unwrap();
    assert_eq!(r.details.get("zip64"), Some(&Json::Bool(true)));
    assert_eq!(r.tensors[0].shape, [64]);
    assert!(r.problems.is_empty(), "problems: {:?}", r.problems);
}

#[test]
fn member_size_mismatch_is_flagged() {
    // The npy header inside promises 100 i64s but the stored member is
    // physically shorter: np.savez never writes this; a corrupt file does.
    let mut member = builder::npy("<i8", false, &[100]);
    member.truncate(member.len() - 40);
    let bytes = builder::npz(&[("weights.npy", member, false)]);
    let r = parse_bytes(&bytes).unwrap();
    assert!(
        r.problems
            .iter()
            .any(|p| p.contains("promises") && p.contains("weights.npy")),
        "problems: {:?}",
        r.problems
    );
}

#[test]
fn encrypted_and_exotically_compressed_members_are_problems() {
    let mut z = ZipWriter::new();
    z.add_stored("secret.npy", &builder::npy("<f4", false, &[2]));
    z.entries[0].flags = 0x1;
    let bytes = z.finish(false);
    let r = parse_bytes(&bytes).unwrap();
    assert!(r.tensors.is_empty());
    assert!(r.problems.iter().any(|p| p.contains("encrypted")));

    let mut z = ZipWriter::new();
    z.add_stored("w.npy", &builder::npy("<f4", false, &[2]));
    z.entries[0].method = 14; // LZMA
    let bytes = z.finish(false);
    let r = parse_bytes(&bytes).unwrap();
    assert!(
        r.problems.iter().any(|p| p.contains("method 14")),
        "problems: {:?}",
        r.problems
    );
}

#[test]
fn a_corrupt_deflate_stream_is_a_member_problem() {
    let mut z = ZipWriter::new();
    z.add_precompressed("bad.npy", &[0x07, 0xff, 0xff], 152, 0);
    let bytes = z.finish(false);
    let r = parse_bytes(&bytes).unwrap();
    assert!(
        r.problems
            .iter()
            .any(|p| p.contains("deflate stream is corrupt")),
        "problems: {:?}",
        r.problems
    );
}

#[test]
fn hostile_archives_are_fatal() {
    // No EOCD record at all.
    let err = parse_bytes(&[0u8; 100]).unwrap_err();
    assert!(err.0.contains("no end-of-central-directory"));
    // An entry count that cannot fit in the central directory.
    let bytes = builder::npz(&[("a.npy", builder::npy("<f4", false, &[2]), false)]);
    let mut corrupt = bytes.clone();
    let eocd = corrupt.len() - 22;
    corrupt[eocd + 10] = 0xEE; // entries: 0xEEEE, way beyond cd_size/46
    corrupt[eocd + 11] = 0xEE;
    let err = parse_bytes(&corrupt).unwrap_err();
    assert!(err.0.contains("cannot fit"), "got: {}", err.0);
}
