use tensorpeek::builder::{crc32, deflate_stored, safetensors};
use tensorpeek::inflate::inflate_prefix;

#[test]
fn crc32_matches_the_reference_check_value() {
    // The classic CRC-32 check: crc32("123456789") == 0xCBF43926.
    assert_eq!(crc32(b"123456789"), 0xCBF4_3926);
    assert_eq!(crc32(b""), 0);
}

#[test]
fn deflate_stored_handles_multi_chunk_and_empty_input() {
    // 70000 bytes forces two stored blocks (max 65535 per block).
    let data: Vec<u8> = (0..70_000u32).map(|i| (i % 256) as u8).collect();
    let stream = deflate_stored(&data);
    let round = inflate_prefix(&stream, data.len()).unwrap();
    assert_eq!(round.data, data);
    let empty = inflate_prefix(&deflate_stored(&[]), 10).unwrap();
    assert!(empty.data.is_empty() && empty.complete);
}

#[test]
fn safetensors_header_is_8_byte_aligned() {
    let bytes = safetensors(&[("t", "F32", &[3])], &[]);
    let header_len = u64::from_le_bytes(bytes[..8].try_into().unwrap());
    assert_eq!((8 + header_len) % 8, 0);
    assert_eq!(bytes.len() as u64, 8 + header_len + 12);
}
