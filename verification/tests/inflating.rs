use tensorpeek::builder::deflate_stored;
use tensorpeek::inflate::inflate_prefix;

/// zlib level 6 output for b"peek" — a single fixed-Huffman block.
const FIXED_PEEK: &[u8] = &[0x2b, 0x48, 0x4d, 0xcd, 0x06, 0x00];

/// zlib level 6 output for b"tensor " * 40 — fixed Huffman with LZ77
/// back-references (280 bytes collapse to 13).
const REPEAT_TENSOR: &[u8] = &[
    0x2b, 0x49, 0xcd, 0x2b, 0xce, 0x2f, 0x52, 0x28, 0x19, 0xa5, 0x50, 0x29, 0x00,
];

/// zlib level 9 output for `lcg_text(300)` — a dynamic-Huffman block
/// (BTYPE=2 verified at generation time).
const DYNAMIC_LCG300: &[u8] = &[
    0x0d, 0x8f, 0x4b, 0x0a, 0xc0, 0x20, 0x0c, 0x05, 0xaf, 0x92, 0x0b, 0x54, 0x8c, 0xbf, 0xd6,
    0xd3, 0x48, 0xc1, 0x07, 0x05, 0xc1, 0x06, 0x93, 0x8d, 0xb7, 0x6f, 0x77, 0x6f, 0x35, 0x33,
    0x8f, 0x46, 0x6b, 0x6f, 0xa0, 0xd4, 0xb2, 0x10, 0xcf, 0xa3, 0xab, 0x51, 0x3a, 0xe8, 0x66,
    0x05, 0x9c, 0x37, 0x49, 0xa9, 0xc2, 0x32, 0x23, 0xb6, 0xb0, 0xb4, 0xf4, 0x69, 0x40, 0x17,
    0x08, 0x03, 0xff, 0x12, 0x24, 0x1a, 0x0c, 0x9d, 0x82, 0x60, 0xcc, 0xfb, 0x5d, 0x95, 0xf0,
    0xb0, 0x14, 0x01, 0xf7, 0x08, 0xca, 0xea, 0x33, 0xb2, 0xf7, 0x07, 0x6e, 0x94, 0x5c, 0xfc,
    0x29, 0x2e, 0xbd, 0x05, 0xa5, 0x8a, 0xdd, 0xfa, 0x9c, 0x97, 0xfe, 0x2a, 0x74, 0x24, 0x90,
    0x61, 0xb8, 0x09, 0x8e, 0x1e, 0x87, 0x46, 0xda, 0xe8, 0xd5, 0xda, 0xde, 0x38, 0xef, 0x32,
    0x1d, 0xed, 0x75, 0xfc, 0xac, 0x62, 0xeb, 0x0a, 0x4c, 0x71, 0x59, 0x7d, 0x87, 0xdb, 0x0f,
    0xc4, 0x57, 0x54, 0x96, 0x2c, 0x6a, 0x31, 0x2d, 0x35, 0xaf, 0x74, 0x05, 0x19, 0x50, 0x79,
    0x0a, 0x2e, 0xa1, 0xed, 0x4c, 0xfe, 0x90, 0x10, 0x6d, 0x1f, 0x7f, 0xe4, 0x26, 0xca, 0xe0,
    0x74, 0xd7, 0xea, 0x33, 0xa9, 0x84, 0x89, 0x47, 0x11, 0x03, 0xdb, 0xff, 0xe6, 0xcd, 0x36,
    0x9f, 0xd3, 0x93, 0x3f, 0xb7, 0x6c, 0x1b, 0xb4, 0x3c, 0x48, 0xe6, 0x90, 0x16, 0x08, 0xd2,
    0x9c, 0x5c, 0x85, 0xfb, 0xed, 0xfb, 0x07,
];

/// The plain text DYNAMIC_LCG300 decompresses to, regenerated here with
/// the same 64-bit LCG used at vector-generation time.
fn lcg_text(n: usize) -> Vec<u8> {
    const ALPHA: &[u8] = b"tensorpeek shape dtype 0123456789._-";
    let mut s: u64 = 0x243F_6A88_85A3_08D3;
    (0..n)
        .map(|_| {
            s = s
                .wrapping_mul(6364136223846793005)
                .wrapping_add(1442695040888963407);
            ALPHA[((s >> 33) as usize) % ALPHA.len()]
        })
        .collect()
}

/// Wrap `data` in valid DEFLATE stored blocks (BTYPE=0).
fn stored_stream(data: &[u8]) -> Vec<u8> {
    deflate_stored(data)
}

#[test]
fn fixed_huffman_literals() {
    let r = inflate_prefix(FIXED_PEEK, 1 << 16).unwrap();
    assert_eq!(r.data, b"peek");
    assert!(r.complete);
}

#[test]
fn fixed_huffman_with_back_references() {
    let r = inflate_prefix(REPEAT_TENSOR, 1 << 16).unwrap();
    assert_eq!(r.data, b"tensor ".repeat(40));
    assert!(r.complete);
}

#[test]
fn dynamic_huffman_block() {
    let r = inflate_prefix(DYNAMIC_LCG300, 1 << 16).unwrap();
    assert_eq!(r.data, lcg_text(300));
    assert!(r.complete);
}

#[test]
fn stored_blocks_round_trip() {
    let plain: Vec<u8> = (0..200_000u32).map(|i| (i % 251) as u8).collect();
    let r = inflate_prefix(&stored_stream(&plain), plain.len() + 10).unwrap();
    assert_eq!(r.data, plain);
    assert!(r.complete);
}

#[test]
fn prefix_budget_stops_early_in_literals_and_mid_match_copy() {
    // Budget inside a literal run.
    let r = inflate_prefix(DYNAMIC_LCG300, 10).unwrap();
    assert_eq!(r.data, lcg_text(300)[..10]);
    assert!(!r.complete, "must report an incomplete decode");
    // Budget landing inside an LZ77 copy of "tensor " repeats.
    let r = inflate_prefix(REPEAT_TENSOR, 25).unwrap();
    assert_eq!(r.data, &b"tensor ".repeat(40)[..25]);
    assert!(!r.complete);
}

#[test]
fn corrupt_streams_are_rejected() {
    // BTYPE=0, LEN=4 but NLEN is not its complement.
    let bad = [0x01, 0x04, 0x00, 0x00, 0x00, b'a', b'b', b'c', b'd'];
    assert!(inflate_prefix(&bad, 100).unwrap_err().contains("LEN/NLEN"));
    // First byte 0b00000111: BFINAL=1, BTYPE=3 (reserved).
    assert!(inflate_prefix(&[0x07], 100)
        .unwrap_err()
        .contains("reserved"));
    // Empty input is an error, not a panic.
    assert!(inflate_prefix(&[], 100).is_err());
}

#[test]
fn distance_before_output_start_is_rejected() {
    // Fixed block whose first symbol is a match — nothing to copy from.
    // Symbol 257 (len 3) is code 0b0000001, then distance code 0.
    // Build it bit by bit: BFINAL=1, BTYPE=01, then the codes.
    let mut bits: Vec<u8> = vec![1, 1, 0]; // header (LSB first)
    bits.extend([0, 0, 0, 0, 0, 0, 1]); // literal code for 257 (MSB-first 0000001)
    bits.extend([0, 0, 0, 0, 0]); // distance code 0 (5 bits)
    let mut bytes = vec![0u8; bits.len().div_ceil(8)];
    for (i, b) in bits.iter().enumerate() {
        bytes[i / 8] |= b << (i % 8);
    }
    let err = inflate_prefix(&bytes, 100).unwrap_err();
    assert!(err.contains("back-reference"), "got: {}", err);
}

#[test]
fn truncated_stream_reports_end_of_data() {
    let err = inflate_prefix(&DYNAMIC_LCG300[..40], 1 << 16).unwrap_err();
    assert!(err.contains("end of compressed data"), "got: {}", err);
}
