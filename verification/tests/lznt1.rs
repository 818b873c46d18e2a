use std::str;

use lzxpress::error::Error;

const TEST_LZNT1_STRING1: &str = "F# F# G A A G F# E D D E F# F# E E F# F# G A A G F# E D D E F# E D D E E F# D E F# G F# D E F# G F# E D E A F# F# G A A G F# E D D E F# E D D\0";
const TEST_LZNT1_DATA1: &[u8] = &[
    0x38, 0xb0, 0x88, 0x46, 0x23, 0x20, 0x00, 0x20, 0x47, 0x20, 0x41, 0x00, 0x10, 0xa2, 0x47, 0x01,
    0xa0, 0x45, 0x20, 0x44, 0x00, 0x08, 0x45, 0x01, 0x50, 0x79, 0x00, 0xc0, 0x45, 0x20, 0x05, 0x24,
    0x13, 0x88, 0x05, 0xb4, 0x02, 0x4a, 0x44, 0xef, 0x03, 0x58, 0x02, 0x8c, 0x09, 0x16, 0x01, 0x48,
    0x45, 0x00, 0xbe, 0x00, 0x9e, 0x00, 0x04, 0x01, 0x18, 0x90, 0x00,
];

#[test]
fn test_lznt1_decompress1() {
    let uncompressed = lzxpress::lznt1::decompress(TEST_LZNT1_DATA1).unwrap();

    if let Ok(s) = str::from_utf8(&uncompressed) {
        println!("{s}");
    }

    assert!(
        uncompressed.len() == TEST_LZNT1_STRING1.len(),
        "uncompressed.len = {}, TEST_LZNT1_STRING1.len = {}",
        uncompressed.len(),
        TEST_LZNT1_STRING1.len()
    );
    assert_eq!(uncompressed, TEST_LZNT1_STRING1.as_bytes());
}

#[test]
fn test_lznt1_push_variants_agree() {
    let mut out_new: Vec<u8> = Vec::new();
    lzxpress::lznt1::decompress2_push(TEST_LZNT1_DATA1, &mut out_new).unwrap();
    let mut out_old: Vec<u8> = Vec::new();
    lzxpress::lznt1::decompress2_push_old(TEST_LZNT1_DATA1, &mut out_old).unwrap();
    assert_eq!(out_new, out_old);
    assert_eq!(out_new, TEST_LZNT1_STRING1.as_bytes());
}

#[test]
fn test_lznt1_fixed_exact_capacity() {
    // a buffer sized exactly to the expected output succeeds and matches the
    // growable decode byte for byte
    let grown = lzxpress::lznt1::decompress(TEST_LZNT1_DATA1).unwrap();
    let mut fixed: Vec<u8> = vec![0; grown.len()];
    lzxpress::lznt1::decompress2_no_push(TEST_LZNT1_DATA1, &mut fixed).unwrap();
    assert_eq!(fixed, grown);
}

#[test]
fn test_lznt1_fixed_capacity_too_small() {
    // the fixed-capacity decoder demands a buffer no smaller than the input
    let mut tiny: Vec<u8> = vec![0; 4];
    assert_eq!(
        lzxpress::lznt1::decompress2_no_push(TEST_LZNT1_DATA1, &mut tiny),
        Err(Error::MemLimit)
    );
    let mut empty: Vec<u8> = Vec::new();
    assert_eq!(
        lzxpress::lznt1::decompress2_no_push(TEST_LZNT1_DATA1, &mut empty),
        Err(Error::MemLimit)
    );
}

#[test]
fn test_lznt1_raw_chunk() {
    // an uncompressed chunk: header 0x0004 means five raw payload bytes
    let data: &[u8] = &[0x04, 0x00, b'h', b'e', b'l', b'l', b'o'];
    let uncompressed = lzxpress::lznt1::decompress(data).unwrap();
    assert_eq!(uncompressed, b"hello");
}

#[test]
fn test_lznt1_overlapping_copy() {
    // two literals then a copy token with distance 2 and length 18: the copy
    // reads bytes it wrote itself, yielding a repeating two-byte pattern
    let data: &[u8] = &[0x04, 0x80, 0x04, b'a', b'b', 0x0f, 0x10];
    let uncompressed = lzxpress::lznt1::decompress(data).unwrap();
    let expected: Vec<u8> = b"ab".iter().cycle().take(20).copied().collect();
    assert_eq!(uncompressed, expected);
}

#[test]
fn test_lznt1_overlapping_copy_long() {
    // the same with length 280, the longest a single token's 12-bit length
    // field spans in a fresh chunk... the repeating pattern must hold
    // throughout
    let data: &[u8] = &[0x04, 0x80, 0x04, b'a', b'b', 0x15, 0x11];
    let uncompressed = lzxpress::lznt1::decompress(data).unwrap();
    assert_eq!(uncompressed.len(), 2 + 280);
    for (i, b) in uncompressed.iter().enumerate() {
        let want = if i % 2 == 0 { b'a' } else { b'b' };
        assert_eq!(*b, want, "position {}", i);
    }
}

#[test]
fn test_lznt1_truncated_header() {
    assert_eq!(
        lzxpress::lznt1::decompress(&[0x12]),
        Err(Error::MemLimit)
    );
}

#[test]
fn test_lznt1_chunk_longer_than_input() {
    // the header claims six payload bytes but none follow
    assert_eq!(
        lzxpress::lznt1::decompress(&[0x05, 0x00]),
        Err(Error::MemLimit)
    );
}

#[test]
fn test_lznt1_corrupted_offset() {
    // a copy token as the first token of the stream has nothing to copy from
    assert_eq!(
        lzxpress::lznt1::decompress(&[0x02, 0x80, 0x01, 0x00, 0x00]),
        Err(Error::CorruptedData)
    );
}

#[test]
fn test_lznt1_truncations_never_panic() {
    for cut in 0..TEST_LZNT1_DATA1.len() {
        match lzxpress::lznt1::decompress(&TEST_LZNT1_DATA1[..cut]) {
            Err(e) => assert!(e == Error::MemLimit || e == Error::CorruptedData),
            Ok(partial) => assert_eq!(
                partial.as_slice(),
                &TEST_LZNT1_STRING1.as_bytes()[..partial.len()],
                "truncation at {} yielded bytes the full stream does not hold",
                cut
            ),
        }
    }
}

#[test]
fn test_lznt1_empty_input() {
    assert_eq!(lzxpress::lznt1::decompress(&[]).unwrap(), Vec::<u8>::new());
}
