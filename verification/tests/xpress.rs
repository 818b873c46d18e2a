use std::str;

use lzxpress::error::Error;

const TEST_STRING: &str = "this is a test. and this is a test too";
const TEST_DATA: &[u8] = &[
    0x00, 0x20, 0x00, 0x04, 0x74, 0x68, 0x69, 0x73, 0x20, 0x10, 0x00, 0x61, 0x20, 0x74, 0x65, 0x73,
    0x74, 0x2E, 0x20, 0x61, 0x6E, 0x64, 0x20, 0x9F, 0x00, 0x04, 0x20, 0x74, 0x6F, 0x6F,
];

const TEST_STRING2: &str = "abcdefghijklmnopqrstuvwxyz";
const TEST_DATA2: &[u8] = &[
    0x3f, 0x00, 0x00, 0x00, 0x61, 0x62, 0x63, 0x64, 0x65, 0x66, 0x67, 0x68, 0x69, 0x6a, 0x6b, 0x6c,
    0x6d, 0x6e, 0x6f, 0x70, 0x71, 0x72, 0x73, 0x74, 0x75, 0x76, 0x77, 0x78, 0x79, 0x7a,
];

const TEST_STRING3: &str = "abcabcabcabcabcabcabcabcabcabcabcabcabcabcabcabcabcabcabcabcabcabcabcabcabcabcabcabcabcabcabcabcabcabcabcabcabcabcabcabcabcabcabcabcabcabcabcabcabcabcabcabcabcabcabcabcabcabcabcabcabcabcabcabcabcabcabcabcabcabcabcabcabcabcabcabcabcabcabcabcabcabcabcabcabcabcabcabcabcabcabcabcabcabcabcabcabcabcabcabc";
const TEST_DATA3: &[u8] = &[
    0xff, 0xff, 0xff, 0x1f, 0x61, 0x62, 0x63, 0x17, 0x00, 0x0f, 0xff, 0x26, 0x01,
];

#[test]
fn test_decompress1() {
    let uncompressed = lzxpress::data::decompress(TEST_DATA).unwrap();

    if let Ok(s) = str::from_utf8(&uncompressed) {
        println!("{s}");
    }

    assert!(
        uncompressed.len() == TEST_STRING.len(),
        "uncompressed.len = {}, TEST_STRING.len = {}",
        uncompressed.len(),
        TEST_STRING.len()
    );
    assert_eq!(uncompressed, TEST_STRING.as_bytes());
}

#[test]
fn test_decompress2() {
    let uncompressed = lzxpress::data::decompress(TEST_DATA2).unwrap();

    if let Ok(s) = str::from_utf8(&uncompressed) {
        println!("{s}");
    }

    assert!(
        uncompressed.len() == TEST_STRING2.len(),
        "uncompressed.len = {}, TEST_STRING.len = {}",
        uncompressed.len(),
        TEST_STRING2.len()
    );
    assert_eq!(uncompressed, TEST_STRING2.as_bytes());
}

#[test]
fn test_decompress3() {
    let uncompressed = lzxpress::data::decompress(TEST_DATA3).unwrap();

    if let Ok(s) = str::from_utf8(&uncompressed) {
        println!("{s}");
    }

    assert!(
        uncompressed.len() == TEST_STRING3.len(),
        "uncompressed.len = {}, TEST_STRING.len = {}",
        uncompressed.len(),
        TEST_STRING3.len()
    );
    assert_eq!(uncompressed, TEST_STRING3.as_bytes());
}

#[test]
fn test_compress1() {
    let compressed = lzxpress::data::compress(TEST_STRING.as_bytes()).unwrap();

    let uncompressed = lzxpress::data::decompress(compressed.as_slice()).unwrap();

    if let Ok(s) = str::from_utf8(&uncompressed) {
        println!("{s}");
    }

    assert_eq!(uncompressed, TEST_STRING.as_bytes());
    assert!(
        uncompressed.len() == TEST_STRING.len(),
        "uncompressed.len = {}, TEST_STRING.len = {}",
        uncompressed.len(),
        TEST_STRING.len()
    );
}

#[test]
fn test_compress2() {
    let compressed = lzxpress::data::compress(TEST_STRING2.as_bytes()).unwrap();

    assert!(
        compressed.len() == TEST_DATA2.len(),
        "compressed.len = {}, TEST_DATA2.len = {}",
        compressed.len(),
        TEST_DATA2.len()
    );
    assert_eq!(compressed, TEST_DATA2);

    let uncompressed = lzxpress::data::decompress(compressed.as_slice()).unwrap();
    if let Ok(s) = str::from_utf8(&uncompressed) {
        println!("{s}");
    }
    assert_eq!(uncompressed, TEST_STRING2.as_bytes());
}

#[test]
fn test_compress3() {
    let compressed = lzxpress::data::compress(TEST_STRING3.as_bytes()).unwrap();

    println!("{TEST_STRING3}");

    if let Ok(s) = str::from_utf8(&compressed) {
        println!("{s}");
    }

    assert!(
        compressed.len() == TEST_DATA3.len(),
        "compressed.len = {}, TEST_DATA2.len = {}",
        compressed.len(),
        TEST_DATA3.len()
    );
    assert_eq!(compressed, TEST_DATA3);

    let uncompressed = lzxpress::data::decompress(compressed.as_slice()).unwrap();
    if let Ok(s) = str::from_utf8(&uncompressed) {
        println!("{s}");
    }
    assert_eq!(uncompressed, TEST_STRING3.as_bytes());
}

#[test]
fn test_round_trip_empty() {
    let compressed = lzxpress::data::compress(&[]).unwrap();
    assert_eq!(compressed, vec![0xff, 0xff, 0xff, 0xff]);
    let uncompressed = lzxpress::data::decompress(compressed.as_slice()).unwrap();
    assert!(uncompressed.is_empty());
}

#[test]
fn test_round_trip_thirty_two_literals() {
    // exactly 32 tokens, so the indicator word flushes and a fresh
    // placeholder ends the stream
    let input: Vec<u8> = (0u8..32u8).collect();
    let compressed = lzxpress::data::compress(input.as_slice()).unwrap();
    let uncompressed = lzxpress::data::decompress(compressed.as_slice()).unwrap();
    assert_eq!(uncompressed, input);
}

#[test]
fn test_round_trip_long_runs() {
    // two long matches in one stream, so a nibble byte is shared between two
    // length escapes
    let mut input: Vec<u8> = Vec::new();
    for _ in 0..200 {
        input.push(b'x');
    }
    for _ in 0..300 {
        input.push(b'y');
    }
    for i in 0..100u8 {
        input.push(i);
    }
    let compressed = lzxpress::data::compress(input.as_slice()).unwrap();
    let uncompressed = lzxpress::data::decompress(compressed.as_slice()).unwrap();
    assert_eq!(uncompressed, input);
}

#[test]
fn test_round_trip_very_long_match() {
    // a single match longer than 277, reaching the 16-bit length escape
    let input: Vec<u8> = vec![b'z'; 9000];
    let compressed = lzxpress::data::compress(input.as_slice()).unwrap();
    let uncompressed = lzxpress::data::decompress(compressed.as_slice()).unwrap();
    assert_eq!(uncompressed, input);
}

#[test]
fn test_decompress_truncated_indicator() {
    // fewer than four bytes cannot hold the indicator word
    assert_eq!(lzxpress::data::decompress(&[0x00]), Err(Error::MemLimit));
    assert_eq!(
        lzxpress::data::decompress(&[0x00, 0x00, 0x00]),
        Err(Error::MemLimit)
    );
}

#[test]
fn test_decompress_missing_literal() {
    // the indicator word promises a literal but the input is exhausted
    assert_eq!(
        lzxpress::data::decompress(&[0x00, 0x00, 0x00, 0x00]),
        Err(Error::MemLimit)
    );
}

#[test]
fn test_decompress_truncated_token() {
    // bit 31 set: a match token should follow, but only one byte remains
    assert_eq!(
        lzxpress::data::decompress(&[0x00, 0x00, 0x00, 0x80, 0xaa]),
        Err(Error::MemLimit)
    );
}

#[test]
fn test_decompress_corrupted_offset() {
    // a match whose distance exceeds the bytes produced so far
    assert_eq!(
        lzxpress::data::decompress(&[0x00, 0x00, 0x00, 0x80, 0x08, 0x00]),
        Err(Error::CorruptedData)
    );
}

#[test]
fn test_decompress_truncations_never_panic() {
    // every truncation of a valid stream either errors or ends cleanly with
    // the bytes decoded so far; none may panic.  A cut that severs a token's
    // fields must error.
    for cut in 0..TEST_DATA.len() {
        match lzxpress::data::decompress(&TEST_DATA[..cut]) {
            Err(e) => assert!(e == Error::MemLimit || e == Error::CorruptedData),
            Ok(partial) => assert_eq!(
                partial.as_slice(),
                &TEST_STRING.as_bytes()[..partial.len()],
                "truncation at {} yielded bytes the full stream does not hold",
                cut
            ),
        }
    }
    // cutting inside the indicator word severs it
    assert_eq!(
        lzxpress::data::decompress(&TEST_DATA[..3]),
        Err(Error::MemLimit)
    );
    // cutting between the bytes of the first match token severs it
    assert_eq!(
        lzxpress::data::decompress(&TEST_DATA[..10]),
        Err(Error::MemLimit)
    );
}

#[test]
fn test_legacy_decompress() {
    // the crate root keeps the older decoder: same output on well-formed
    // streams that end at a token boundary
    let uncompressed = lzxpress::decompress(TEST_DATA).unwrap();
    assert_eq!(uncompressed, TEST_STRING.as_bytes());
    let uncompressed2 = lzxpress::decompress(TEST_DATA2).unwrap();
    assert_eq!(uncompressed2, TEST_STRING2.as_bytes());
    let uncompressed3 = lzxpress::decompress(TEST_DATA3).unwrap();
    assert_eq!(uncompressed3, TEST_STRING3.as_bytes());
}

#[test]
fn test_legacy_decompress_silent_truncation() {
    // where the current decoder reports MemLimit, the older one returns the
    // bytes decoded so far
    assert_eq!(lzxpress::decompress(&[0x00]).unwrap(), vec![]);
    assert_eq!(
        lzxpress::decompress(&[0x00, 0x00, 0x00, 0x00]).unwrap(),
        vec![]
    );
}

#[test]
fn test_decompress_dword_length_escape() {
    // one literal, then a match whose length escalates through nibble 15,
    // byte 255 and a zero 16-bit field to the 32-bit field holding 22,
    // meaning 25 bytes at distance 1
    let data: &[u8] = &[
        0x00, 0x00, 0x00, 0x40, 0x61, 0x07, 0x00, 0x0f, 0xff, 0x00, 0x00, 0x16, 0x00, 0x00, 0x00,
    ];
    let uncompressed = lzxpress::data::decompress(data).unwrap();
    assert_eq!(uncompressed, vec![b'a'; 26]);
}

#[test]
fn test_decompress_escape_underflow() {
    // a 16-bit length field below the bias of 22 underflows the escape
    // arithmetic: both decoders reject it
    let data: &[u8] = &[0x00, 0x00, 0x00, 0x80, 0x07, 0x00, 0x0f, 0xff, 0x05, 0x00];
    assert_eq!(
        lzxpress::data::decompress(data),
        Err(Error::CorruptedData)
    );
    assert_eq!(lzxpress::decompress(data), Err(Error::CorruptedData));
}

#[test]
fn test_legacy_round_trip() {
    // the older decoder also inverts the compressor, including for token
    // counts that are a multiple of 32 and for the empty input, where the
    // stream ends in a sealed all-ones indicator word
    let cases: Vec<Vec<u8>> = vec![
        Vec::new(),
        (0u8..32u8).collect(),
        TEST_STRING.as_bytes().to_vec(),
        TEST_STRING3.as_bytes().to_vec(),
        vec![b'z'; 9000],
    ];
    for input in cases {
        let compressed = lzxpress::data::compress(input.as_slice()).unwrap();
        let uncompressed = lzxpress::decompress(compressed.as_slice()).unwrap();
        assert_eq!(uncompressed, input);
    }
}
