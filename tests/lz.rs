use rle_archiver::{lz4, lz77, lzw};

fn sample() -> Vec<u8> {
    let mut v = Vec::new();
    for i in 0..2000u32 {
        v.push(b"abracadabra"[(i % 11) as usize]);
        if i % 97 == 0 {
            v.push((i % 251) as u8);
        }
    }
    v
}

#[test]
fn lz77_round_trip() {
    for input in [Vec::new(), b"x".to_vec(), vec![5u8; 100], sample()] {
        assert_eq!(lz77::decompress(&lz77::compress(&input)), input);
    }
}

#[test]
fn lz77_block_layout() {
    // "abcabcabc": three literals, then a match of 6 at distance 3.
    assert_eq!(
        lz77::compress(b"abcabcabc"),
        vec![1, b'a', 1, b'b', 1, b'c', 0, 0, 3, 6]
    );
}

#[test]
fn lz77_overlapping_copy() {
    assert_eq!(lz77::decompress(&[1, b'z', 0, 0, 1, 5]), b"zzzzzz".to_vec());
}

#[test]
fn lz77_malformed_is_empty() {
    assert_eq!(lz77::decompress(&[1, b'a', 0, 0, 5, 2]), Vec::<u8>::new());
    assert_eq!(lz77::decompress(&[1, b'a', 0, 0]), Vec::<u8>::new());
    assert_eq!(lz77::decompress(&[7, b'a']), Vec::<u8>::new());
}

#[test]
fn lz4_round_trip() {
    for input in [Vec::new(), b"x".to_vec(), vec![5u8; 1000], sample()] {
        assert_eq!(lz4::decompress(&lz4::compress(&input)), input);
    }
}

#[test]
fn lz4_little_endian_distance() {
    // "abcdabcdabcd": the hash of "ab" finds position 0 at position 4.
    assert_eq!(
        lz4::compress(b"abcdabcdabcd"),
        vec![1, b'a', 1, b'b', 1, b'c', 1, b'd', 0, 4, 0, 8]
    );
    assert_eq!(lz4::decompress(&[1, b'q', 0, 1, 0, 3]), b"qqqq".to_vec());
}

#[test]
fn lz4_corrupted_offset_is_empty() {
    // A back-reference 300 bytes behind a 2-byte output.
    assert_eq!(lz4::decompress(&[1, b'a', 1, b'b', 0, 44, 1, 4]), Vec::<u8>::new());
    assert_eq!(lz4::decompress(&[1, b'a', 0, 0, 0, 4]), Vec::<u8>::new());
    assert_eq!(lz4::decompress(&[1]), Vec::<u8>::new());
    assert_eq!(lz4::decompress(&[2, 0]), Vec::<u8>::new());
}

#[test]
fn lzw_round_trip() {
    for input in [Vec::new(), b"x".to_vec(), vec![5u8; 1000], sample()] {
        assert_eq!(lzw::decompress(&lzw::compress(&input)), input);
    }
}

#[test]
fn lzw_code_layout() {
    // "ABAB": codes 65, 66, 256 in 12 bits each, zero-padded.
    assert_eq!(lzw::compress(b"ABAB"), vec![0x04, 0x10, 0x42, 0x10, 0x00]);
    assert_eq!(lzw::decompress(&[0x04, 0x10, 0x42, 0x10, 0x00]), b"ABAB".to_vec());
}

#[test]
fn lzw_next_code_case() {
    // "aaaa": codes 97, 256 (not yet known to the decoder), 97.
    let out = lzw::compress(b"aaaa");
    assert_eq!(lzw::decompress(&out), b"aaaa".to_vec());
}

#[test]
fn lzw_dictionary_full_still_round_trips() {
    // Far more than 3840 distinct sequences.
    let mut input = Vec::new();
    let mut x: u32 = 12345;
    for _ in 0..60000 {
        x = x.wrapping_mul(1103515245).wrapping_add(12345);
        input.push((x >> 16) as u8);
    }
    assert_eq!(lzw::decompress(&lzw::compress(&input)), input);
}

#[test]
fn lzw_unknown_code_is_empty() {
    // codes 65 then 300, which is neither known nor next (256)
    assert_eq!(lzw::decompress(&[0x04, 0x11, 0x2C]), Vec::<u8>::new());
    // a first code that is not a single byte
    assert_eq!(lzw::decompress(&[0x10, 0x00]), Vec::<u8>::new());
}
