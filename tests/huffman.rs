use rle_archiver::huffman::{compress, decompress};

#[test]
fn test_compress_decompress() {
    let input = b"AAAABBBCCDAA";
    let compressed = compress(input);
    let decompressed = decompress(&compressed);
    assert_eq!(decompressed, input);
}

#[test]
fn test_empty_input() {
    let input: &[u8] = &[];
    let compressed = compress(input);
    let decompressed = decompress(&compressed);
    assert_eq!(decompressed, input);
}

#[test]
fn test_single_byte() {
    let input = b"A";
    let compressed = compress(input);
    let decompressed = decompress(&compressed);
    assert_eq!(decompressed, input);
}

#[test]
fn test_varied_input() {
    let input = b"The quick brown fox jumps over the lazy dog";
    let compressed = compress(input);
    let decompressed = decompress(&compressed);
    assert_eq!(decompressed, input);
}

#[test]
fn huffman_empty_is_empty() {
    assert_eq!(compress(&[]), Vec::<u8>::new());
    assert_eq!(decompress(&[]), Vec::<u8>::new());
}

#[test]
fn huffman_single_byte_layout() {
    // length 1, one distinct byte, 'A' with frequency 1, empty payload
    assert_eq!(compress(b"A"), vec![0, 0, 0, 1, 0, 1, b'A', 0, 0, 0, 1, 0, 0, 0, 0]);
}

#[test]
fn huffman_repeated_single_symbol() {
    let input = vec![b'q'; 40];
    assert_eq!(decompress(&compress(&input)), input);
}

#[test]
fn huffman_tie_break_layout() {
    // 'a' and 'b' both occur once: 'a' is merged first and becomes the
    // left branch (code 0), 'b' the right (code 1).
    let out = compress(b"ab");
    assert_eq!(
        out,
        vec![0, 0, 0, 2, 0, 2, b'a', 0, 0, 0, 1, b'b', 0, 0, 0, 1, 0, 0, 0, 1, 0b0100_0000]
    );
    assert_eq!(compress(b"ba")[20], 0b1000_0000);
}

#[test]
fn huffman_is_deterministic() {
    let input = b"mississippi river banks";
    assert_eq!(compress(input), compress(input));
    assert_eq!(decompress(&compress(input)), input.to_vec());
}

#[test]
fn huffman_all_byte_values() {
    let input: Vec<u8> = (0..=255u8).chain(0..=127u8).collect();
    assert_eq!(decompress(&compress(&input)), input);
}

#[test]
fn huffman_truncated_header_is_empty() {
    let full = compress(b"hello");
    assert_eq!(decompress(&full[..5]), Vec::<u8>::new());
    assert_eq!(decompress(&full[..full.len() - 1]), Vec::<u8>::new());
}
