use rle_archiver::rle::{compress, decompress};

#[test]
fn test_compress() {
    let input = b"AAAABBBCCDAA";
    let expected = vec![4, b'A', 3, b'B', 2, b'C', 129, b'D', 2, b'A'];
    assert_eq!(compress(input), expected);
}

#[test]
fn test_decompress() {
    let input = vec![4, b'A', 3, b'B', 2, b'C', 1, b'D', 2, b'A'];
    let expected = b"AAAABBBCCDAA".to_vec();
    assert_eq!(decompress(&input), expected);
}

#[test]
fn rle_empty_input() {
    assert_eq!(compress(&[]), Vec::<u8>::new());
    assert_eq!(decompress(&[]), Vec::<u8>::new());
}

#[test]
fn rle_single_byte_is_a_run_of_one() {
    assert_eq!(compress(b"Z"), vec![1, b'Z']);
    assert_eq!(decompress(&[1, b'Z']), b"Z".to_vec());
}

#[test]
fn rle_literal_block() {
    let input = b"abcdeff";
    // "abcde" has no repeats; the scan stops two bytes before the end.
    assert_eq!(compress(input), vec![128 + 5, b'a', b'b', b'c', b'd', b'e', 2, b'f']);
    assert_eq!(decompress(&compress(input)), input.to_vec());
}

#[test]
fn rle_lone_byte_mid_stream_is_a_literal() {
    assert_eq!(compress(b"XAA"), vec![129, b'X', 2, b'A']);
}

#[test]
fn rle_two_byte_tail() {
    assert_eq!(compress(b"xy"), vec![130, b'x', b'y']);
}

#[test]
fn rle_long_run_is_split_at_127() {
    let input = vec![7u8; 300];
    assert_eq!(compress(&input), vec![127, 7, 127, 7, 46, 7]);
    assert_eq!(decompress(&compress(&input)), input);
}

#[test]
fn rle_round_trip_varied() {
    let mut input = Vec::new();
    for i in 0..1000u32 {
        input.push((i * 7 % 13) as u8);
        if i % 50 == 0 {
            input.extend_from_slice(&[9, 9, 9, 9]);
        }
    }
    assert_eq!(decompress(&compress(&input)), input);
}

#[test]
fn rle_truncated_literal_is_dropped() {
    assert_eq!(decompress(&[2, b'a', 128 + 3, b'x']), b"aa".to_vec());
    assert_eq!(decompress(&[2, b'a', 5]), b"aa".to_vec());
}
