use rle_archiver::processing::{
    chunk_size, compress, compress_with, decompress, split_chunks, supports_parallel, Algorithm,
};
use rle_archiver::rle;

const ALL: [Algorithm; 5] =
    [Algorithm::Rle, Algorithm::Lz77, Algorithm::Lz4, Algorithm::Lzw, Algorithm::Hf];

fn inputs() -> Vec<Vec<u8>> {
    let mut random = Vec::new();
    let mut x: u32 = 7;
    for _ in 0..5000 {
        x = x.wrapping_mul(1664525).wrapping_add(1013904223);
        random.push((x >> 24) as u8);
    }
    vec![Vec::new(), vec![42], vec![0u8; 777], b"hello hello hello world".to_vec(), random]
}

#[test]
fn every_codec_round_trips() {
    for algorithm in ALL {
        for input in inputs() {
            let c = compress(&input, algorithm, false);
            assert_eq!(decompress(&c, algorithm, false), input, "{:?}", algorithm);
        }
    }
}

#[test]
fn parallel_rle_uniform_buffer() {
    let input = vec![b'u'; 4000];
    let parallel = compress(&input, Algorithm::Rle, true);
    let mut expected = Vec::new();
    for _ in 0..4 {
        expected.extend(rle::compress(&vec![b'u'; 1000]));
    }
    assert_eq!(parallel, expected);
    assert_eq!(decompress(&parallel, Algorithm::Rle, false), input);
}

#[test]
fn parallel_tag_byte_codecs_decode_as_one_stream() {
    for algorithm in [Algorithm::Rle, Algorithm::Lz77, Algorithm::Lz4] {
        for input in inputs() {
            let c = compress(&input, algorithm, true);
            assert_eq!(decompress(&c, algorithm, true), input);
        }
    }
}

#[test]
fn parallel_falls_back_for_lzw_and_huffman() {
    let input = b"abcabcabcabcabcabc".to_vec();
    for algorithm in [Algorithm::Lzw, Algorithm::Hf] {
        assert!(!supports_parallel(algorithm));
        assert_eq!(compress(&input, algorithm, true), compress_with(&input, algorithm));
    }
}

#[test]
fn chunks_are_quarters_rounded_up() {
    assert_eq!(chunk_size(0), 0);
    assert_eq!(chunk_size(10), 3);
    assert_eq!(chunk_size(4000), 1000);
    let chunks = split_chunks(b"0123456789");
    assert_eq!(chunks, vec![b"012".to_vec(), b"345".to_vec(), b"678".to_vec(), b"9".to_vec()]);
    assert!(split_chunks(&[]).is_empty());
}
