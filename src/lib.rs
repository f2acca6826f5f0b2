//! A data-compression engine with five interchangeable codecs (run-length,
//! LZ77, LZ4-style, LZW and Huffman), each with its own wire format, an
//! archive container that frames a list of files into one buffer, and an
//! orchestrator that picks a codec and can compress in chunks.
//!
//! Every codec's compressor and decompressor is stated against spec
//! functions of its format, and each decodes what it encoded back to the
//! input.
use vstd::prelude::*;

pub mod backref;
pub mod bits;
pub mod bytes;
pub mod huffman;
pub mod io;
pub mod lz4;
pub mod lz77;
pub mod lzw;
pub mod processing;
pub mod rle;

verus! {

} // verus!
