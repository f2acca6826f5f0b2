//! Choosing a codec, and compressing in chunks.
//!
//! Chunked compression cuts the input into four contiguous chunks and
//! concatenates their compressed forms in order. It is offered only for the
//! tag-byte codecs (RLE, LZ77, LZ4-style), whose blocks delimit themselves, so
//! that the concatenation decodes as one stream. Decompression always reads
//! the whole input as one stream.
use vstd::prelude::*;

use crate::backref::{lemma_lz_decode_append, lemma_lz_decode_shift, lz_decode_from};
use crate::bytes::push_range;
use crate::huffman::{huffman_decode, huffman_encode, lemma_huffman_round_trip};
use crate::lz4::{lz4_decode, lz4_encode};
use crate::lz77::{lz77_decode, lz77_encode};
use crate::lzw::{lemma_lzw_round_trip, lzw_decode, lzw_encode};
use crate::rle::{lemma_rle_decode_concat, lemma_rle_round_trip, rle_decode, rle_encode};
use crate::{huffman, lz4, lz77, lzw, rle};

verus! {

/// A compression algorithm.
#[derive(Debug, Clone, Copy, PartialEq, Eq, Structural)]
pub enum Algorithm {
    /// Run-length coding.
    Rle,
    /// LZ77 with a sliding window.
    Lz77,
    /// LZ4-style hash-indexed matching.
    Lz4,
    /// LZW with 12-bit codes.
    Lzw,
    /// Huffman coding.
    Hf,
}

/// How many chunks chunked compression makes at most.
pub const NUM_CHUNKS: usize = 4;

/// Whether `y` is what `algorithm` makes of `x`: exactly its encoding; for
/// the two LZ codecs, also that it decodes to `x` without error.
pub open spec fn compressed_by(algorithm: Algorithm, x: Seq<u8>, y: Seq<u8>) -> bool {
    match algorithm {
        Algorithm::Rle => y == rle_encode(x),
        Algorithm::Lz77 => y == lz77_encode(x) && lz_decode_from(y, seq![], true) == Some(x),
        Algorithm::Lz4 => y == lz4_encode(x) && lz_decode_from(y, seq![], false) == Some(x),
        Algorithm::Lzw => y == lzw_encode(x),
        Algorithm::Hf => y == huffman_encode(x),
    }
}

/// What `algorithm` decodes `y` to.
pub open spec fn decoded_by(algorithm: Algorithm, y: Seq<u8>) -> Seq<u8> {
    match algorithm {
        Algorithm::Rle => rle_decode(y),
        Algorithm::Lz77 => lz77_decode(y),
        Algorithm::Lz4 => lz4_decode(y),
        Algorithm::Lzw => lzw_decode(y),
        Algorithm::Hf => huffman_decode(y),
    }
}

/// Whether chunked compression is offered for `algorithm`.
pub open spec fn parallel_ok(algorithm: Algorithm) -> bool {
    match algorithm {
        Algorithm::Rle | Algorithm::Lz77 | Algorithm::Lz4 => true,
        _ => false,
    }
}

/// The size of each chunk of an input of length `len`: a quarter, rounded
/// up.
pub open spec fn chunk_len(len: nat) -> nat {
    ((len + 3) / 4) as nat
}

/// `s` cut into consecutive pieces of `size` bytes, the last one shorter.
pub open spec fn chunks_of(s: Seq<u8>, size: nat) -> Seq<Seq<u8>>
    decreases s.len(),
{
    if s.len() == 0 || size == 0 {
        seq![]
    } else if s.len() <= size {
        seq![s]
    } else {
        seq![s.subrange(0, size as int)] + chunks_of(s.subrange(size as int, s.len() as int), size)
    }
}

/// The pieces of `parts` one after another.
pub open spec fn flatten(parts: Seq<Seq<u8>>) -> Seq<u8>
    decreases parts.len(),
{
    if parts.len() == 0 {
        seq![]
    } else {
        parts[0] + flatten(parts.drop_first())
    }
}

/// Whether `algorithm` is one for which chunked compression is offered.
pub fn supports_parallel(algorithm: Algorithm) -> (r: bool)
    ensures
        r == parallel_ok(algorithm),
{
    match algorithm {
        Algorithm::Rle | Algorithm::Lz77 | Algorithm::Lz4 => true,
        _ => false,
    }
}

/// Compresses `input` as one stream with `algorithm`.
pub fn compress_with(input: &[u8], algorithm: Algorithm) -> (r: Vec<u8>)
    requires
        algorithm == Algorithm::Hf ==> input@.len() <= u32::MAX,
    ensures
        compressed_by(algorithm, input@, r@),
{
    match algorithm {
        Algorithm::Rle => rle::compress(input),
        Algorithm::Lz77 => lz77::compress(input),
        Algorithm::Lz4 => lz4::compress(input),
        Algorithm::Lzw => lzw::compress(input),
        Algorithm::Hf => huffman::compress(input),
    }
}

/// The size of each chunk of an input of `len` bytes: a quarter, rounded up.
pub fn chunk_size(len: usize) -> (r: usize)
    ensures
        r == chunk_len(len as nat),
{
    len / NUM_CHUNKS + if len % NUM_CHUNKS != 0 {
        1
    } else {
        0
    }
}

/// Cuts `input` into chunks of `chunk_size(input.len())` bytes, in order:
/// four at most, the last one shorter.
pub fn split_chunks(input: &[u8]) -> (r: Vec<Vec<u8>>)
    ensures
        r@.map_values(|c: Vec<u8>| c@) == chunks_of(input@, chunk_len(input@.len())),
{
    let ghost s = input@;
    let size = chunk_size(input.len());
    let mut chunks: Vec<Vec<u8>> = Vec::new();
    let mut pos: usize = 0;
    assert(s.subrange(0, s.len() as int) =~= s);
    while pos < input.len()
        invariant
            s == input@,
            size == chunk_len(s.len()),
            size > 0 || s.len() == 0,
            pos <= s.len(),
            chunks_of(s, size as nat) == chunks@.map_values(|c: Vec<u8>| c@) + chunks_of(
                s.subrange(pos as int, s.len() as int),
                size as nat,
            ),
        decreases input.len() - pos,
    {
        let ghost rest = s.subrange(pos as int, s.len() as int);
        let end = if input.len() - pos > size {
            pos + size
        } else {
            input.len()
        };
        let mut chunk: Vec<u8> = Vec::new();
        push_range(&mut chunk, input, pos, end);
        let ghost before = chunks@.map_values(|c: Vec<u8>| c@);
        chunks.push(chunk);
        proof {
            assert(chunks@.map_values(|c: Vec<u8>| c@) =~= before.push(
                s.subrange(pos as int, end as int),
            ));
            if rest.len() <= size {
                assert(rest =~= s.subrange(pos as int, end as int));
                assert(s.subrange(end as int, s.len() as int) =~= seq![]);
                assert(chunks_of(rest, size as nat) =~= seq![rest]);
            } else {
                assert(rest.subrange(0, size as int) =~= s.subrange(pos as int, end as int));
                assert(rest.subrange(size as int, rest.len() as int) =~= s.subrange(
                    end as int,
                    s.len() as int,
                ));
            }
            assert(before + chunks_of(rest, size as nat) =~= before.push(
                s.subrange(pos as int, end as int),
            ) + chunks_of(s.subrange(end as int, s.len() as int), size as nat));
        }
        pos = end;
    }
    assert(chunks_of(s.subrange(pos as int, s.len() as int), size as nat) =~= seq![]);
    assert(chunks@.map_values(|c: Vec<u8>| c@) + seq![] =~= chunks@.map_values(|c: Vec<u8>| c@));
    chunks
}

proof fn lemma_flatten_push(parts: Seq<Seq<u8>>, p: Seq<u8>)
    ensures
        flatten(parts.push(p)) == flatten(parts) + p,
    decreases parts.len(),
{
    if parts.len() == 0 {
        assert(parts.push(p).drop_first() =~= seq![]);
        assert(flatten(parts.push(p).drop_first()) =~= seq![]);
        assert(flatten(parts) =~= seq![]);
        assert(flatten(parts.push(p)) =~= p);
    } else {
        lemma_flatten_push(parts.drop_first(), p);
        assert(parts.push(p).drop_first() =~= parts.drop_first().push(p));
        assert(flatten(parts.push(p)) =~= flatten(parts) + p);
    }
}

/// Compresses `input` with `algorithm`. With `use_multithreading`, and for
/// a codec that supports it, each chunk of `split_chunks` is compressed on
/// its own and the results are concatenated in order; otherwise the input is
/// compressed as one stream.
pub fn compress(input: &[u8], algorithm: Algorithm, use_multithreading: bool) -> (r: Vec<u8>)
    requires
        algorithm == Algorithm::Hf ==> input@.len() <= u32::MAX,
    ensures
        use_multithreading && parallel_ok(algorithm) ==> exists|outs: Seq<Seq<u8>>|
            {
                let chunks = chunks_of(input@, chunk_len(input@.len()));
                &&& outs.len() == chunks.len()
                &&& forall|i: int|
                    0 <= i < outs.len() ==> compressed_by(algorithm, #[trigger] chunks[i], outs[i])
                &&& r@ == #[trigger] flatten(outs)
            },
        !(use_multithreading && parallel_ok(algorithm)) ==> compressed_by(algorithm, input@, r@),
{
    if use_multithreading && supports_parallel(algorithm) {
        let chunks = split_chunks(input);
        let ghost cs = chunks@.map_values(|c: Vec<u8>| c@);
        let mut out: Vec<u8> = Vec::new();
        let ghost mut outs: Seq<Seq<u8>> = seq![];
        let mut k: usize = 0;
        while k < chunks.len()
            invariant
                cs == chunks@.map_values(|c: Vec<u8>| c@),
                parallel_ok(algorithm),
                k <= chunks.len(),
                outs.len() == k,
                forall|i: int| 0 <= i < k ==> compressed_by(algorithm, #[trigger] cs[i], outs[i]),
                out@ == flatten(outs),
            decreases chunks.len() - k,
        {
            let c = compress_with(chunks[k].as_slice(), algorithm);
            push_range(&mut out, c.as_slice(), 0, c.len());
            proof {
                assert(c@.subrange(0, c@.len() as int) =~= c@);
                lemma_flatten_push(outs, c@);
                outs = outs.push(c@);
            }
            k += 1;
        }
        out
    } else {
        compress_with(input, algorithm)
    }
}

/// Decompresses `input` as one stream with `algorithm`. Decompression is
/// always single-threaded, whatever `use_multithreading` asks.
pub fn decompress(input: &[u8], algorithm: Algorithm, use_multithreading: bool) -> (r: Vec<u8>)
    ensures
        r@ == decoded_by(algorithm, input@),
{
    match algorithm {
        Algorithm::Rle => rle::decompress(input),
        Algorithm::Lz77 => lz77::decompress(input),
        Algorithm::Lz4 => lz4::decompress(input),
        Algorithm::Lzw => lzw::decompress(input),
        Algorithm::Hf => huffman::decompress(input),
    }
}

proof fn lemma_flatten_chunks(s: Seq<u8>, size: nat)
    requires
        size > 0,
    ensures
        flatten(chunks_of(s, size)) == s,
    decreases s.len(),
{
    if s.len() == 0 {
        assert(flatten(chunks_of(s, size)) =~= s);
    } else if s.len() <= size {
        let c = chunks_of(s, size);
        assert(c.drop_first() =~= seq![]);
        assert(flatten(c.drop_first()) =~= seq![]);
        assert(flatten(c) =~= s);
    } else {
        let rest = s.subrange(size as int, s.len() as int);
        lemma_flatten_chunks(rest, size);
        let c = chunks_of(s, size);
        assert(c.drop_first() =~= chunks_of(rest, size));
        assert(s.subrange(0, size as int) + rest =~= s);
    }
}

proof fn lemma_rle_flatten(chunks: Seq<Seq<u8>>, outs: Seq<Seq<u8>>)
    requires
        outs.len() == chunks.len(),
        forall|i: int| 0 <= i < outs.len() ==> #[trigger] outs[i] == rle_encode(chunks[i]),
    ensures
        rle_decode(flatten(outs)) == flatten(chunks),
    decreases outs.len(),
{
    if outs.len() > 0 {
        let (co, oo) = (chunks.drop_first(), outs.drop_first());
        assert forall|i: int| 0 <= i < oo.len() implies #[trigger] oo[i] == rle_encode(co[i]) by {
            assert(oo[i] == outs[i + 1]);
        }
        lemma_rle_flatten(co, oo);
        assert(outs[0] == rle_encode(chunks[0]));
        lemma_rle_decode_concat(chunks[0], flatten(oo));
    }
}

proof fn lemma_lz_flatten(chunks: Seq<Seq<u8>>, outs: Seq<Seq<u8>>, big_endian: bool)
    requires
        outs.len() == chunks.len(),
        forall|i: int|
            0 <= i < outs.len() ==> lz_decode_from(#[trigger] outs[i], seq![], big_endian) == Some(
                chunks[i],
            ),
    ensures
        lz_decode_from(flatten(outs), seq![], big_endian) == Some(flatten(chunks)),
    decreases outs.len(),
{
    if outs.len() > 0 {
        let (co, oo) = (chunks.drop_first(), outs.drop_first());
        assert forall|i: int| 0 <= i < oo.len() implies lz_decode_from(
            #[trigger] oo[i],
            seq![],
            big_endian,
        ) == Some(co[i]) by {
            assert(oo[i] == outs[i + 1]);
        }
        lemma_lz_flatten(co, oo, big_endian);
        assert(lz_decode_from(outs[0], seq![], big_endian) == Some(chunks[0]));
        lemma_lz_decode_append(outs[0], flatten(oo), seq![], big_endian);
        lemma_lz_decode_shift(flatten(oo), seq![], chunks[0], big_endian);
        assert(chunks[0] + Seq::<u8>::empty() =~= chunks[0]);
    } else {
        assert(lz_decode_from(flatten(outs), seq![], big_endian) == Some(Seq::<u8>::empty()));
    }
}

/// Chunked compression of the tag-byte codecs decodes as one stream: the
/// chunks' compressed forms, concatenated in order, decode to the input.
pub proof fn lemma_chunked_round_trip(algorithm: Algorithm, x: Seq<u8>, outs: Seq<Seq<u8>>)
    requires
        parallel_ok(algorithm),
        outs.len() == chunks_of(x, chunk_len(x.len())).len(),
        forall|i: int|
            0 <= i < outs.len() ==> compressed_by(
                algorithm,
                #[trigger] chunks_of(x, chunk_len(x.len()))[i],
                outs[i],
            ),
    ensures
        decoded_by(algorithm, flatten(outs)) == x,
{
    let chunks = chunks_of(x, chunk_len(x.len()));
    if x.len() == 0 {
        assert(outs.len() == 0);
        assert(flatten(outs) =~= seq![]);
        assert(crate::backref::lz_decode_from(flatten(outs), seq![], true) == Some(
            Seq::<u8>::empty(),
        ));
        assert(crate::backref::lz_decode_from(flatten(outs), seq![], false) == Some(
            Seq::<u8>::empty(),
        ));
        assert(x =~= seq![]);
    } else {
        lemma_flatten_chunks(x, chunk_len(x.len()));
        match algorithm {
            Algorithm::Rle => {
                assert forall|i: int| 0 <= i < outs.len() implies #[trigger] outs[i] == rle_encode(
                    chunks[i],
                ) by {
                    assert(compressed_by(algorithm, chunks[i], outs[i]));
                }
                lemma_rle_flatten(chunks, outs);
            },
            Algorithm::Lz77 => {
                assert forall|i: int| 0 <= i < outs.len() implies lz_decode_from(
                    #[trigger] outs[i],
                    seq![],
                    true,
                ) == Some(chunks[i]) by {
                    assert(compressed_by(algorithm, chunks[i], outs[i]));
                }
                lemma_lz_flatten(chunks, outs, true);
            },
            Algorithm::Lz4 => {
                assert forall|i: int| 0 <= i < outs.len() implies lz_decode_from(
                    #[trigger] outs[i],
                    seq![],
                    false,
                ) == Some(chunks[i]) by {
                    assert(compressed_by(algorithm, chunks[i], outs[i]));
                }
                lemma_lz_flatten(chunks, outs, false);
            },
            _ => {},
        }
    }
}

/// Every codec decodes what it compressed back to the input; for Huffman,
/// on inputs of up to `u32::MAX / 32` bytes, whose payload length always
/// fits its 32-bit header field.
pub proof fn lemma_codec_round_trip(algorithm: Algorithm, x: Seq<u8>, y: Seq<u8>)
    requires
        compressed_by(algorithm, x, y),
        algorithm == Algorithm::Hf ==> x.len() <= u32::MAX / 32,
    ensures
        decoded_by(algorithm, y) == x,
{
    match algorithm {
        Algorithm::Rle => lemma_rle_round_trip(x),
        Algorithm::Lzw => lemma_lzw_round_trip(x),
        Algorithm::Hf => lemma_huffman_round_trip(x),
        _ => {},
    }
}

} // verus!
