//! LZ77 with a 4096-byte window and an 18-byte lookahead, distances written
//! big-endian.
use vstd::prelude::*;

use crate::backref::{
    decode_blocks,
    lemma_push_literal,
    lemma_push_match,
    lz_decode,
    lz_decode_from,
};

verus! {

/// How far behind the cursor a match may start.
pub const WINDOW_SIZE: usize = 4096;

/// The longest match a block describes.
pub const LOOKAHEAD_BUFFER_SIZE: usize = 18;

/// The decoding of an LZ77 stream; empty when it is malformed.
pub open spec fn lz77_decode(e: Seq<u8>) -> Seq<u8> {
    lz_decode(e, true)
}

/// How far the bytes at `j` agree with those at `i`, counting on from `k`,
/// up to the lookahead and the end of input.
pub open spec fn common_len(s: Seq<u8>, i: int, j: int, k: int) -> int
    decreases 18 - k,
{
    if 0 <= k < 18 && 0 <= j && i + k < s.len() && s[j + k] == s[i + k] {
        common_len(s, i, j, k + 1)
    } else {
        k
    }
}

/// The best match for position `i` among window positions `j..i`, given
/// the best so far: its length and distance. Only a strictly longer match
/// replaces the best.
pub open spec fn best_match(s: Seq<u8>, i: int, j: int, len: int, dist: int) -> (int, int)
    decreases i - j,
{
    if j >= i {
        (len, dist)
    } else {
        let k = common_len(s, i, j, 0);
        if k > len {
            best_match(s, i, j + 1, k, i - j)
        } else {
            best_match(s, i, j + 1, len, dist)
        }
    }
}

/// The block that the encoder writes at position `i`, and where it goes on.
pub open spec fn lz77_step(s: Seq<u8>, i: int) -> (Seq<u8>, int) {
    let start = if i >= 4096 {
        i - 4096
    } else {
        0
    };
    let (len, dist) = best_match(s, i, start, 0, 0);
    if len >= 3 {
        (seq![0u8, (dist / 256) as u8, (dist % 256) as u8, len as u8], i + len)
    } else {
        (seq![1u8, s[i]], i + 1)
    }
}

/// The encoding of `s[i..]`.
pub open spec fn lz77_encode_from(s: Seq<u8>, i: int) -> Seq<u8>
    decreases s.len() - i,
{
    if 0 <= i < s.len() {
        let step = lz77_step(s, i);
        if i < step.1 <= s.len() {
            step.0 + lz77_encode_from(s, step.1)
        } else {
            step.0
        }
    } else {
        seq![]
    }
}

/// The encoding of `s`.
pub open spec fn lz77_encode(s: Seq<u8>) -> Seq<u8> {
    lz77_encode_from(s, 0)
}

/// Encodes `input`: at each position the longest match within the window,
/// the earliest of equal length, as a match block when it is at least 3
/// bytes long, else a literal.
pub fn compress(input: &[u8]) -> (r: Vec<u8>)
    ensures
        r@ == lz77_encode(input@),
        lz77_decode(r@) == input@,
        lz_decode_from(r@, seq![], true) == Some(input@),
{
    let ghost s = input@;
    let mut out: Vec<u8> = Vec::new();
    let mut i: usize = 0;
    assert(s.subrange(0, 0) =~= seq![]);
    assert(out@ + lz77_encode_from(s, 0) =~= lz77_encode(s));
    while i < input.len()
        invariant
            s == input@,
            0 <= i <= s.len(),
            lz_decode_from(out@, seq![], true) == Some(s.subrange(0, i as int)),
            out@ + lz77_encode_from(s, i as int) == lz77_encode(s),
        decreases input.len() - i,
    {
        let ghost out0 = out@;
        let ghost step = lz77_step(s, i as int);
        let mut match_length: usize = 0;
        let mut match_distance: usize = 0;
        let start: usize = if i >= WINDOW_SIZE {
            i - WINDOW_SIZE
        } else {
            0
        };
        let mut j: usize = start;
        while j < i
            invariant
                s == input@,
                start <= j <= i,
                i - start <= 4096,
                i < s.len(),
                match_length <= 18,
                i + match_length <= s.len(),
                match_length > 0 ==> 1 <= match_distance <= i && match_distance <= 4096,
                best_match(s, i as int, start as int, 0, 0) == best_match(
                    s,
                    i as int,
                    j as int,
                    match_length as int,
                    match_distance as int,
                ),
                forall|k: int|
                    0 <= k < match_length ==> #[trigger] s[i + k] == s[i - match_distance + k],
            decreases i - j,
        {
            let mut k: usize = 0;
            while k < LOOKAHEAD_BUFFER_SIZE && i + k < input.len() && input[j + k] == input[i + k]
                invariant
                    s == input@,
                    j < i,
                    i + k <= input.len(),
                    k <= 18,
                    i + k <= s.len(),
                    forall|t: int| 0 <= t < k ==> #[trigger] s[i + t] == s[j + t],
                    common_len(s, i as int, j as int, 0) == common_len(s, i as int, j as int, k as int),
                decreases 18 - k,
            {
                k += 1;
            }
            if k > match_length {
                match_length = k;
                match_distance = i - j;
                assert forall|t: int| 0 <= t < match_length implies #[trigger] s[i + t] == s[i
                    - match_distance + t] by {
                    assert(s[i + t] == s[j + t]);
                }
            }
            j += 1;
        }
        if match_length >= 3 {
            let ghost before = out@;
            assert(match_distance / 256 < 256);
            assert((match_distance / 256) * 256 + match_distance % 256 == match_distance);
            let ghost b = seq![
                0u8,
                (match_distance / 256) as u8,
                (match_distance % 256) as u8,
                match_length as u8,
            ];
            out.push(0);
            out.push((match_distance / 256) as u8);
            out.push((match_distance % 256) as u8);
            out.push(match_length as u8);
            proof {
                assert(out@ =~= before + b);
                lemma_push_match(
                    before,
                    b,
                    s,
                    i as int,
                    match_distance as int,
                    match_length as nat,
                    true,
                );
            }
            proof {
                assert(step.0 == b && step.1 == i + match_length);
                assert(lz77_encode_from(s, i as int) == step.0 + lz77_encode_from(s, step.1));
                assert(out0 + (step.0 + lz77_encode_from(s, step.1)) =~= out@ + lz77_encode_from(
                    s,
                    step.1,
                ));
            }
            i += match_length;
        } else {
            let ghost before = out@;
            out.push(1);
            out.push(input[i]);
            proof {
                assert(out@ =~= before + seq![1u8, s[i as int]]);
                lemma_push_literal(before, s, i as int, true);
                assert(step.0 == seq![1u8, s[i as int]] && step.1 == i + 1);
                assert(lz77_encode_from(s, i as int) == step.0 + lz77_encode_from(s, step.1));
                assert(out0 + (step.0 + lz77_encode_from(s, step.1)) =~= out@ + lz77_encode_from(
                    s,
                    step.1,
                ));
            }
            i += 1;
        }
    }
    assert(s.subrange(0, s.len() as int) =~= s);
    assert(out@ + lz77_encode_from(s, i as int) =~= out@);
    out
}

/// Decodes an LZ77 stream; an empty result when it is malformed.
pub fn decompress(input: &[u8]) -> (r: Vec<u8>)
    ensures
        r@ == lz77_decode(input@),
{
    decode_blocks(input, true)
}

} // verus!
