//! An LZ4-style codec: a hash table of the last position seen for each pair
//! of leading bytes finds match candidates; distances are written
//! little-endian.
use vstd::prelude::*;

use crate::backref::{
    decode_blocks,
    lemma_push_literal,
    lemma_push_match,
    lz_decode,
    lz_decode_from,
};

verus! {

/// Number of slots in the match-finder's hash table.
pub const HASH_SLOTS: usize = 65536;

/// The farthest back a match may start.
pub const MAX_DISTANCE: usize = 65535;

/// The longest match a block describes.
pub const MAX_MATCH: usize = 255;

/// The shortest match worth a match block.
pub const MIN_MATCH: usize = 4;

/// The decoding of an LZ4-style stream; empty when it is malformed.
pub open spec fn lz4_decode(e: Seq<u8>) -> Seq<u8> {
    lz_decode(e, false)
}

/// How far the bytes at `p` agree with those at `i`, counting on from `k`,
/// up to `max`.
pub open spec fn match_len(s: Seq<u8>, i: int, p: int, k: int, max: int) -> int
    decreases max - k,
{
    if 0 <= k < max && 0 <= p && i + k < s.len() && s[i + k] == s[p + k] {
        match_len(s, i, p, k + 1, max)
    } else {
        k
    }
}

/// The match at position `i` with the hash table `table`: its length and
/// distance (zero when there is none), and the table afterwards.
pub open spec fn lz4_match(s: Seq<u8>, i: int, table: Seq<Option<usize>>) -> (
    int,
    int,
    Seq<Option<usize>>,
) {
    if s.len() - i >= 4 {
        let h = (s[i] * 256 + s[i + 1]) % 65536;
        let after = table.update(h, Some(i as usize));
        match table[h] {
            Some(p) => if i - p <= 65535 {
                let max = if s.len() - i < 255 {
                    s.len() - i
                } else {
                    255
                };
                (match_len(s, i, p as int, 0, max), i - p, after)
            } else {
                (0, 0, after)
            },
            None => (0, 0, after),
        }
    } else {
        (0, 0, table)
    }
}

/// The encoding of `s[i..]` with the hash table `table`.
pub open spec fn lz4_encode_from(s: Seq<u8>, i: int, table: Seq<Option<usize>>) -> Seq<u8>
    decreases s.len() - i,
{
    if 0 <= i < s.len() {
        let (len, dist, after) = lz4_match(s, i, table);
        if len >= 4 {
            if i < i + len <= s.len() {
                seq![0u8, (dist % 256) as u8, (dist / 256) as u8, len as u8] + lz4_encode_from(
                    s,
                    i + len,
                    after,
                )
            } else {
                seq![]
            }
        } else {
            seq![1u8, s[i]] + lz4_encode_from(s, i + 1, after)
        }
    } else {
        seq![]
    }
}

/// The encoding of `s`, starting from an empty hash table.
pub open spec fn lz4_encode(s: Seq<u8>) -> Seq<u8> {
    lz4_encode_from(s, 0, Seq::new(65536, |_h: int| None::<usize>))
}

/// Encodes `input`: where at least four bytes remain, the last earlier
/// position with the same two leading bytes is the match candidate; a
/// match of at least four bytes becomes a match block, else a literal.
pub fn compress(input: &[u8]) -> (r: Vec<u8>)
    ensures
        r@ == lz4_encode(input@),
        lz4_decode(r@) == input@,
        lz_decode_from(r@, seq![], false) == Some(input@),
{
    let ghost s = input@;
    let mut out: Vec<u8> = Vec::new();
    let mut table: Vec<Option<usize>> = Vec::new();
    while table.len() < HASH_SLOTS
        invariant
            table.len() <= HASH_SLOTS,
            forall|h: int| 0 <= h < table.len() ==> #[trigger] table[h] is None,
        decreases HASH_SLOTS - table.len(),
    {
        table.push(None);
    }
    let mut i: usize = 0;
    assert(s.subrange(0, 0) =~= seq![]);
    assert(table@ =~= Seq::new(65536, |_h: int| None::<usize>));
    assert(out@ + lz4_encode_from(s, 0, table@) =~= lz4_encode(s));
    while i < input.len()
        invariant
            s == input@,
            0 <= i <= s.len(),
            table.len() == HASH_SLOTS,
            forall|h: int| 0 <= h < table.len() && #[trigger] table[h] is Some ==> table[h]->0 < i,
            lz_decode_from(out@, seq![], false) == Some(s.subrange(0, i as int)),
            out@ + lz4_encode_from(s, i as int, table@) == lz4_encode(s),
        decreases input.len() - i,
    {
        let ghost out0 = out@;
        let ghost m = lz4_match(s, i as int, table@);
        let mut match_length: usize = 0;
        let mut match_distance: usize = 0;
        if input.len() - i >= 4 {
            let hash = ((input[i] as usize) * 256 + (input[i + 1] as usize)) % HASH_SLOTS;
            let candidate = table[hash];
            table.set(hash, Some(i));
            if let Some(ref_pos) = candidate {
                if i - ref_pos <= MAX_DISTANCE {
                    let max_length = if input.len() - i < MAX_MATCH {
                        input.len() - i
                    } else {
                        MAX_MATCH
                    };
                    while match_length < max_length && input[i + match_length]
                        == input[ref_pos + match_length]
                        invariant
                            s == input@,
                            ref_pos < i,
                            max_length <= 255,
                            i + max_length <= input.len(),
                            match_length <= max_length,
                            forall|t: int|
                                0 <= t < match_length ==> #[trigger] s[i + t] == s[ref_pos + t],
                            match_len(s, i as int, ref_pos as int, 0, max_length as int) == match_len(
                                s,
                                i as int,
                                ref_pos as int,
                                match_length as int,
                                max_length as int,
                            ),
                        decreases max_length - match_length,
                    {
                        match_length += 1;
                    }
                    match_distance = i - ref_pos;
                }
            }
        }
        assert(m.0 == match_length);
        assert(m.2 == table@);
        if match_length >= MIN_MATCH {
            assert(m.1 == match_distance);
            let ghost before = out@;
            assert forall|t: int| 0 <= t < match_length implies #[trigger] s[i + t] == s[i
                - match_distance + t] by {
                assert(s[i + t] == s[(i - match_distance) + t]);
            }
            let ghost b = seq![
                0u8,
                (match_distance % 256) as u8,
                (match_distance / 256) as u8,
                match_length as u8,
            ];
            out.push(0);
            out.push((match_distance % 256) as u8);
            out.push((match_distance / 256) as u8);
            out.push(match_length as u8);
            proof {
                assert(out@ =~= before + b);
                lemma_push_match(
                    before,
                    b,
                    s,
                    i as int,
                    match_distance as int,
                    match_length as nat,
                    false,
                );
                assert(out0 + (b + lz4_encode_from(s, i + match_length, table@)) =~= out@
                    + lz4_encode_from(s, i + match_length, table@));
            }
            i += match_length;
        } else {
            let ghost before = out@;
            out.push(1);
            out.push(input[i]);
            proof {
                assert(out@ =~= before + seq![1u8, s[i as int]]);
                lemma_push_literal(before, s, i as int, false);
                assert(out0 + (seq![1u8, s[i as int]] + lz4_encode_from(s, i + 1, table@)) =~= out@
                    + lz4_encode_from(s, i + 1, table@));
            }
            i += 1;
        }
    }
    assert(s.subrange(0, s.len() as int) =~= s);
    assert(out@ + lz4_encode_from(s, i as int, table@) =~= out@);
    out
}

/// Decodes an LZ4-style stream; an empty result when it is malformed (a
/// truncated block, an unknown tag, a zero distance or one that reaches
/// before the start of the output).
pub fn decompress(input: &[u8]) -> (r: Vec<u8>)
    ensures
        r@ == lz4_decode(input@),
{
    decode_blocks(input, false)
}

} // verus!
