//! Block streams of literals and back-references, shared by the LZ77 and
//! LZ4-style codecs.
//!
//! A literal block is tag `1` and one byte. A match block is tag `0`, a
//! 16-bit distance (big-endian for LZ77, little-endian for LZ4) and a length
//! byte: copy `length` bytes from `distance` bytes behind the end of the
//! output, one at a time, so that a copy may overlap what it writes.
use vstd::prelude::*;

verus! {

/// `out` after a back-reference copy of `l` bytes from distance `d`.
pub open spec fn back_copy(out: Seq<u8>, d: int, l: nat) -> Seq<u8>
    decreases l,
{
    if l == 0 {
        out
    } else {
        let p = back_copy(out, d, (l - 1) as nat);
        p.push(p[p.len() - d])
    }
}

/// The distance field of the match block at the front of `e`.
pub open spec fn block_distance(e: Seq<u8>, big_endian: bool) -> int {
    if big_endian {
        e[1] * 256 + e[2]
    } else {
        e[2] * 256 + e[1]
    }
}

/// Decodes the blocks of `e` after the output `out`; `None` on a malformed
/// stream: a truncated block, an unknown tag, or a distance that is zero or
/// reaches before the start of the output.
pub open spec fn lz_decode_from(e: Seq<u8>, out: Seq<u8>, big_endian: bool) -> Option<Seq<u8>>
    decreases e.len(),
{
    if e.len() == 0 {
        Some(out)
    } else if e[0] == 0 {
        if e.len() < 4 {
            None
        } else {
            let d = block_distance(e, big_endian);
            if d == 0 || d > out.len() {
                None
            } else {
                lz_decode_from(
                    e.subrange(4, e.len() as int),
                    back_copy(out, d, e[3] as nat),
                    big_endian,
                )
            }
        }
    } else if e[0] == 1 {
        if e.len() < 2 {
            None
        } else {
            lz_decode_from(e.subrange(2, e.len() as int), out.push(e[1]), big_endian)
        }
    } else {
        None
    }
}

/// The decoding of a whole stream; empty when the stream is malformed.
pub open spec fn lz_decode(e: Seq<u8>, big_endian: bool) -> Seq<u8> {
    match lz_decode_from(e, seq![], big_endian) {
        Some(o) => o,
        None => seq![],
    }
}

pub proof fn lemma_back_copy_len(out: Seq<u8>, d: int, l: nat)
    ensures
        back_copy(out, d, l).len() == out.len() + l,
    decreases l,
{
    if l > 0 {
        lemma_back_copy_len(out, d, (l - 1) as nat);
    }
}

/// A back-reference to bytes that repeat `l` bytes on reproduces them.
pub proof fn lemma_back_copy_repeat(s: Seq<u8>, m: int, d: int, l: nat)
    requires
        1 <= d <= m,
        m + l <= s.len(),
        forall|k: int| 0 <= k < l ==> #[trigger] s[m + k] == s[m - d + k],
    ensures
        back_copy(s.subrange(0, m), d, l) == s.subrange(0, m + l),
    decreases l,
{
    if l > 0 {
        lemma_back_copy_repeat(s, m, d, (l - 1) as nat);
        let k = l - 1;
        assert(s[m + k] == s[m - d + k]);
        assert(s.subrange(0, m + k).push(s[m + k]) =~= s.subrange(0, m + l));
    } else {
        assert(s.subrange(0, m) =~= s.subrange(0, m + l));
    }
}

/// Decoding is compositional: after a complete prefix, the rest decodes
/// from that prefix's output.
pub proof fn lemma_lz_decode_append(x: Seq<u8>, y: Seq<u8>, out: Seq<u8>, big_endian: bool)
    requires
        lz_decode_from(x, out, big_endian) is Some,
    ensures
        lz_decode_from(x + y, out, big_endian) == lz_decode_from(
            y,
            lz_decode_from(x, out, big_endian)->0,
            big_endian,
        ),
    decreases x.len(),
{
    if x.len() == 0 {
        assert(x + y =~= y);
    } else {
        let e = x + y;
        assert(e[0] == x[0]);
        if x[0] == 0 {
            assert(e.subrange(4, e.len() as int) =~= x.subrange(4, x.len() as int) + y);
            assert(block_distance(e, big_endian) == block_distance(x, big_endian));
            lemma_lz_decode_append(
                x.subrange(4, x.len() as int),
                y,
                back_copy(out, block_distance(x, big_endian), x[3] as nat),
                big_endian,
            );
        } else {
            assert(e.subrange(2, e.len() as int) =~= x.subrange(2, x.len() as int) + y);
            lemma_lz_decode_append(x.subrange(2, x.len() as int), y, out.push(x[1]), big_endian);
        }
    }
}

proof fn lemma_back_copy_shift(p: Seq<u8>, o: Seq<u8>, d: int, l: nat)
    requires
        1 <= d <= o.len(),
    ensures
        back_copy(p + o, d, l) == p + back_copy(o, d, l),
    decreases l,
{
    if l > 0 {
        lemma_back_copy_shift(p, o, d, (l - 1) as nat);
        lemma_back_copy_len(o, d, (l - 1) as nat);
        let c = back_copy(o, d, (l - 1) as nat);
        assert((p + c)[(p + c).len() - d] == c[c.len() - d]);
        assert((p + c).push(c[c.len() - d]) =~= p + c.push(c[c.len() - d]));
    }
}

/// Decoding after more output: a stream that decodes without error after
/// `o` decodes the same way after `p + o`.
pub proof fn lemma_lz_decode_shift(e: Seq<u8>, o: Seq<u8>, p: Seq<u8>, big_endian: bool)
    requires
        lz_decode_from(e, o, big_endian) is Some,
    ensures
        lz_decode_from(e, p + o, big_endian) == Some(p + lz_decode_from(e, o, big_endian)->0),
    decreases e.len(),
{
    if e.len() > 0 {
        if e[0] == 0 {
            let d = block_distance(e, big_endian);
            lemma_back_copy_shift(p, o, d, e[3] as nat);
            lemma_lz_decode_shift(
                e.subrange(4, e.len() as int),
                back_copy(o, d, e[3] as nat),
                p,
                big_endian,
            );
        } else {
            assert((p + o).push(e[1]) =~= p + o.push(e[1]));
            lemma_lz_decode_shift(e.subrange(2, e.len() as int), o.push(e[1]), p, big_endian);
        }
    }
}

/// Appending a literal block to a stream that decodes to `s[..i]` gives one
/// that decodes to `s[..i + 1]`.
pub proof fn lemma_push_literal(e: Seq<u8>, s: Seq<u8>, i: int, big_endian: bool)
    requires
        0 <= i < s.len(),
        lz_decode_from(e, seq![], big_endian) == Some(s.subrange(0, i)),
    ensures
        lz_decode_from(e + seq![1u8, s[i]], seq![], big_endian) == Some(s.subrange(0, i + 1)),
{
    let b = seq![1u8, s[i]];
    lemma_lz_decode_append(e, b, seq![], big_endian);
    assert(b.subrange(2, 2) =~= seq![]);
    assert(b[0] == 1 && b[1] == s[i]);
    assert(lz_decode_from(b.subrange(2, 2), s.subrange(0, i).push(s[i]), big_endian) == Some(
        s.subrange(0, i).push(s[i]),
    ));
    assert(s.subrange(0, i).push(s[i]) =~= s.subrange(0, i + 1));
}

/// Appending a match block whose bytes repeat those `d` behind gives a
/// stream that decodes `l` bytes further.
pub proof fn lemma_push_match(
    e: Seq<u8>,
    b: Seq<u8>,
    s: Seq<u8>,
    i: int,
    d: int,
    l: nat,
    big_endian: bool,
)
    requires
        1 <= d <= i,
        i + l <= s.len(),
        forall|k: int| 0 <= k < l ==> #[trigger] s[i + k] == s[i - d + k],
        b.len() == 4,
        b[0] == 0,
        block_distance(b, big_endian) == d,
        b[3] == l,
        lz_decode_from(e, seq![], big_endian) == Some(s.subrange(0, i)),
    ensures
        lz_decode_from(e + b, seq![], big_endian) == Some(s.subrange(0, i + l)),
{
    lemma_lz_decode_append(e, b, seq![], big_endian);
    assert(b.subrange(4, 4) =~= seq![]);
    lemma_back_copy_repeat(s, i, d, l);
    let p = back_copy(s.subrange(0, i), d, l);
    assert(lz_decode_from(b.subrange(4, 4), p, big_endian) == Some(p));
}

/// Decodes a block stream; an empty result on a malformed one.
pub fn decode_blocks(input: &[u8], big_endian: bool) -> (r: Vec<u8>)
    ensures
        r@ == lz_decode(input@, big_endian),
{
    let ghost e = input@;
    let mut out: Vec<u8> = Vec::new();
    let mut i: usize = 0;
    assert(e.subrange(0, e.len() as int) =~= e);
    while i < input.len()
        invariant
            e == input@,
            0 <= i <= e.len(),
            lz_decode_from(e, seq![], big_endian) == lz_decode_from(
                e.subrange(i as int, e.len() as int),
                out@,
                big_endian,
            ),
        decreases input.len() - i,
    {
        let ghost rest = e.subrange(i as int, e.len() as int);
        if input[i] == 0 {
            if input.len() - i < 4 {
                return Vec::new();
            }
            let distance: usize = if big_endian {
                (input[i + 1] as usize) * 256 + (input[i + 2] as usize)
            } else {
                (input[i + 2] as usize) * 256 + (input[i + 1] as usize)
            };
            let length = input[i + 3];
            assert(block_distance(rest, big_endian) == distance);
            if distance == 0 || distance > out.len() {
                return Vec::new();
            }
            let ghost before = out@;
            let mut k: u8 = 0;
            while k < length
                invariant
                    1 <= distance <= before.len(),
                    k <= length,
                    out@ == back_copy(before, distance as int, k as nat),
                decreases length - k,
            {
                proof {
                    lemma_back_copy_len(before, distance as int, k as nat);
                }
                let b = out[out.len() - distance];
                out.push(b);
                k += 1;
            }
            assert(rest.subrange(4, rest.len() as int) =~= e.subrange(i + 4, e.len() as int));
            i = i + 4;
        } else if input[i] == 1 {
            if input.len() - i < 2 {
                return Vec::new();
            }
            out.push(input[i + 1]);
            assert(rest.subrange(2, rest.len() as int) =~= e.subrange(i + 2, e.len() as int));
            i = i + 2;
        } else {
            return Vec::new();
        }
    }
    assert(e.subrange(i as int, e.len() as int) =~= seq![]);
    out
}

} // verus!
