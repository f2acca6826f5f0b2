//! Run-length coding with a literal escape.
//!
//! A block is a tag byte and its payload. A tag in `0..=127` is a run: the
//! next byte repeated `tag` times. A tag `128 + c` is a literal block: the
//! next `c` bytes, copied verbatim.
use vstd::prelude::*;

use crate::bytes::push_range;

verus! {

/// The longest run a single block can describe.
pub const MAX_RUN: usize = 127;

/// `n` copies of `b`.
pub open spec fn repeat_byte(b: u8, n: nat) -> Seq<u8> {
    Seq::new(n, |_k: int| b)
}

/// Length of the run of bytes equal to `s[i]` that starts at `i`, scanning
/// on from offset `k` and stopping at 127.
pub open spec fn run_scan(s: Seq<u8>, i: int, k: int) -> int
    decreases 127 - k,
{
    if 0 <= k < 127 && 0 <= i && i + k < s.len() && s[i + k] == s[i] {
        run_scan(s, i, k + 1)
    } else {
        k
    }
}

/// Where a literal block that starts at `i` stops scanning, from offset `c`:
/// at the end of input, at 127, or at the third of three equal bytes.
pub open spec fn lit_scan(s: Seq<u8>, i: int, c: int) -> int
    decreases 127 - c,
{
    if 2 <= c < 127 && 0 <= i && i + c < s.len() && !(s[i + c] == s[i + c - 1] && s[i + c]
        == s[i + c - 2]) {
        lit_scan(s, i, c + 1)
    } else {
        c
    }
}

/// The block that the encoder writes at position `i`, and where it goes on.
pub open spec fn rle_step(s: Seq<u8>, i: int) -> (Seq<u8>, int) {
    let r = run_scan(s, i, 1);
    if r > 1 {
        (seq![r as u8, s[i]], i + r)
    } else if i + 1 >= s.len() {
        (seq![1u8, s[i]], i + 1)
    } else if i + 2 >= s.len() {
        (seq![130u8, s[i], s[i + 1]], i + 2)
    } else {
        let c = lit_scan(s, i, 2) - 2;
        (seq![(128 + c) as u8] + s.subrange(i, i + c), i + c)
    }
}

/// The encoding of `s[i..]`.
pub open spec fn rle_encode_from(s: Seq<u8>, i: int) -> Seq<u8>
    decreases s.len() - i,
{
    if 0 <= i < s.len() {
        let step = rle_step(s, i);
        if i < step.1 <= s.len() {
            step.0 + rle_encode_from(s, step.1)
        } else {
            step.0
        }
    } else {
        seq![]
    }
}

/// The encoding of `s`.
pub open spec fn rle_encode(s: Seq<u8>) -> Seq<u8> {
    rle_encode_from(s, 0)
}

/// The decoding of `e`; a truncated final block decodes to nothing.
pub open spec fn rle_decode(e: Seq<u8>) -> Seq<u8>
    decreases e.len(),
{
    if e.len() == 0 {
        seq![]
    } else if e[0] <= 127 {
        if e.len() >= 2 {
            repeat_byte(e[1], e[0] as nat) + rle_decode(e.subrange(2, e.len() as int))
        } else {
            seq![]
        }
    } else {
        let c = e[0] - 128;
        if 1 + c <= e.len() {
            e.subrange(1, 1 + c) + rle_decode(e.subrange(1 + c, e.len() as int))
        } else {
            seq![]
        }
    }
}

proof fn lemma_run_scan(s: Seq<u8>, i: int, k: int)
    requires
        0 <= i,
        1 <= k <= 127,
        i + k <= s.len(),
        forall|j: int| 0 <= j < k ==> #[trigger] s[i + j] == s[i],
    ensures
        k <= run_scan(s, i, k) <= 127,
        i + run_scan(s, i, k) <= s.len(),
        forall|j: int| 0 <= j < run_scan(s, i, k) ==> #[trigger] s[i + j] == s[i],
    decreases 127 - k,
{
    if k < 127 && i + k < s.len() && s[i + k] == s[i] {
        assert forall|j: int| 0 <= j < k + 1 implies #[trigger] s[i + j] == s[i] by {
            if j < k {
            } else {
                assert(j == k);
            }
        }
        lemma_run_scan(s, i, k + 1);
    }
}

proof fn lemma_lit_scan(s: Seq<u8>, i: int, c: int)
    requires
        0 <= i,
        2 <= c <= 127,
        i + c <= s.len(),
    ensures
        c <= lit_scan(s, i, c) <= 127,
        i + lit_scan(s, i, c) <= s.len(),
    decreases 127 - c,
{
    if c < 127 && i + c < s.len() && !(s[i + c] == s[i + c - 1] && s[i + c] == s[i + c - 2]) {
        lemma_lit_scan(s, i, c + 1);
    }
}

/// Every block advances, and stays within the input.
proof fn lemma_rle_step(s: Seq<u8>, i: int)
    requires
        0 <= i < s.len(),
    ensures
        i < rle_step(s, i).1 <= s.len(),
        1 <= run_scan(s, i, 1) <= 127,
        run_scan(s, i, 1) > 1 ==> forall|j: int|
            0 <= j < run_scan(s, i, 1) ==> #[trigger] s[i + j] == s[i],
        run_scan(s, i, 1) <= 1 && i + 2 < s.len() ==> 3 <= lit_scan(s, i, 2) <= 127 && i
            + lit_scan(s, i, 2) <= s.len(),
{
    assert(s[i + 0] == s[i]);
    lemma_run_scan(s, i, 1);
    if i + 1 < s.len() && s[i + 1] == s[i] {
        assert forall|j: int| 0 <= j < 2 implies #[trigger] s[i + j] == s[i] by {
            if j == 1 {
            } else {
                assert(j == 0);
            }
        }
        lemma_run_scan(s, i, 2);
    }
    if run_scan(s, i, 1) <= 1 && i + 2 < s.len() {
        lemma_lit_scan(s, i, 3);
    }
}

proof fn lemma_rle_decode_from(s: Seq<u8>, i: int)
    requires
        0 <= i <= s.len(),
    ensures
        rle_decode(rle_encode_from(s, i)) == s.subrange(i, s.len() as int),
    decreases s.len() - i,
{
    if i < s.len() {
        lemma_rle_step(s, i);
        let b = rle_step(s, i).0;
        let n = rle_step(s, i).1;
        let rest = rle_encode_from(s, n);
        lemma_rle_decode_from(s, n);
        let e = b + rest;
        assert(rle_encode_from(s, i) == e);
        let r = run_scan(s, i, 1);
        if r > 1 {
            assert(e.subrange(2, e.len() as int) =~= rest);
            assert(e[0] == r as u8 && e[1] == s[i]);
            assert(e[0] as nat == r);
            assert forall|k: int| 0 <= k < r implies #[trigger] s.subrange(i, n)[k] == s[i] by {
                assert(s[i + k] == s[i]);
            }
            assert(repeat_byte(s[i], r as nat) =~= s.subrange(i, n));
            assert(rle_decode(e) == s.subrange(i, n) + rle_decode(rest));
        } else if i + 1 >= s.len() {
            assert(e.subrange(2, e.len() as int) =~= rest);
            assert(repeat_byte(s[i], 1) =~= s.subrange(i, n));
            assert(rle_decode(e) == s.subrange(i, n) + rle_decode(rest));
        } else if i + 2 >= s.len() {
            assert(e.subrange(3, e.len() as int) =~= rest);
            assert(e.subrange(1, 3) =~= s.subrange(i, n));
            assert(rle_decode(e) == s.subrange(i, n) + rle_decode(rest));
        } else {
            let c = lit_scan(s, i, 2) - 2;
            assert(e[0] - 128 == c);
            assert(e.subrange(1 + c, e.len() as int) =~= rest);
            assert(e.subrange(1, 1 + c) =~= s.subrange(i, n));
            assert(rle_decode(e) == s.subrange(i, n) + rle_decode(rest));
        }
        assert(s.subrange(i, n) + s.subrange(n, s.len() as int) =~= s.subrange(
            i,
            s.len() as int,
        ));
    } else {
        assert(s.subrange(i, s.len() as int) =~= seq![]);
    }
}

/// Decoding the encoding of any byte sequence gives it back.
pub proof fn lemma_rle_round_trip(s: Seq<u8>)
    ensures
        rle_decode(rle_encode(s)) == s,
{
    lemma_rle_decode_from(s, 0);
    assert(s.subrange(0, s.len() as int) =~= s);
}

/// Decoding is compositional after a complete encoding: what follows it
/// decodes on its own.
pub proof fn lemma_rle_decode_concat(s: Seq<u8>, t: Seq<u8>)
    ensures
        rle_decode(rle_encode(s) + t) == s + rle_decode(t),
{
    lemma_rle_decode_from_concat(s, 0, t);
    assert(s.subrange(0, s.len() as int) =~= s);
}

proof fn lemma_rle_decode_from_concat(s: Seq<u8>, i: int, t: Seq<u8>)
    requires
        0 <= i <= s.len(),
    ensures
        rle_decode(rle_encode_from(s, i) + t) == s.subrange(i, s.len() as int) + rle_decode(t),
    decreases s.len() - i,
{
    if i < s.len() {
        lemma_rle_step(s, i);
        let b = rle_step(s, i).0;
        let n = rle_step(s, i).1;
        let rest = rle_encode_from(s, n) + t;
        lemma_rle_decode_from_concat(s, n, t);
        let e = b + rest;
        assert(rle_encode_from(s, i) + t =~= e);
        let r = run_scan(s, i, 1);
        if r > 1 {
            assert(e.subrange(2, e.len() as int) =~= rest);
            assert(e[0] == r as u8 && e[1] == s[i]);
            assert(e[0] as nat == r);
            assert forall|k: int| 0 <= k < r implies #[trigger] s.subrange(i, n)[k] == s[i] by {
                assert(s[i + k] == s[i]);
            }
            assert(repeat_byte(s[i], r as nat) =~= s.subrange(i, n));
        } else if i + 1 >= s.len() {
            assert(e.subrange(2, e.len() as int) =~= rest);
            assert(repeat_byte(s[i], 1) =~= s.subrange(i, n));
        } else if i + 2 >= s.len() {
            assert(e.subrange(3, e.len() as int) =~= rest);
            assert(e.subrange(1, 3) =~= s.subrange(i, n));
        } else {
            let c = lit_scan(s, i, 2) - 2;
            assert(e[0] - 128 == c);
            assert(e.subrange(1 + c, e.len() as int) =~= rest);
            assert(e.subrange(1, 1 + c) =~= s.subrange(i, n));
        }
        assert(rle_decode(e) == s.subrange(i, n) + rle_decode(rest));
        assert(s.subrange(i, n) + (s.subrange(n, s.len() as int) + rle_decode(t)) =~= s.subrange(
            i,
            s.len() as int,
        ) + rle_decode(t));
    } else {
        assert(rle_encode_from(s, i) + t =~= t);
        assert(s.subrange(i, s.len() as int) + rle_decode(t) =~= rle_decode(t));
    }
}

/// Encodes `input` greedily: a run wherever two or more equal bytes start,
/// otherwise a literal block that ends where three equal bytes begin. A
/// last byte on its own is written as a run of one.
pub fn compress(input: &[u8]) -> (r: Vec<u8>)
    ensures
        r@ == rle_encode(input@),
        rle_decode(r@) == input@,
{
    let ghost s = input@;
    let mut out: Vec<u8> = Vec::new();
    let mut i: usize = 0;
    while i < input.len()
        invariant
            s == input@,
            0 <= i <= s.len(),
            out@ + rle_encode_from(s, i as int) == rle_encode(s),
        decreases input.len() - i,
    {
        proof {
            lemma_rle_step(s, i as int);
        }
        let ghost old_out = out@;
        let ghost step = rle_step(s, i as int);
        let mut run: usize = 1;
        while i + run < input.len() && input[i + run] == input[i] && run < MAX_RUN
            invariant
                s == input@,
                i + run <= input.len(),
                i < s.len(),
                1 <= run <= 127,
                i + run <= s.len(),
                run_scan(s, i as int, 1) == run_scan(s, i as int, run as int),
            decreases 127 - run,
        {
            run += 1;
        }
        let next: usize;
        if run > 1 {
            out.push(run as u8);
            out.push(input[i]);
            next = i + run;
        } else if i + 1 >= input.len() {
            out.push(1);
            out.push(input[i]);
            next = i + 1;
        } else if i + 2 >= input.len() {
            out.push(130);
            out.push(input[i]);
            out.push(input[i + 1]);
            next = i + 2;
        } else {
            let mut count: usize = 2;
            while i + count < input.len() && !(input[i + count] == input[i + count - 1]
                && input[i + count] == input[i + count - 2]) && count < MAX_RUN
                invariant
                    s == input@,
                    i + count <= input.len(),
                    i < s.len(),
                    2 <= count <= 127,
                    i + count <= s.len(),
                    lit_scan(s, i as int, 2) == lit_scan(s, i as int, count as int),
                decreases 127 - count,
            {
                count += 1;
            }
            let lit = count - 2;
            out.push((128 + lit) as u8);
            push_range(&mut out, input, i, i + lit);
            next = i + lit;
        }
        proof {
            assert(out@ =~= old_out + step.0);
            assert(next == step.1);
            assert(rle_encode_from(s, i as int) == step.0 + rle_encode_from(s, next as int));
            assert(old_out + (step.0 + rle_encode_from(s, next as int)) =~= out@
                + rle_encode_from(s, next as int));
        }
        i = next;
    }
    proof {
        assert(out@ + rle_encode_from(s, i as int) =~= out@);
        lemma_rle_round_trip(s);
    }
    out
}

/// Decodes a block stream; a truncated final block is dropped.
pub fn decompress(input: &[u8]) -> (r: Vec<u8>)
    ensures
        r@ == rle_decode(input@),
{
    let ghost e = input@;
    let mut out: Vec<u8> = Vec::new();
    let mut i: usize = 0;
    assert(e.subrange(0, e.len() as int) =~= e);
    while i < input.len()
        invariant
            e == input@,
            0 <= i <= e.len(),
            out@ + rle_decode(e.subrange(i as int, e.len() as int)) == rle_decode(e),
        decreases input.len() - i,
    {
        let ghost old_out = out@;
        let ghost rest = e.subrange(i as int, e.len() as int);
        let tag = input[i];
        if tag <= 127 {
            if i + 1 < input.len() {
                let value = input[i + 1];
                let mut k: u8 = 0;
                while k < tag
                    invariant
                        k <= tag,
                        out@ == old_out + repeat_byte(value, k as nat),
                    decreases tag - k,
                {
                    out.push(value);
                    k += 1;
                    assert(out@ =~= old_out + repeat_byte(value, k as nat));
                }
                assert(rest.subrange(2, rest.len() as int) =~= e.subrange(
                    i + 2,
                    e.len() as int,
                ));
                assert(old_out + (repeat_byte(value, tag as nat) + rle_decode(
                    e.subrange(i + 2, e.len() as int),
                )) =~= out@ + rle_decode(e.subrange(i + 2, e.len() as int)));
                i = i + 2;
            } else {
                assert(out@ + rle_decode(e.subrange(i + 1, e.len() as int)) =~= out@);
                i = i + 1;
            }
        } else {
            let count = (tag - 128) as usize;
            if count < input.len() - i {
                push_range(&mut out, input, i + 1, i + 1 + count);
                assert(rest.subrange(1, 1 + count) =~= e.subrange(i + 1, i + 1 + count));
                assert(rest.subrange(1 + count, rest.len() as int) =~= e.subrange(
                    i + 1 + count,
                    e.len() as int,
                ));
                assert(old_out + (e.subrange(i + 1, i + 1 + count) + rle_decode(
                    e.subrange(i + 1 + count, e.len() as int),
                )) =~= out@ + rle_decode(e.subrange(i + 1 + count, e.len() as int)));
                i = i + 1 + count;
            } else {
                assert(out@ + rle_decode(e.subrange(e.len() as int, e.len() as int)) =~= out@);
                i = input.len();
            }
        }
    }
    proof {
        assert(out@ + rle_decode(e.subrange(i as int, e.len() as int)) =~= out@);
    }
    out
}

} // verus!
