//! LZW with fixed 12-bit codes and a dictionary capped at 4096 entries.
//!
//! Both sides seed the dictionary with the 256 single bytes and grow it by
//! the same rule, so it is never transmitted.
use vstd::prelude::*;

use crate::bits::{
    bits_value, lemma_unpack_pack, lemma_value_of_value_bits, pack, pack_padded, pow2, unpack,
    value_bits, zeros, BitReader, BitWriter,
};
use crate::bytes::push_range;

verus! {

/// The most entries the dictionary holds.
pub const MAX_DICT_SIZE: usize = 4096;

/// Width of every code.
pub const CODE_BITS: u8 = 12;

/// The 256 single-byte sequences, each at the code equal to its byte.
pub open spec fn seed_dict() -> Seq<Seq<u8>> {
    Seq::new(256, |k: int| seq![k as u8])
}

/// The code of `w` in `dict`.
pub open spec fn code_of(dict: Seq<Seq<u8>>, w: Seq<u8>) -> int {
    choose|k: int| 0 <= k < dict.len() && dict[k] == w
}

/// The encoder after some input: its dictionary, the sequence `w` matched
/// so far, and the codes emitted.
pub struct EncState {
    pub dict: Seq<Seq<u8>>,
    pub w: Seq<u8>,
    pub codes: Seq<u16>,
}

/// The encoder after one more byte `c`: `w` grows by `c` while the result
/// is in the dictionary; otherwise the code of `w` is emitted, `w + c` is
/// learnt while there is room, and `w` restarts at `c`.
pub open spec fn enc_step(st: EncState, c: u8) -> EncState {
    let wc = st.w.push(c);
    if st.dict.contains(wc) {
        EncState { w: wc, ..st }
    } else {
        EncState {
            dict: if st.dict.len() < 4096 {
                st.dict.push(wc)
            } else {
                st.dict
            },
            w: seq![c],
            codes: if st.w.len() > 0 {
                st.codes.push(code_of(st.dict, st.w) as u16)
            } else {
                st.codes
            },
        }
    }
}

/// The encoder after the first `i` bytes of `s`.
pub open spec fn enc_state(s: Seq<u8>, i: int) -> EncState
    decreases i,
{
    if i <= 0 {
        EncState { dict: seed_dict(), w: seq![], codes: seq![] }
    } else {
        enc_step(enc_state(s, i - 1), s[i - 1])
    }
}

/// Every code the encoder emits for `s`, the last one for what remains
/// matched at the end.
pub open spec fn lzw_codes(s: Seq<u8>) -> Seq<u16> {
    let st = enc_state(s, s.len() as int);
    if st.w.len() > 0 {
        st.codes.push(code_of(st.dict, st.w) as u16)
    } else {
        st.codes
    }
}

/// The 12-bit codes `codes` one after another, most significant bit first.
pub open spec fn codes_bits(codes: Seq<u16>) -> Seq<bool>
    decreases codes.len(),
{
    if codes.len() == 0 {
        seq![]
    } else {
        codes_bits(codes.drop_last()) + value_bits(codes.last() as u32, 12)
    }
}

/// The compressed form of `s`: its codes, packed and zero-padded.
pub open spec fn lzw_encode(s: Seq<u8>) -> Seq<u8> {
    pack_padded(codes_bits(lzw_codes(s)))
}

/// Index of the trie slot for code `c` followed by byte `b`.
pub open spec fn slot(c: int, b: int) -> int {
    c * 256 + b
}

/// A dictionary as the encoder grows it: seeded, without repeats, and
/// closed under dropping the last byte.
pub open spec fn dict_ok(dict: Seq<Seq<u8>>) -> bool {
    &&& 256 <= dict.len() <= 4096
    &&& forall|k: int| 0 <= k < 256 ==> #[trigger] dict[k] == seq![k as u8]
    &&& forall|a: int, b: int|
        0 <= a < dict.len() && 0 <= b < dict.len() && a != b ==> #[trigger] dict[a] != #[trigger] dict[b]
    &&& forall|d: int|
        256 <= d < dict.len() ==> (#[trigger] dict[d]).len() >= 2 && exists|p: int|
            0 <= p < dict.len() && #[trigger] dict[p] == dict[d].drop_last()
}

/// `child` is the trie of `dict`: the slot of code `c` and byte `b` holds the
/// code of `dict[c] + b` when the dictionary has it, and nothing otherwise.
pub open spec fn trie_ok(child: Seq<Option<u16>>, dict: Seq<Seq<u8>>) -> bool {
    &&& child.len() == 4096 * 256
    &&& forall|c: int, b: int|
        0 <= c < dict.len() && 0 <= b < 256 ==> match #[trigger] child[slot(c, b)] {
            Some(n) => n < dict.len() && dict[n as int] == dict[c].push(b as u8),
            None => true,
        }
    &&& forall|c: int, b: int, d: int|
        0 <= c < dict.len() && 0 <= b < 256 && 0 <= d < dict.len() && #[trigger] dict[d]
            == dict[c].push(b as u8) ==> #[trigger] child[slot(c, b)] == Some(d as u16)
    &&& forall|c: int, b: int|
        dict.len() <= c < 4096 && 0 <= b < 256 ==> #[trigger] child[slot(c, b)] is None
}

proof fn lemma_slot(c: int, b: int, c2: int, b2: int)
    requires
        0 <= b < 256,
        0 <= b2 < 256,
        slot(c, b) == slot(c2, b2),
    ensures
        c == c2 && b == b2,
{
}

proof fn lemma_code_of(dict: Seq<Seq<u8>>, x: int)
    requires
        dict_ok(dict),
        0 <= x < dict.len(),
    ensures
        code_of(dict, dict[x]) == x,
{
    let k = code_of(dict, dict[x]);
    assert(dict[x] == dict[x]);
    assert(0 <= k < dict.len() && dict[k] == dict[x]);
}

/// What the trie says of `dict[x] + b`.
proof fn lemma_trie_lookup(child: Seq<Option<u16>>, dict: Seq<Seq<u8>>, x: int, b: int)
    requires
        dict_ok(dict),
        trie_ok(child, dict),
        0 <= x < dict.len(),
        0 <= b < 256,
    ensures
        child[slot(x, b)] is Some <==> dict.contains(dict[x].push(b as u8)),
        child[slot(x, b)] is Some ==> {
            let n = child[slot(x, b)]->0 as int;
            n < dict.len() && dict[n] == dict[x].push(b as u8)
        },
{
    let wc = dict[x].push(b as u8);
    match child[slot(x, b)] {
        Some(n) => {
            assert(dict[n as int] == wc);
        },
        None => {
            if dict.contains(wc) {
                let d = choose|d: int| 0 <= d < dict.len() && dict[d] == wc;
                assert(child[slot(x, b)] == Some(d as u16));
            }
        },
    }
}

/// Learning `dict[x] + b`, absent so far, keeps the dictionary and its trie
/// in step.
#[verifier::rlimit(50)]
proof fn lemma_trie_insert(child: Seq<Option<u16>>, dict: Seq<Seq<u8>>, x: int, b: int)
    requires
        dict_ok(dict),
        trie_ok(child, dict),
        0 <= x < dict.len() < 4096,
        0 <= b < 256,
        !dict.contains(dict[x].push(b as u8)),
    ensures
        dict_ok(dict.push(dict[x].push(b as u8))),
        trie_ok(
            child.update(slot(x, b), Some(dict.len() as u16)),
            dict.push(dict[x].push(b as u8)),
        ),
{
    let wc = dict[x].push(b as u8);
    let n = dict.len() as int;
    let d2 = dict.push(wc);
    let c2 = child.update(slot(x, b), Some(n as u16));
    assert(0 <= slot(x, b) < child.len());
    assert forall|k: int| 0 <= k < 256 implies #[trigger] d2[k] == seq![k as u8] by {
        assert(d2[k] == dict[k]);
    }
    assert forall|a: int, e: int|
        0 <= a < d2.len() && 0 <= e < d2.len() && a != e implies #[trigger] d2[a]
            != #[trigger] d2[e] by {
        if a == n {
            assert(d2[e] == dict[e]);
        } else if e == n {
            assert(d2[a] == dict[a]);
        } else {
            assert(d2[a] == dict[a] && d2[e] == dict[e]);
        }
    }
    assert forall|d: int| 256 <= d < d2.len() implies (#[trigger] d2[d]).len() >= 2 && exists|p: int|
        0 <= p < d2.len() && #[trigger] d2[p] == d2[d].drop_last() by {
        if d == n {
            assert(d2[x] == d2[d].drop_last());
            assert(dict[x].len() >= 1) by {
                if x >= 256 {
                    assert(dict[x].len() >= 2);
                } else {
                    assert(dict[x] == seq![x as u8]);
                }
            }
        } else {
            assert(d2[d] == dict[d]);
            let p = choose|p: int| 0 <= p < dict.len() && #[trigger] dict[p] == dict[d].drop_last();
            assert(d2[p] == d2[d].drop_last());
        }
    }
    assert forall|c: int, e: int|
        0 <= c < d2.len() && 0 <= e < 256 implies match #[trigger] c2[slot(c, e)] {
        Some(m) => m < d2.len() && d2[m as int] == d2[c].push(e as u8),
        None => true,
    } by {
        if slot(c, e) == slot(x, b) {
            lemma_slot(c, e, x, b);
        } else if c < n {
            assert(c2[slot(c, e)] == child[slot(c, e)]);
            assert(d2[c] == dict[c]);
            match child[slot(c, e)] {
                Some(m) => {
                    assert(d2[m as int] == dict[m as int]);
                },
                None => {},
            }
        } else {
            assert(c2[slot(c, e)] == child[slot(c, e)]);
        }
    }
    assert forall|c: int, e: int, d: int|
        0 <= c < d2.len() && 0 <= e < 256 && 0 <= d < d2.len() && #[trigger] d2[d] == d2[c].push(
            e as u8,
        ) implies #[trigger] c2[slot(c, e)] == Some(d as u16) by {
        if d == n {
            assert(d2[c] =~= wc.drop_last());
            if c == n {
                assert(false);
            }
            assert(d2[c] == dict[c]);
            assert(dict[c] == dict[x]);
            assert(wc.last() == b as u8);
            assert(d2[c].push(e as u8).last() == e as u8);
            assert(e == b);
        } else if c == n {
            assert(d2[d] == dict[d]);
            assert(dict[d].len() >= 2);
            if d >= 256 {
                let p = choose|p: int| 0 <= p < dict.len() && #[trigger] dict[p] == dict[d].drop_last();
                assert(dict[d].drop_last() =~= wc);
                assert(dict.contains(wc));
            } else {
                assert(dict[d] == seq![d as u8]);
            }
        } else {
            assert(d2[d] == dict[d] && d2[c] == dict[c]);
            if slot(c, e) == slot(x, b) {
                lemma_slot(c, e, x, b);
                assert(dict.contains(wc));
            } else {
                assert(c2[slot(c, e)] == child[slot(c, e)]);
            }
        }
    }
    assert forall|c: int, e: int| d2.len() <= c < 4096 && 0 <= e < 256 implies #[trigger] c2[slot(
        c,
        e,
    )] is None by {
        if slot(c, e) == slot(x, b) {
            lemma_slot(c, e, x, b);
        }
        assert(c2[slot(c, e)] == child[slot(c, e)]);
    }
}

proof fn lemma_codes_bits_push(codes: Seq<u16>, c: u16)
    ensures
        codes_bits(codes.push(c)) == codes_bits(codes) + value_bits(c as u32, 12),
{
    assert(codes.push(c).drop_last() =~= codes);
}

/// Encodes `input` as 12-bit LZW codes, packed most significant bit first
/// and zero-padded to a whole byte.
pub fn compress(input: &[u8]) -> (r: Vec<u8>)
    ensures
        r@ == lzw_encode(input@),
{
    let ghost s = input@;
    let mut child: Vec<Option<u16>> = Vec::new();
    while child.len() < MAX_DICT_SIZE * 256
        invariant
            child.len() <= 4096 * 256,
            forall|k: int| 0 <= k < child.len() ==> #[trigger] child@[k] is None,
        decreases MAX_DICT_SIZE * 256 - child.len(),
    {
        child.push(None);
    }
    let mut dict_size: usize = 256;
    let mut w_code: Option<u16> = None;
    let mut writer = BitWriter::new();
    let mut i: usize = 0;
    proof {
        let st = enc_state(s, 0);
        assert(st.dict =~= seed_dict());
        assert forall|a: int, b: int|
            0 <= a < st.dict.len() && 0 <= b < st.dict.len() && a != b implies #[trigger] st.dict[a]
            != #[trigger] st.dict[b] by {
            assert(st.dict[a][0] != st.dict[b][0]);
        }
        assert forall|c: int, b: int|
            0 <= c < 4096 && 0 <= b < 256 implies #[trigger] child@[slot(c, b)] is None by {
            assert(0 <= slot(c, b) < child@.len());
        }
        assert forall|c: int, b: int, d: int|
            0 <= c < st.dict.len() && 0 <= b < 256 && 0 <= d < st.dict.len() && #[trigger] st.dict[d]
                == st.dict[c].push(b as u8) implies #[trigger] child@[slot(c, b)] == Some(d as u16) by {
            assert(st.dict[d].len() == 1);
            assert(st.dict[c].push(b as u8).len() == 2);
        }
        assert(codes_bits(st.codes) =~= seq![]);
    }
    while i < input.len()
        invariant
            s == input@,
            0 <= i <= s.len(),
            dict_ok(enc_state(s, i as int).dict),
            trie_ok(child@, enc_state(s, i as int).dict),
            dict_size == enc_state(s, i as int).dict.len(),
            w_code is None <==> enc_state(s, i as int).w.len() == 0,
            w_code is Some ==> w_code->0 < dict_size && enc_state(s, i as int).dict[w_code->0 as int]
                == enc_state(s, i as int).w,
            writer.wf(),
            writer.bits() == codes_bits(enc_state(s, i as int).codes),
        decreases input.len() - i,
    {
        let ghost st = enc_state(s, i as int);
        let c = input[i];
        assert(enc_state(s, i + 1) == enc_step(st, c));
        match w_code {
            None => {
                assert(st.dict[c as int] == seq![c]);
                assert(st.w.push(c) =~= seq![c]);
                assert(st.dict.contains(st.w.push(c)));
                w_code = Some(c as u16);
            },
            Some(code) => {
                let at = code as usize * 256 + c as usize;
                proof {
                    lemma_trie_lookup(child@, st.dict, code as int, c as int);
                }
                assert(at == slot(code as int, c as int));
                match child[at] {
                    Some(next) => {
                        w_code = Some(next);
                    },
                    None => {
                        proof {
                            lemma_code_of(st.dict, code as int);
                            lemma_codes_bits_push(st.codes, code);
                        }
                        writer.write_bits(code, CODE_BITS);
                        if dict_size < MAX_DICT_SIZE {
                            proof {
                                lemma_trie_insert(child@, st.dict, code as int, c as int);
                            }
                            child.set(at, Some(dict_size as u16));
                            dict_size += 1;
                        }
                        assert(st.dict[c as int] == seq![c]);
                        w_code = Some(c as u16);
                    },
                }
            },
        }
        i += 1;
    }
    let ghost st = enc_state(s, i as int);
    if let Some(code) = w_code {
        proof {
            lemma_code_of(st.dict, code as int);
            lemma_codes_bits_push(st.codes, code);
        }
        writer.write_bits(code, CODE_BITS);
    }
    writer.flush();
    writer.into_bytes()
}

/// The decoder after some codes: its dictionary, the entry it last wrote,
/// and its output.
pub struct DecState {
    pub dict: Seq<Seq<u8>>,
    pub w: Seq<u8>,
    pub out: Seq<u8>,
}

/// The decoder after one more code `k`: a known code stands for its entry,
/// the next free code for `w` followed by its own first byte, and any other
/// code is an error. While there is room, `w` followed by the first byte of
/// the new entry is learnt.
pub open spec fn dec_step(st: DecState, k: u16) -> Option<DecState> {
    let entry = if (k as int) < st.dict.len() {
        Some(st.dict[k as int])
    } else if k as int == st.dict.len() {
        Some(st.w.push(st.w[0]))
    } else {
        None
    };
    match entry {
        Some(e) => Some(
            DecState {
                dict: if st.dict.len() < 4096 {
                    st.dict.push(st.w.push(e[0]))
                } else {
                    st.dict
                },
                w: e,
                out: st.out + e,
            },
        ),
        None => None,
    }
}

/// The decoder after the first `n` codes (at least one); `None` once a code
/// was an error. The first code must be a single byte.
pub open spec fn dec_state(codes: Seq<u16>, n: int) -> Option<DecState>
    decreases n,
{
    if n <= 1 {
        if codes.len() > 0 && codes[0] < 256 {
            Some(DecState { dict: seed_dict(), w: seq![codes[0] as u8], out: seq![codes[0] as u8] })
        } else {
            None
        }
    } else {
        match dec_state(codes, n - 1) {
            Some(st) => dec_step(st, codes[n - 1]),
            None => None,
        }
    }
}

/// The bytes that `codes` decode to; empty on a decode error.
pub open spec fn lzw_decode_codes(codes: Seq<u16>) -> Seq<u8> {
    if codes.len() == 0 {
        seq![]
    } else {
        match dec_state(codes, codes.len() as int) {
            Some(st) => st.out,
            None => seq![],
        }
    }
}

/// The whole 12-bit codes in `bits`; fewer than 12 bits at the end are
/// padding.
pub open spec fn read_codes(bits: Seq<bool>) -> Seq<u16> {
    Seq::new(bits.len() / 12, |j: int| bits_value(bits.subrange(12 * j, 12 * j + 12)) as u16)
}

/// The decoding of a compressed stream; empty on a decode error.
pub open spec fn lzw_decode(bytes: Seq<u8>) -> Seq<u8> {
    lzw_decode_codes(read_codes(unpack(bytes)))
}

/// The entries of an executable dictionary.
pub open spec fn entries(d: Seq<Vec<u8>>) -> Seq<Seq<u8>> {
    d.map_values(|v: Vec<u8>| v@)
}

proof fn lemma_dec_state_error(codes: Seq<u16>, m: int, n: int)
    requires
        1 <= m <= n,
        dec_state(codes, m) is None,
    ensures
        dec_state(codes, n) is None,
    decreases n - m,
{
    if m < n {
        lemma_dec_state_error(codes, m, n - 1);
    }
}

/// Reads every whole 12-bit code of `input`.
fn read_all_codes(input: &[u8]) -> (codes: Vec<u16>)
    ensures
        codes@ == read_codes(unpack(input@)),
{
    let mut data: Vec<u8> = Vec::new();
    push_range(&mut data, input, 0, input.len());
    assert(data@ =~= input@);
    let ghost bits = unpack(input@);
    let mut reader = BitReader::new(data);
    let mut codes: Vec<u16> = Vec::new();
    loop
        invariant_except_break
            reader.wf(),
            reader.data() == input@,
            bits == unpack(input@),
            reader.position() == 12 * codes.len(),
            12 * codes.len() <= bits.len(),
            codes@ == read_codes(bits).subrange(0, codes.len() as int),
        ensures
            codes@ == read_codes(bits),
        decreases bits.len() - 12 * codes.len(),
    {
        match reader.read_bits(CODE_BITS) {
            Some(code) => {
                codes.push(code);
                assert(codes@ =~= read_codes(bits).subrange(0, codes.len() as int));
            },
            None => {
                assert(codes@ =~= read_codes(bits));
                break ;
            },
        }
    }
    codes
}

/// Decodes a sequence of codes; an empty result on a decode error.
fn decode_codes(codes: &Vec<u16>) -> (r: Vec<u8>)
    ensures
        r@ == lzw_decode_codes(codes@),
{
    if codes.len() == 0 {
        return Vec::new();
    }
    let first = codes[0];
    if first >= 256 {
        proof {
            lemma_dec_state_error(codes@, 1, codes.len() as int);
        }
        return Vec::new();
    }
    let mut dict: Vec<Vec<u8>> = Vec::new();
    let mut b: usize = 0;
    while b < 256
        invariant
            dict.len() == b <= 256,
            forall|k: int| 0 <= k < b ==> #[trigger] dict@[k]@ == seq![k as u8],
        decreases 256 - b,
    {
        let mut e: Vec<u8> = Vec::new();
        e.push(b as u8);
        dict.push(e);
        b += 1;
    }
    let mut w: Vec<u8> = Vec::new();
    w.push(first as u8);
    let mut result: Vec<u8> = Vec::new();
    result.push(first as u8);
    assert(entries(dict@) =~= seed_dict());
    let mut n: usize = 1;
    while n < codes.len()
        invariant
            1 <= n <= codes.len(),
            256 <= dict.len() <= 4096,
            w@.len() > 0,
            forall|k: int| 0 <= k < dict.len() ==> (#[trigger] dict@[k])@.len() > 0,
            dec_state(codes@, n as int) == Some(
                DecState { dict: entries(dict@), w: w@, out: result@ },
            ),
        decreases codes.len() - n,
    {
        let ghost st = dec_state(codes@, n as int)->0;
        let k = codes[n];
        let entry: Vec<u8>;
        if (k as usize) < dict.len() {
            entry = dict[k as usize].clone();
            assert(entry@ =~= st.dict[k as int]);
        } else if k as usize == dict.len() {
            let mut e = w.clone();
            e.push(w[0]);
            entry = e;
            assert(entry@ =~= st.w.push(st.w[0]));
        } else {
            proof {
                lemma_dec_state_error(codes@, n + 1, codes.len() as int);
            }
            return Vec::new();
        }
        push_range(&mut result, entry.as_slice(), 0, entry.len());
        assert(entry@.subrange(0, entry@.len() as int) =~= entry@);
        if dict.len() < MAX_DICT_SIZE {
            let mut learnt = w.clone();
            learnt.push(entry[0]);
            assert(learnt@ =~= st.w.push(entry@[0]));
            dict.push(learnt);
            assert(entries(dict@) =~= st.dict.push(st.w.push(entry@[0])));
        }
        w = entry;
        n += 1;
    }
    result
}

/// Decodes a compressed stream; an empty result on a decode error: a code
/// that is neither in the dictionary nor the next one to be learnt.
pub fn decompress(input: &[u8]) -> (r: Vec<u8>)
    ensures
        r@ == lzw_decode(input@),
{
    let codes = read_all_codes(input);
    decode_codes(&codes)
}

/// The dictionary starts with the 256 single bytes and learns at most one
/// entry per input byte, never growing past 4096 entries.
pub proof fn lemma_lzw_dictionary_growth(s: Seq<u8>, i: int)
    requires
        0 <= i <= s.len(),
    ensures
        256 <= enc_state(s, i).dict.len() <= 4096,
        i < s.len() ==> enc_state(s, i).dict.len() <= enc_state(s, i + 1).dict.len()
            <= enc_state(s, i).dict.len() + 1,
        i < s.len() && enc_state(s, i).dict.len() == 4096 ==> enc_state(s, i + 1).dict.len()
            == 4096,
    decreases i,
{
    if i > 0 {
        lemma_lzw_dictionary_growth(s, i - 1);
    }
}

/// The bytes that the codes `cs` stand for in `dict`, one after another.
pub open spec fn expand(dict: Seq<Seq<u8>>, cs: Seq<u16>) -> Seq<u8>
    decreases cs.len(),
{
    if cs.len() == 0 {
        seq![]
    } else {
        expand(dict, cs.drop_last()) + dict[cs.last() as int]
    }
}

/// How many entries the dictionary has after `m` codes were emitted.
pub open spec fn dict_len_after(m: int) -> int {
    if m < 3840 {
        256 + m
    } else {
        4096
    }
}

/// The byte that follows the `j`-th emitted code's entry in the encoder's
/// input.
pub open spec fn next_first(st: EncState, j: int) -> u8 {
    if j + 1 < st.codes.len() {
        st.dict[st.codes[j + 1] as int][0]
    } else {
        st.w[0]
    }
}

/// What holds of the encoder after the first `i` bytes of `s`.
pub open spec fn enc_inv(s: Seq<u8>, i: int) -> bool {
    let st = enc_state(s, i);
    &&& st.dict.len() == dict_len_after(st.codes.len() as int)
    &&& forall|k: int| 0 <= k < 256 ==> #[trigger] st.dict[k] == seq![k as u8]
    &&& forall|k: int| 0 <= k < st.dict.len() ==> (#[trigger] st.dict[k]).len() > 0
    &&& forall|j: int| 0 <= j < st.codes.len() ==> #[trigger] st.codes[j] < dict_len_after(j)
    &&& expand(st.dict, st.codes) + st.w == s.subrange(0, i)
    &&& (i > 0 ==> st.w.len() > 0 && st.dict.contains(st.w))
    &&& forall|k: int|
        256 <= k < st.dict.len() ==> #[trigger] st.dict[k] == st.dict[st.codes[k - 256] as int].push(
            next_first(st, k - 256),
        )
}

proof fn lemma_expand_extend(dict: Seq<Seq<u8>>, x: Seq<u8>, cs: Seq<u16>)
    requires
        forall|j: int| 0 <= j < cs.len() ==> #[trigger] cs[j] < dict.len(),
    ensures
        expand(dict.push(x), cs) == expand(dict, cs),
    decreases cs.len(),
{
    if cs.len() > 0 {
        assert forall|j: int| 0 <= j < cs.drop_last().len() implies #[trigger] cs.drop_last()[j]
            < dict.len() by {
            assert(cs.drop_last()[j] == cs[j]);
        }
        lemma_expand_extend(dict, x, cs.drop_last());
        assert(cs.last() == cs[cs.len() - 1]);
    }
}

#[verifier::rlimit(50)]
proof fn lemma_enc_inv(s: Seq<u8>, i: int)
    requires
        0 <= i <= s.len(),
    ensures
        enc_inv(s, i),
    decreases i,
{
    if i == 0 {
        let st = enc_state(s, 0);
        assert(st.dict =~= seed_dict());
        assert(expand(st.dict, st.codes) + st.w =~= s.subrange(0, 0));
    } else {
        lemma_enc_inv(s, i - 1);
        let st = enc_state(s, i - 1);
        let c = s[i - 1];
        let st2 = enc_state(s, i);
        assert(st2 == enc_step(st, c));
        let wc = st.w.push(c);
        assert(s.subrange(0, i) =~= s.subrange(0, i - 1).push(c));
        if st.dict.contains(wc) {
            assert(expand(st.dict, st.codes) + wc =~= (expand(st.dict, st.codes) + st.w).push(c));
            if i - 1 > 0 {
                assert(wc[0] == st.w[0]);
            }
            assert forall|k: int|
                256 <= k < st2.dict.len() implies #[trigger] st2.dict[k] == st2.dict[st2.codes[k
                - 256] as int].push(next_first(st2, k - 256)) by {
                assert(st.dict[k] == st.dict[st.codes[k - 256] as int].push(next_first(st, k - 256)));
                if k - 256 + 1 >= st.codes.len() {
                    assert(st.w.len() > 0);
                    assert(wc[0] == st.w[0]);
                }
            }
        } else {
            let cw = code_of(st.dict, st.w);
            let d = st.dict;
            let d2 = st2.dict;
            let cs2 = st2.codes;
            if i - 1 == 0 {
                assert(st.w.push(c) =~= seq![c]);
                assert(d[c as int] == seq![c]);
                assert(false);
            }
            assert(st.w.len() > 0 && d.contains(st.w));
            assert(0 <= cw < d.len() && d[cw] == st.w);
            assert(cs2 == st.codes.push(cw as u16));
            assert(cs2.drop_last() =~= st.codes);
            if d.len() < 4096 {
                assert(d2 == d.push(wc));
                lemma_expand_extend(d, wc, st.codes);
                assert(d2[cw] == d[cw]);
            } else {
                assert(d2 == d);
            }
            assert(expand(d2, cs2) == expand(d2, st.codes) + d2[cw]);
            assert(expand(d2, cs2) + st2.w =~= (expand(d, st.codes) + st.w).push(c));
            assert(d2.len() == dict_len_after(cs2.len() as int));
            assert forall|k: int| 0 <= k < 256 implies #[trigger] d2[k] == seq![k as u8] by {
                assert(d2[k] == d[k]);
            }
            assert forall|k: int| 0 <= k < d2.len() implies (#[trigger] d2[k]).len() > 0 by {
                if k < d.len() {
                    assert(d2[k] == d[k]);
                }
            }
            assert forall|j: int| 0 <= j < cs2.len() implies #[trigger] cs2[j] < dict_len_after(j) by {
                if j < st.codes.len() {
                    assert(cs2[j] == st.codes[j]);
                }
            }
            assert(d2[c as int] == seq![c]);
            assert(st2.w =~= seq![c]);
            assert(d2.contains(st2.w));
            assert forall|k: int|
                256 <= k < d2.len() implies #[trigger] d2[k] == d2[cs2[k - 256] as int].push(
                next_first(st2, k - 256),
            ) by {
                if k < d.len() {
                    assert(d2[k] == d[k]);
                    assert(d[k] == d[st.codes[k - 256] as int].push(next_first(st, k - 256)));
                    assert(cs2[k - 256] == st.codes[k - 256]);
                    assert(d2[st.codes[k - 256] as int] == d[st.codes[k - 256] as int]);
                    if k - 256 + 1 < st.codes.len() {
                        assert(cs2[k - 256 + 1] == st.codes[k - 256 + 1]);
                        assert(d2[st.codes[k - 256 + 1] as int] == d[st.codes[k - 256 + 1] as int]);
                    } else {
                        assert(cs2[k - 256 + 1] == cw as u16);
                    }
                } else {
                    assert(k == d.len());
                    assert(k - 256 == st.codes.len());
                    assert(cs2[k - 256] == cw as u16);
                }
            }
        }
    }
}

/// What holds of a dictionary and the codes that it decodes.
pub open spec fn final_ok(dict: Seq<Seq<u8>>, f: Seq<u16>) -> bool {
    &&& f.len() >= 1
    &&& dict.len() == dict_len_after(f.len() - 1)
    &&& forall|k: int| 0 <= k < 256 ==> #[trigger] dict[k] == seq![k as u8]
    &&& forall|k: int| 0 <= k < dict.len() ==> (#[trigger] dict[k]).len() > 0
    &&& forall|j: int| 0 <= j < f.len() ==> #[trigger] f[j] < dict_len_after(j)
    &&& forall|k: int|
        256 <= k < dict.len() ==> #[trigger] dict[k] == dict[f[k - 256] as int].push(
            dict[f[k - 255] as int][0],
        )
}

#[verifier::rlimit(50)]
proof fn lemma_dec_prefix(dict: Seq<Seq<u8>>, f: Seq<u16>, n: int)
    requires
        final_ok(dict, f),
        1 <= n <= f.len(),
    ensures
        dec_state(f, n) == Some(
            DecState {
                dict: dict.subrange(0, dict_len_after(n - 1)),
                w: dict[f[n - 1] as int],
                out: expand(dict, f.subrange(0, n)),
            },
        ),
    decreases n,
{
    if n == 1 {
        assert(f[0] < dict_len_after(0));
        assert(dict.subrange(0, 256) =~= seed_dict());
        assert(dict[f[0] as int] == seq![f[0] as u8]);
        assert(f.subrange(0, 1).drop_last() =~= seq![]);
        assert(expand(dict, f.subrange(0, 1).drop_last()) =~= seq![]);
        assert(f.subrange(0, 1).last() == f[0]);
        assert(expand(dict, f.subrange(0, 1)) =~= dict[f[0] as int]);
    } else {
        lemma_dec_prefix(dict, f, n - 1);
        let l = dict_len_after(n - 2);
        let st = dec_state(f, n - 1)->0;
        let k = f[n - 1];
        let xp = dict[f[n - 2] as int];
        let xn = dict[k as int];
        assert(st.dict.len() == l);
        assert(k < dict_len_after(n - 1));
        assert(dict.len() == dict_len_after(f.len() - 1));
        if (k as int) < l {
            assert(st.dict[k as int] == xn);
        } else {
            assert(k as int == l);
            assert(l == 256 + n - 2);
            assert(dict[l] == dict[f[n - 2] as int].push(dict[f[n - 1] as int][0]));
            assert(xn == xp.push(xn[0]));
            assert(xp.len() > 0);
            assert(xn[0] == xp[0]);
            assert(st.w == xp);
            assert(xn =~= st.w.push(st.w[0]));
        }
        let e = xn;
        if l < 4096 {
            assert(l == 256 + n - 2);
            assert(dict[l] == xp.push(e[0]));
            assert(st.dict.push(st.w.push(e[0])) =~= dict.subrange(0, dict_len_after(n - 1)));
        } else {
            assert(st.dict =~= dict.subrange(0, dict_len_after(n - 1)));
        }
        assert(f.subrange(0, n).drop_last() =~= f.subrange(0, n - 1));
        assert(f.subrange(0, n).last() == k);
    }
}

proof fn lemma_codes_bits_layout(cs: Seq<u16>)
    ensures
        codes_bits(cs).len() == 12 * cs.len(),
        forall|j: int|
            0 <= j < cs.len() ==> codes_bits(cs).subrange(12 * j, 12 * j + 12) == value_bits(
                #[trigger] cs[j] as u32,
                12,
            ),
    decreases cs.len(),
{
    if cs.len() > 0 {
        let c0 = cs.drop_last();
        lemma_codes_bits_layout(c0);
        let b = codes_bits(cs);
        assert forall|j: int| 0 <= j < cs.len() implies b.subrange(12 * j, 12 * j + 12) == value_bits(
            #[trigger] cs[j] as u32,
            12,
        ) by {
            if j < c0.len() {
                assert(c0[j] == cs[j]);
                assert(b.subrange(12 * j, 12 * j + 12) =~= codes_bits(c0).subrange(
                    12 * j,
                    12 * j + 12,
                ));
            } else {
                assert(b.subrange(12 * j, 12 * j + 12) =~= value_bits(cs.last() as u32, 12));
            }
        }
    }
}

/// Codes below 4096, written and read back, are the same codes.
proof fn lemma_read_codes(cs: Seq<u16>)
    requires
        forall|j: int| 0 <= j < cs.len() ==> #[trigger] cs[j] < 4096,
    ensures
        read_codes(unpack(pack_padded(codes_bits(cs)))) == cs,
{
    let b = codes_bits(cs);
    lemma_codes_bits_layout(cs);
    let pad = ((8 - b.len() % 8) % 8) as nat;
    let x = b + zeros(pad);
    lemma_unpack_pack(x);
    assert(x.len() / 12 == cs.len());
    assert forall|j: int| 0 <= j < cs.len() implies #[trigger] read_codes(x)[j] == cs[j] by {
        assert(x.subrange(12 * j, 12 * j + 12) =~= b.subrange(12 * j, 12 * j + 12));
        assert(pow2(12) == 4096) by {
            reveal_with_fuel(pow2, 13);
        }
        lemma_value_of_value_bits(cs[j] as u32, 12);
    }
    assert(read_codes(x) =~= cs);
}

/// Decompressing what compression made of any byte sequence gives it back,
/// also once the dictionary is full.
#[verifier::rlimit(50)]
pub proof fn lemma_lzw_round_trip(s: Seq<u8>)
    ensures
        lzw_decode(lzw_encode(s)) == s,
{
    lemma_enc_inv(s, s.len() as int);
    let st = enc_state(s, s.len() as int);
    let f = lzw_codes(s);
    assert(s.subrange(0, s.len() as int) =~= s);
    if s.len() == 0 {
        assert(st.codes.len() == 0 ==> expand(st.dict, st.codes) =~= seq![]);
        assert(f.len() == 0) by {
            if st.codes.len() > 0 {
                assert(expand(st.dict, st.codes).len() >= 0);
            }
            assert(st == enc_state(s, 0));
        }
        lemma_read_codes(f);
    } else {
        let d = st.dict;
        let cw = code_of(d, st.w);
        assert(0 <= cw < d.len() && d[cw] == st.w);
        assert(f == st.codes.push(cw as u16));
        assert(f.drop_last() =~= st.codes);
        assert forall|j: int| 0 <= j < f.len() implies #[trigger] f[j] < dict_len_after(j) by {
            if j < st.codes.len() {
                assert(f[j] == st.codes[j]);
            }
        }
        assert forall|k: int|
            256 <= k < d.len() implies #[trigger] d[k] == d[f[k - 256] as int].push(
            d[f[k - 255] as int][0],
        ) by {
            assert(d[k] == d[st.codes[k - 256] as int].push(next_first(st, k - 256)));
            assert(f[k - 256] == st.codes[k - 256]);
            if k - 256 + 1 < st.codes.len() {
                assert(f[k - 255] == st.codes[k - 255]);
            }
        }
        assert(final_ok(d, f));
        lemma_dec_prefix(d, f, f.len() as int);
        assert(f.subrange(0, f.len() as int) =~= f);
        assert forall|j: int| 0 <= j < f.len() implies #[trigger] f[j] < 4096 by {
            assert(f[j] < dict_len_after(j));
        }
        lemma_read_codes(f);
    }
}

/// The codes of a compressed stream: there is one for every match, none
/// for an empty input, and the `j`-th code is below `256 + min(j, 3840)`,
/// so below 4096: the dictionary learns one entry per emitted code until it
/// holds exactly 4096, and none after that.
pub proof fn lemma_lzw_code_range(s: Seq<u8>)
    ensures
        read_codes(unpack(lzw_encode(s))) == lzw_codes(s),
        lzw_codes(s).len() == 0 <==> s.len() == 0,
        forall|j: int|
            0 <= j < lzw_codes(s).len() ==> #[trigger] lzw_codes(s)[j] < dict_len_after(j) <= 4096,
{
    lemma_enc_inv(s, s.len() as int);
    let st = enc_state(s, s.len() as int);
    let f = lzw_codes(s);
    assert(s.subrange(0, s.len() as int) =~= s);
    if s.len() == 0 {
        assert(st == enc_state(s, 0));
        assert(f.len() == 0);
    } else {
        let d = st.dict;
        let cw = code_of(d, st.w);
        assert(0 <= cw < d.len() && d[cw] == st.w);
        assert(f == st.codes.push(cw as u16));
        assert forall|j: int| 0 <= j < f.len() implies #[trigger] f[j] < dict_len_after(j) by {
            if j < st.codes.len() {
                assert(f[j] == st.codes[j]);
            }
        }
    }
    assert forall|j: int| 0 <= j < f.len() implies #[trigger] f[j] < 4096 by {
        assert(f[j] < dict_len_after(j));
    }
    lemma_read_codes(f);
}

} // verus!
