//! Huffman coding with a transmitted frequency table.
//!
//! Layout: the input length (32-bit big-endian), the number of distinct
//! bytes (16-bit big-endian), for each distinct byte in ascending order the
//! byte and its frequency (32-bit big-endian), the packed payload's length
//! (32-bit big-endian), and the payload: the codes of the input's bytes,
//! most significant bit first, the last byte zero-padded. An empty input
//! encodes to nothing.
use vstd::prelude::*;

use crate::bits::{lemma_pack_len, lemma_unpack_pack, pack_padded, unpack, zeros, BitWriter};
use crate::bytes::push_range;
use crate::rle::repeat_byte;

verus! {

/// A Huffman tree: a leaf holds a byte; a left branch is bit `0`, a right
/// branch bit `1`.
pub enum HuffTree {
    Leaf(u8),
    Node(Box<HuffTree>, Box<HuffTree>),
}

/// A tree waiting to be merged, with its weight and its tie-break key: the
/// byte of a leaf, `0` for a merged tree.
pub struct HuffItem {
    pub weight: u64,
    pub key: u8,
    pub tree: HuffTree,
}

/// Whether `a` leaves the queue before `b`: lower weight first, then lower
/// key.
pub open spec fn before(a: HuffItem, b: HuffItem) -> bool {
    a.weight < b.weight || (a.weight == b.weight && a.key < b.key)
}

/// The first item that nothing comes before, scanning on from `k` with
/// `best` the earliest such item so far.
pub open spec fn min_index_from(items: Seq<HuffItem>, k: int, best: int) -> int
    decreases items.len() - k,
{
    if k >= items.len() || k < 0 {
        best
    } else if before(items[k], items[best]) {
        min_index_from(items, k + 1, k)
    } else {
        min_index_from(items, k + 1, best)
    }
}

/// The item that leaves the queue next.
pub open spec fn min_index(items: Seq<HuffItem>) -> int {
    min_index_from(items, 1, 0)
}

/// The tree that repeatedly merging the two first items builds; the first
/// becomes the left branch.
pub open spec fn build_from(items: Seq<HuffItem>) -> Option<HuffTree>
    decreases items.len(),
{
    if items.len() == 0 {
        None
    } else if items.len() == 1 {
        Some(items[0].tree)
    } else {
        let i = min_index(items);
        let rest = items.remove(i);
        let j = min_index(rest);
        let rest2 = rest.remove(j);
        if 0 <= i < items.len() && 0 <= j < rest.len() {
            build_from(
                rest2.push(
                    HuffItem {
                        weight: (items[i].weight + rest[j].weight) as u64,
                        key: 0,
                        tree: HuffTree::Node(Box::new(items[i].tree), Box::new(rest[j].tree)),
                    },
                ),
            )
        } else {
            None
        }
    }
}

/// The leaves of the bytes `0..k` that `table` lists, in ascending order.
pub open spec fn items_upto(table: Seq<Option<u32>>, k: int) -> Seq<HuffItem>
    decreases k,
{
    if k <= 0 {
        seq![]
    } else {
        let prev = items_upto(table, k - 1);
        match table[k - 1] {
            Some(f) => prev.push(
                HuffItem { weight: f as u64, key: (k - 1) as u8, tree: HuffTree::Leaf((k - 1) as u8) },
            ),
            None => prev,
        }
    }
}

/// The tree of a frequency table (one optional frequency per byte).
pub open spec fn huff_tree(table: Seq<Option<u32>>) -> Option<HuffTree> {
    build_from(items_upto(table, 256))
}

/// The sum of the items' weights.
pub open spec fn weight_sum(items: Seq<HuffItem>) -> int
    decreases items.len(),
{
    if items.len() == 0 {
        0
    } else {
        weight_sum(items.drop_last()) + items.last().weight
    }
}

proof fn lemma_min_index_from(items: Seq<HuffItem>, k: int, best: int)
    requires
        0 <= best < items.len(),
        0 <= k,
    ensures
        0 <= min_index_from(items, k, best) < items.len(),
    decreases items.len() - k,
{
    if k < items.len() {
        if before(items[k], items[best]) {
            lemma_min_index_from(items, k + 1, k);
        } else {
            lemma_min_index_from(items, k + 1, best);
        }
    }
}

proof fn lemma_weight_sum_remove(items: Seq<HuffItem>, i: int)
    requires
        0 <= i < items.len(),
    ensures
        weight_sum(items.remove(i)) == weight_sum(items) - items[i].weight,
        items[i].weight <= weight_sum(items),
    decreases items.len(),
{
    if i == items.len() - 1 {
        assert(items.remove(i) =~= items.drop_last());
    } else {
        lemma_weight_sum_remove(items.drop_last(), i);
        assert(items.remove(i).drop_last() =~= items.drop_last().remove(i));
        assert(items.remove(i).last() == items.last());
    }
    lemma_weight_sum_nonneg(items.drop_last());
    lemma_weight_sum_nonneg(items.remove(i));
}

proof fn lemma_weight_sum_nonneg(items: Seq<HuffItem>)
    ensures
        weight_sum(items) >= 0,
    decreases items.len(),
{
    if items.len() > 0 {
        lemma_weight_sum_nonneg(items.drop_last());
    }
}

/// The index of the item that leaves the queue next.
fn find_min(items: &Vec<HuffItem>) -> (r: usize)
    requires
        items.len() > 0,
    ensures
        r == min_index(items@),
        r < items.len(),
{
    let mut best: usize = 0;
    let mut k: usize = 1;
    while k < items.len()
        invariant
            1 <= k <= items.len(),
            best < k,
            min_index(items@) == min_index_from(items@, k as int, best as int),
        decreases items.len() - k,
    {
        let a = &items[k];
        let b = &items[best];
        if a.weight < b.weight || (a.weight == b.weight && a.key < b.key) {
            best = k;
        }
        k += 1;
    }
    best
}

/// Builds the tree by repeatedly merging the two items that leave the
/// queue first.
pub fn build_huffman_tree(items: Vec<HuffItem>) -> (r: Option<HuffTree>)
    requires
        weight_sum(items@) <= u64::MAX,
    ensures
        r == build_from(items@),
{
    let mut items = items;
    let ghost goal = build_from(items@);
    while items.len() > 1
        invariant
            build_from(items@) == goal,
            weight_sum(items@) <= u64::MAX,
        decreases items.len(),
    {
        let ghost s0 = items@;
        let i = find_min(&items);
        let a = items.remove(i);
        let ghost s1 = items@;
        proof {
            lemma_weight_sum_remove(s0, i as int);
        }
        let j = find_min(&items);
        let b = items.remove(j);
        proof {
            lemma_weight_sum_remove(s1, j as int);
            lemma_weight_sum_nonneg(items@);
        }
        let merged = HuffItem {
            weight: a.weight + b.weight,
            key: 0,
            tree: HuffTree::Node(Box::new(a.tree), Box::new(b.tree)),
        };
        items.push(merged);
        proof {
            assert(items@.drop_last() =~= s1.remove(j as int));
        }
    }
    if items.len() == 1 {
        let last = items.pop();
        match last {
            Some(item) => Some(item.tree),
            None => None,
        }
    } else {
        None
    }
}

/// The code table after visiting `t`, whose root path is `prefix`: each
/// leaf's byte gets its path (left is `false`), the left branch first.
pub open spec fn codes_after(t: HuffTree, prefix: Seq<bool>, codes: Seq<Seq<bool>>) -> Seq<
    Seq<bool>,
>
    decreases t,
{
    match t {
        HuffTree::Leaf(b) => codes.update(b as int, prefix),
        HuffTree::Node(l, r) => codes_after(
            *r,
            prefix.push(true),
            codes_after(*l, prefix.push(false), codes),
        ),
    }
}

/// Every byte's code in `t`; bytes not in the tree get the empty code.
pub open spec fn code_table(t: HuffTree) -> Seq<Seq<bool>> {
    codes_after(t, seq![], Seq::new(256, |_b: int| Seq::<bool>::empty()))
}

/// The codes of the bytes of `s`, one after another.
pub open spec fn encode_bits(codes: Seq<Seq<bool>>, s: Seq<u8>) -> Seq<bool>
    decreases s.len(),
{
    if s.len() == 0 {
        seq![]
    } else {
        encode_bits(codes, s.drop_last()) + codes[s.last() as int]
    }
}

/// How often `b` occurs in `s`.
pub open spec fn count(s: Seq<u8>, b: int) -> nat
    decreases s.len(),
{
    if s.len() == 0 {
        0
    } else {
        count(s.drop_last(), b) + if s.last() == b {
            1nat
        } else {
            0nat
        }
    }
}

/// The frequency table of `s`: the bytes that occur, with their counts.
pub open spec fn count_table(s: Seq<u8>) -> Seq<Option<u32>> {
    Seq::new(256, |b: int| if count(s, b) > 0 { Some(count(s, b) as u32) } else { None })
}

/// `x` as four big-endian bytes (its low 32 bits).
#[verifier::opaque]
pub open spec fn be32(x: int) -> Seq<u8> {
    seq![
        (x / 256 / 256 / 256 % 256) as u8,
        (x / 256 / 256 % 256) as u8,
        (x / 256 % 256) as u8,
        (x % 256) as u8,
    ]
}

/// `x` as two big-endian bytes.
pub open spec fn be16(x: int) -> Seq<u8> {
    seq![(x / 256 % 256) as u8, (x % 256) as u8]
}

/// The frequency entries of the bytes `0..k` that `table` lists, in order.
pub open spec fn header_entries(table: Seq<Option<u32>>, k: int) -> Seq<u8>
    decreases k,
{
    if k <= 0 {
        seq![]
    } else {
        header_entries(table, k - 1) + match table[k - 1] {
            Some(f) => seq![(k - 1) as u8] + be32(f as int),
            None => seq![],
        }
    }
}

/// The code table used for `table`: that of its tree.
pub open spec fn table_codes(table: Seq<Option<u32>>) -> Seq<Seq<bool>> {
    match huff_tree(table) {
        Some(t) => code_table(t),
        None => Seq::new(256, |_b: int| Seq::<bool>::empty()),
    }
}

/// The compressed form of `s`.
pub open spec fn huffman_encode(s: Seq<u8>) -> Seq<u8> {
    if s.len() == 0 {
        seq![]
    } else {
        let table = count_table(s);
        let packed = pack_padded(encode_bits(table_codes(table), s));
        be32(s.len() as int) + be16(items_upto(table, 256).len() as int) + header_entries(table, 256)
            + be32(packed.len() as int) + packed
    }
}

/// The code tables of executable codes.
pub open spec fn code_views(c: Seq<Vec<bool>>) -> Seq<Seq<bool>> {
    c.map_values(|v: Vec<bool>| v@)
}

/// Gives each leaf of `node` its path, `prefix` leading to `node`.
fn build_codes(node: &HuffTree, prefix: Vec<bool>, codes: &mut Vec<Vec<bool>>)
    requires
        old(codes).len() == 256,
    ensures
        final(codes).len() == 256,
        code_views(final(codes)@) == codes_after(*node, prefix@, code_views(old(codes)@)),
    decreases node,
{
    match node {
        HuffTree::Leaf(b) => {
            let ghost before = code_views(codes@);
            codes.set(*b as usize, prefix);
            assert(code_views(codes@) =~= before.update(*b as int, prefix@));
        },
        HuffTree::Node(l, r) => {
            let mut left_prefix = prefix.clone();
            left_prefix.push(false);
            assert(left_prefix@ =~= prefix@.push(false));
            build_codes(l, left_prefix, codes);
            let mut right_prefix = prefix;
            right_prefix.push(true);
            build_codes(r, right_prefix, codes);
        },
    }
}

proof fn lemma_items_upto(table: Seq<Option<u32>>, k: int)
    requires
        0 <= k,
    ensures
        items_upto(table, k).len() <= k,
        weight_sum(items_upto(table, k)) <= k * 0xffff_ffff,
    decreases k,
{
    if k > 0 {
        lemma_items_upto(table, k - 1);
        let prev = items_upto(table, k - 1);
        match table[k - 1] {
            Some(f) => {
                let s = items_upto(table, k);
                assert(s.drop_last() =~= prev);
            },
            None => {},
        }
    }
}

proof fn lemma_count_bound(s: Seq<u8>, b: int)
    ensures
        count(s, b) <= s.len(),
    decreases s.len(),
{
    if s.len() > 0 {
        lemma_count_bound(s.drop_last(), b);
    }
}

fn push_be32(out: &mut Vec<u8>, x: usize)
    ensures
        final(out)@ == old(out)@ + be32(x as int),
{
    out.push((x / 256 / 256 / 256 % 256) as u8);
    out.push((x / 256 / 256 % 256) as u8);
    out.push((x / 256 % 256) as u8);
    out.push((x % 256) as u8);
    reveal(be32);
    assert(final(out)@ =~= old(out)@ + be32(x as int));
}

/// Compresses `input`: a header with its length and frequency table, then
/// its bytes' codes, packed.
pub fn compress(input: &[u8]) -> (r: Vec<u8>)
    requires
        input@.len() <= u32::MAX,
    ensures
        r@ == huffman_encode(input@),
{
    let ghost s = input@;
    if input.len() == 0 {
        return Vec::new();
    }
    let mut counts: Vec<u64> = Vec::new();
    while counts.len() < 256
        invariant
            counts.len() <= 256,
            forall|b: int| 0 <= b < counts.len() ==> #[trigger] counts@[b] == 0,
        decreases 256 - counts.len(),
    {
        counts.push(0);
    }
    let mut i: usize = 0;
    while i < input.len()
        invariant
            s == input@,
            s.len() <= u32::MAX,
            i <= s.len(),
            counts.len() == 256,
            forall|b: int| 0 <= b < 256 ==> #[trigger] counts@[b] == count(s.subrange(0, i as int), b),
        decreases input.len() - i,
    {
        let x = input[i] as usize;
        proof {
            assert(s.subrange(0, i + 1).drop_last() =~= s.subrange(0, i as int));
            lemma_count_bound(s.subrange(0, i as int), x as int);
        }
        counts.set(x, counts[x] + 1);
        i += 1;
    }
    assert(s.subrange(0, i as int) =~= s);
    let ghost table = count_table(s);
    let mut items: Vec<HuffItem> = Vec::new();
    let mut header: Vec<u8> = Vec::new();
    let mut b: usize = 0;
    while b < 256
        invariant
            b <= 256,
            s.len() <= u32::MAX,
            table == count_table(s),
            counts.len() == 256,
            forall|x: int| 0 <= x < 256 ==> #[trigger] counts@[x] == count(s, x),
            items@ == items_upto(table, b as int),
            header@ == header_entries(table, b as int),
        decreases 256 - b,
    {
        proof {
            lemma_count_bound(s, b as int);
        }
        if counts[b] > 0 {
            items.push(
                HuffItem { weight: counts[b], key: b as u8, tree: HuffTree::Leaf(b as u8) },
            );
            header.push(b as u8);
            push_be32(&mut header, counts[b] as usize);
            assert(header@ =~= header_entries(table, b + 1));
        } else {
            assert(header@ =~= header_entries(table, b + 1));
        }
        b += 1;
    }
    let distinct = items.len();
    proof {
        lemma_items_upto(table, 256);
    }
    let tree = build_huffman_tree(items);
    let mut codes: Vec<Vec<bool>> = Vec::new();
    while codes.len() < 256
        invariant
            codes.len() <= 256,
            forall|k: int| 0 <= k < codes.len() ==> (#[trigger] codes@[k])@ == Seq::<bool>::empty(),
        decreases 256 - codes.len(),
    {
        codes.push(Vec::new());
    }
    assert(code_views(codes@) =~= Seq::new(256, |_b: int| Seq::<bool>::empty()));
    match &tree {
        Some(t) => {
            let root_prefix: Vec<bool> = Vec::new();
            assert(root_prefix@ =~= Seq::<bool>::empty());
            build_codes(t, root_prefix, &mut codes);
        },
        None => {},
    }
    let ghost ct = table_codes(table);
    assert(code_views(codes@) == ct);
    let mut writer = BitWriter::new();
    let mut i: usize = 0;
    assert(encode_bits(ct, s.subrange(0, 0)) =~= seq![]);
    while i < input.len()
        invariant
            s == input@,
            i <= s.len(),
            codes.len() == 256,
            code_views(codes@) == ct,
            writer.wf(),
            writer.bits() == encode_bits(ct, s.subrange(0, i as int)),
        decreases input.len() - i,
    {
        let code = &codes[input[i] as usize];
        let ghost start = writer.bits();
        let mut k: usize = 0;
        while k < code.len()
            invariant
                writer.wf(),
                k <= code.len(),
                writer.bits() == start + code@.subrange(0, k as int),
            decreases code.len() - k,
        {
            writer.write_bit(code[k]);
            k += 1;
            assert(writer.bits() =~= start + code@.subrange(0, k as int));
        }
        proof {
            assert(code@.subrange(0, k as int) =~= code@);
            assert(code@ == ct[s[i as int] as int]);
            assert(s.subrange(0, i + 1).drop_last() =~= s.subrange(0, i as int));
        }
        i += 1;
    }
    assert(s.subrange(0, i as int) =~= s);
    writer.flush();
    let packed = writer.into_bytes();
    let mut out: Vec<u8> = Vec::new();
    push_be32(&mut out, input.len());
    out.push((distinct / 256 % 256) as u8);
    out.push((distinct % 256) as u8);
    push_range(&mut out, header.as_slice(), 0, header.len());
    push_be32(&mut out, packed.len());
    push_range(&mut out, packed.as_slice(), 0, packed.len());
    proof {
        assert(header@.subrange(0, header@.len() as int) =~= header@);
        assert(packed@.subrange(0, packed@.len() as int) =~= packed@);
    }
    assert(out@ =~= huffman_encode(s));
    out
}

/// The big-endian number in `b[i..i + 4]`.
pub open spec fn be32_at(b: Seq<u8>, i: int) -> int {
    ((b[i] * 256 + b[i + 1]) * 256 + b[i + 2]) * 256 + b[i + 3]
}

/// The big-endian number in `b[i..i + 2]`.
pub open spec fn be16_at(b: Seq<u8>, i: int) -> int {
    b[i] * 256 + b[i + 1]
}

/// The frequency table after the first `k` header entries of `b`; a byte
/// listed twice keeps its last frequency.
pub open spec fn table_upto(b: Seq<u8>, k: int) -> Seq<Option<u32>>
    decreases k,
{
    if k <= 0 {
        Seq::new(256, |_x: int| None::<u32>)
    } else {
        table_upto(b, k - 1).update(
            b[6 + 5 * (k - 1)] as int,
            Some(be32_at(b, 7 + 5 * (k - 1)) as u32),
        )
    }
}

/// Walks the tree `root` along `bits` from position `i`, at subtree `cur`,
/// writing a byte and going back to the root at each leaf, until `n` bytes
/// are written or the bits run out.
pub open spec fn dec_walk(
    root: HuffTree,
    cur: HuffTree,
    bits: Seq<bool>,
    i: int,
    out: Seq<u8>,
    n: int,
) -> Seq<u8>
    decreases bits.len() - i,
{
    if i >= bits.len() || i < 0 || out.len() >= n {
        out
    } else {
        let next = match cur {
            HuffTree::Node(l, r) => if bits[i] {
                *r
            } else {
                *l
            },
            HuffTree::Leaf(_) => cur,
        };
        match next {
            HuffTree::Leaf(x) => dec_walk(root, root, bits, i + 1, out.push(x), n),
            HuffTree::Node(_, _) => dec_walk(root, next, bits, i + 1, out, n),
        }
    }
}

/// The decoding of `b`; empty when its header or payload is cut short. A
/// tree of one leaf stands for that byte, repeated as often as the header's
/// length says.
pub open spec fn huffman_decode(b: Seq<u8>) -> Seq<u8> {
    if b.len() < 6 {
        seq![]
    } else {
        let n = be32_at(b, 0);
        let d = be16_at(b, 4);
        if 10 + 5 * d > b.len() {
            seq![]
        } else {
            let dl = be32_at(b, 6 + 5 * d);
            if 10 + 5 * d + dl > b.len() {
                seq![]
            } else {
                let packed = b.subrange(10 + 5 * d, 10 + 5 * d + dl);
                match huff_tree(table_upto(b, d)) {
                    None => seq![],
                    Some(HuffTree::Leaf(x)) => repeat_byte(x, n as nat),
                    Some(t) => dec_walk(t, t, unpack(packed), 0, seq![], n),
                }
            }
        }
    }
}

fn read_be32(b: &[u8], at: usize) -> (r: u32)
    requires
        at + 4 <= b@.len(),
    ensures
        r == be32_at(b@, at as int),
{
    (((b[at] as u32) * 256 + (b[at + 1] as u32)) * 256 + (b[at + 2] as u32)) * 256 + (b[at
        + 3] as u32)
}

/// Decompresses `input`; an empty result when its header or payload is cut
/// short.
pub fn decompress(input: &[u8]) -> (r: Vec<u8>)
    ensures
        r@ == huffman_decode(input@),
{
    let ghost b = input@;
    if input.len() < 6 {
        return Vec::new();
    }
    let n = read_be32(input, 0) as usize;
    let d = (input[4] as usize) * 256 + (input[5] as usize);
    if input.len() < 10 || input.len() - 10 < 5 * d {
        return Vec::new();
    }
    let mut table: Vec<Option<u32>> = Vec::new();
    while table.len() < 256
        invariant
            table.len() <= 256,
            forall|x: int| 0 <= x < table.len() ==> #[trigger] table@[x] is None,
        decreases 256 - table.len(),
    {
        table.push(None);
    }
    assert(table@ =~= table_upto(b, 0));
    let mut k: usize = 0;
    while k < d
        invariant
            b == input@,
            k <= d,
            d <= 65535,
            10 + 5 * d <= input.len(),
            table@ == table_upto(b, k as int),
            table@.len() == 256,
        decreases d - k,
    {
        let x = input[6 + 5 * k] as usize;
        let f = read_be32(input, 7 + 5 * k);
        table.set(x, Some(f));
        k += 1;
    }
    let dl = read_be32(input, 6 + 5 * d) as usize;
    if dl > input.len() - 10 - 5 * d {
        return Vec::new();
    }
    let mut packed: Vec<u8> = Vec::new();
    push_range(&mut packed, input, 10 + 5 * d, 10 + 5 * d + dl);
    assert(packed@ =~= b.subrange(10 + 5 * d, 10 + 5 * d + dl));
    let mut items: Vec<HuffItem> = Vec::new();
    let mut x: usize = 0;
    while x < 256
        invariant
            x <= 256,
            table@.len() == 256,
            items@ == items_upto(table@, x as int),
        decreases 256 - x,
    {
        match table[x] {
            Some(f) => {
                items.push(HuffItem { weight: f as u64, key: x as u8, tree: HuffTree::Leaf(x as u8) });
            },
            None => {},
        }
        x += 1;
    }
    proof {
        lemma_items_upto(table@, 256);
    }
    let tree = build_huffman_tree(items);
    let mut out: Vec<u8> = Vec::new();
    match &tree {
        None => {},
        Some(HuffTree::Leaf(v)) => {
            let mut c: usize = 0;
            while c < n
                invariant
                    c <= n,
                    out@ == repeat_byte(*v, c as nat),
                decreases n - c,
            {
                out.push(*v);
                c += 1;
                assert(out@ =~= repeat_byte(*v, c as nat));
            }
        },
        Some(root) => {
            let ghost bits = unpack(packed@);
            let mut cur: &HuffTree = root;
            let mut j: usize = 0;
            let ghost mut i: int = 0;
            while j < packed.len() && out.len() < n
                invariant
                    bits == unpack(packed@),
                    j <= packed.len(),
                    0 <= i <= 8 * j,
                    out.len() < n ==> i == 8 * j,
                    dec_walk(*root, *root, bits, 0, seq![], n as int) == dec_walk(
                        *root,
                        *cur,
                        bits,
                        i,
                        out@,
                        n as int,
                    ),
                decreases packed.len() - j,
            {
                let byte = packed[j];
                let mut k: u8 = 0;
                while k < 8 && out.len() < n
                    invariant
                        bits == unpack(packed@),
                        j < packed.len(),
                        byte == packed@[j as int],
                        k <= 8,
                        i == 8 * j + k,
                        dec_walk(*root, *root, bits, 0, seq![], n as int) == dec_walk(
                            *root,
                            *cur,
                            bits,
                            i,
                            out@,
                            n as int,
                        ),
                    decreases 8 - k,
                {
                    let bit = ((byte as u32) >> ((7 - k) as u32)) & 1 == 1;
                    assert(i / 8 == j as int);
                    assert(i % 8 == k as int);
                    assert(i < bits.len());
                    assert(bits[i] == bit);
                    let next: &HuffTree = match cur {
                        HuffTree::Node(l, r) => if bit {
                            &**r
                        } else {
                            &**l
                        },
                        HuffTree::Leaf(_) => cur,
                    };
                    match next {
                        HuffTree::Leaf(v) => {
                            out.push(*v);
                            cur = root;
                        },
                        HuffTree::Node(_, _) => {
                            cur = next;
                        },
                    }
                    k += 1;
                    proof {
                        i = i + 1;
                    }
                }
                j += 1;
            }
        },
    }
    out
}

proof fn lemma_min_index_from_order(items: Seq<HuffItem>, k: int, best: int)
    requires
        0 <= best < k <= items.len(),
        forall|x: int| 0 <= x < k ==> !before(#[trigger] items[x], items[best]),
        forall|x: int| 0 <= x < best ==> before(items[best], #[trigger] items[x]),
    ensures
        ({
            let m = min_index_from(items, k, best);
            &&& 0 <= m < items.len()
            &&& forall|x: int| 0 <= x < items.len() ==> !before(#[trigger] items[x], items[m])
            &&& forall|x: int| 0 <= x < m ==> before(items[m], #[trigger] items[x])
        }),
    decreases items.len() - k,
{
    if k < items.len() {
        if before(items[k], items[best]) {
            assert forall|x: int| 0 <= x < k + 1 implies !before(#[trigger] items[x], items[k]) by {
                if x < k {
                    assert(!before(items[x], items[best]));
                }
            }
            assert forall|x: int| 0 <= x < k implies before(items[k], #[trigger] items[x]) by {
                assert(!before(items[x], items[best]));
            }
            lemma_min_index_from_order(items, k + 1, k);
        } else {
            lemma_min_index_from_order(items, k + 1, best);
        }
    }
}

/// The tie-break rule: the item that leaves the queue next comes after no
/// item (lowest weight, then lowest key) and strictly before every item
/// ahead of it, so that among equals the earliest leaves first.
pub proof fn lemma_min_index_order(items: Seq<HuffItem>)
    requires
        items.len() > 0,
    ensures
        ({
            let m = min_index(items);
            &&& 0 <= m < items.len()
            &&& forall|x: int| 0 <= x < items.len() ==> !before(#[trigger] items[x], items[m])
            &&& forall|x: int| 0 <= x < m ==> before(items[m], #[trigger] items[x])
        }),
{
    assert forall|x: int| 0 <= x < 1 implies !before(#[trigger] items[x], items[0]) by {
        assert(x == 0);
    }
    lemma_min_index_from_order(items, 1, 0);
}

/// The codes depend on the frequency table alone, so inputs with the same
/// byte counts get the same codes, and compressing an input again gives the
/// same bytes.
pub proof fn lemma_huffman_deterministic(a: Seq<u8>, b: Seq<u8>)
    requires
        count_table(a) == count_table(b),
    ensures
        table_codes(count_table(a)) == table_codes(count_table(b)),
        a == b ==> huffman_encode(a) == huffman_encode(b),
{
}

/// The bytes at the leaves of `t`.
pub open spec fn leaves(t: HuffTree) -> Set<u8>
    decreases t,
{
    match t {
        HuffTree::Leaf(b) => set![b],
        HuffTree::Node(l, r) => leaves(*l).union(leaves(*r)),
    }
}

/// Whether no byte is at two leaves of `t`.
pub open spec fn unique_leaves(t: HuffTree) -> bool
    decreases t,
{
    match t {
        HuffTree::Leaf(_) => true,
        HuffTree::Node(l, r) => unique_leaves(*l) && unique_leaves(*r) && leaves(*l).disjoint(
            leaves(*r),
        ),
    }
}

/// Whether the items' trees have distinct leaves, within and across items.
pub open spec fn items_ok(items: Seq<HuffItem>) -> bool {
    &&& forall|i: int| 0 <= i < items.len() ==> unique_leaves(#[trigger] items[i].tree)
    &&& forall|i: int, j: int|
        0 <= i < items.len() && 0 <= j < items.len() && i != j ==> leaves(
            #[trigger] items[i].tree,
        ).disjoint(leaves(#[trigger] items[j].tree))
}

/// The bytes at the leaves of all the items.
pub open spec fn items_leaves(items: Seq<HuffItem>) -> Set<u8> {
    Set::new(|b: u8| exists|i: int| 0 <= i < items.len() && leaves(items[i].tree).contains(b))
}

#[verifier::rlimit(50)]
proof fn lemma_merge_ok(items: Seq<HuffItem>, i: int, j: int)
    requires
        items_ok(items),
        0 <= i < items.len(),
        0 <= j < items.len() - 1,
    ensures
        ({
            let rest = items.remove(i);
            let merged = HuffItem {
                weight: (items[i].weight + rest[j].weight) as u64,
                key: 0,
                tree: HuffTree::Node(Box::new(items[i].tree), Box::new(rest[j].tree)),
            };
            let next = rest.remove(j).push(merged);
            &&& items_ok(next)
            &&& items_leaves(next) == items_leaves(items)
        }),
{
    let rest = items.remove(i);
    let jj = if j < i {
        j
    } else {
        j + 1
    };
    assert(rest[j] == items[jj]);
    let a = items[i].tree;
    let b = rest[j].tree;
    let merged = HuffItem {
        weight: (items[i].weight + rest[j].weight) as u64,
        key: 0,
        tree: HuffTree::Node(Box::new(a), Box::new(b)),
    };
    let rest2 = rest.remove(j);
    let next = rest2.push(merged);
    // Where each item of `next` came from.
    let orig = |k: int|
        if k < j {
            if k < i {
                k
            } else {
                k + 1
            }
        } else {
            if k + 1 < i {
                k + 1
            } else {
                k + 2
            }
        };
    assert forall|k: int| 0 <= k < rest2.len() implies #[trigger] rest2[k] == items[orig(k)] && orig(k)
        != i && orig(k) != jj && 0 <= orig(k) < items.len() by {
        assert(rest2[k] == rest[if k < j {
            k
        } else {
            k + 1
        }]);
    }
    assert(leaves(merged.tree) == leaves(a).union(leaves(b)));
    assert(unique_leaves(merged.tree)) by {
        assert(leaves(a).disjoint(leaves(b)));
    }
    assert forall|k: int| 0 <= k < next.len() implies unique_leaves(#[trigger] next[k].tree) by {
        if k < rest2.len() {
            assert(next[k] == rest2[k]);
        }
    }
    assert forall|k: int, m: int|
        0 <= k < next.len() && 0 <= m < next.len() && k != m implies leaves(
        #[trigger] next[k].tree,
    ).disjoint(leaves(#[trigger] next[m].tree)) by {
        if k < rest2.len() && m < rest2.len() {
            assert(next[k] == rest2[k] && next[m] == rest2[m]);
            assert(leaves(items[orig(k)].tree).disjoint(leaves(items[orig(m)].tree)));
        } else if k < rest2.len() {
            assert(next[k] == rest2[k]);
            assert(leaves(items[orig(k)].tree).disjoint(leaves(items[i].tree)));
            assert(leaves(items[orig(k)].tree).disjoint(leaves(items[jj].tree)));
        } else {
            assert(next[m] == rest2[m]);
            assert(leaves(items[orig(m)].tree).disjoint(leaves(items[i].tree)));
            assert(leaves(items[orig(m)].tree).disjoint(leaves(items[jj].tree)));
        }
    }
    assert forall|x: u8| items_leaves(next).contains(x) <==> items_leaves(items).contains(x) by {
        if items_leaves(next).contains(x) {
            let k = choose|k: int| 0 <= k < next.len() && leaves(next[k].tree).contains(x);
            if k < rest2.len() {
                assert(next[k] == rest2[k]);
                assert(leaves(items[orig(k)].tree).contains(x));
            } else {
                if leaves(a).contains(x) {
                    assert(leaves(items[i].tree).contains(x));
                } else {
                    assert(leaves(items[jj].tree).contains(x));
                }
            }
        }
        if items_leaves(items).contains(x) {
            let k = choose|k: int| 0 <= k < items.len() && leaves(items[k].tree).contains(x);
            if k == i || k == jj {
                assert(leaves(next[rest2.len() as int].tree).contains(x));
            } else {
                let kk = if k < i && k < jj {
                    k
                } else if k > i && k > jj {
                    k - 2
                } else {
                    k - 1
                };
                assert(orig(kk) == k);
                assert(next[kk] == rest2[kk]);
                assert(leaves(next[kk].tree).contains(x));
            }
        }
    }
    assert(items_leaves(next) =~= items_leaves(items));
}

/// The tree that merging builds has distinct leaves, those of the items; of
/// two items or more it builds an inner node.
proof fn lemma_build_from(items: Seq<HuffItem>)
    requires
        items_ok(items),
        items.len() >= 1,
    ensures
        build_from(items) matches Some(t) && unique_leaves(t) && leaves(t) == items_leaves(items),
        items.len() >= 2 ==> build_from(items) matches Some(HuffTree::Node(_, _)),
    decreases items.len(),
{
    if items.len() == 1 {
        assert(items_leaves(items) =~= leaves(items[0].tree)) by {
            assert forall|x: u8| items_leaves(items).contains(x) implies leaves(
                items[0].tree,
            ).contains(x) by {
                let k = choose|k: int| 0 <= k < items.len() && leaves(items[k].tree).contains(x);
                assert(k == 0);
            }
        }
    } else {
        let i = min_index(items);
        lemma_min_index_from(items, 1, 0);
        let rest = items.remove(i);
        let j = min_index(rest);
        lemma_min_index_from(rest, 1, 0);
        lemma_merge_ok(items, i, j);
        let merged = HuffItem {
            weight: (items[i].weight + rest[j].weight) as u64,
            key: 0,
            tree: HuffTree::Node(Box::new(items[i].tree), Box::new(rest[j].tree)),
        };
        let next = rest.remove(j).push(merged);
        lemma_build_from(next);
        if next.len() == 1 {
            assert(build_from(next) == Some(next[0].tree));
        }
    }
}

/// `table` with the bytes from `k` on left out.
pub open spec fn table_below(table: Seq<Option<u32>>, k: int) -> Seq<Option<u32>> {
    Seq::new(256, |x: int| if x < k {
        table[x]
    } else {
        None
    })
}

#[verifier::rlimit(50)]
proof fn lemma_items_upto_ok(table: Seq<Option<u32>>, k: int)
    requires
        table.len() == 256,
        0 <= k <= 256,
    ensures
        items_ok(items_upto(table, k)),
        forall|i: int|
            0 <= i < items_upto(table, k).len() ==> (#[trigger] items_upto(table, k)[i]).key < k
                && items_upto(table, k)[i].tree == HuffTree::Leaf(items_upto(table, k)[i].key),
        forall|b: u8| #[trigger]
            items_leaves(items_upto(table, k)).contains(b) <==> (b < k && table[b as int] is Some),
    decreases k,
{
    if k > 0 {
        lemma_items_upto_ok(table, k - 1);
        let prev = items_upto(table, k - 1);
        let cur = items_upto(table, k);
        match table[k - 1] {
            Some(f) => {
                let last = HuffItem {
                    weight: f as u64,
                    key: (k - 1) as u8,
                    tree: HuffTree::Leaf((k - 1) as u8),
                };
                assert(cur == prev.push(last));
                assert forall|i: int| 0 <= i < cur.len() implies unique_leaves(
                    #[trigger] cur[i].tree,
                ) by {
                    if i < prev.len() {
                        assert(cur[i] == prev[i]);
                    }
                }
                assert forall|i: int, j: int|
                    0 <= i < cur.len() && 0 <= j < cur.len() && i != j implies leaves(
                    #[trigger] cur[i].tree,
                ).disjoint(leaves(#[trigger] cur[j].tree)) by {
                    if i < prev.len() && j < prev.len() {
                        assert(cur[i] == prev[i] && cur[j] == prev[j]);
                    } else if i < prev.len() {
                        assert(cur[i] == prev[i]);
                        assert(leaves(cur[i].tree) == set![prev[i].key]);
                        assert(leaves(cur[j].tree) == set![(k - 1) as u8]);
                    } else {
                        assert(cur[j] == prev[j]);
                        assert(leaves(cur[j].tree) == set![prev[j].key]);
                        assert(leaves(cur[i].tree) == set![(k - 1) as u8]);
                    }
                }
                assert forall|i: int| 0 <= i < cur.len() implies (#[trigger] cur[i]).key < k
                    && cur[i].tree == HuffTree::Leaf(cur[i].key) by {
                    if i < prev.len() {
                        assert(cur[i] == prev[i]);
                    }
                }
                assert forall|b: u8| #[trigger]
                    items_leaves(cur).contains(b) <==> (b < k && table[b as int] is Some) by {
                    if items_leaves(cur).contains(b) {
                        let i = choose|i: int| 0 <= i < cur.len() && leaves(cur[i].tree).contains(b);
                        if i < prev.len() {
                            assert(cur[i] == prev[i]);
                            assert(items_leaves(prev).contains(b));
                        } else {
                            assert(leaves(cur[i].tree) == set![(k - 1) as u8]);
                        }
                    }
                    if b < k && table[b as int] is Some {
                        if b < k - 1 {
                            assert(items_leaves(prev).contains(b));
                            let i = choose|i: int|
                                0 <= i < prev.len() && leaves(prev[i].tree).contains(b);
                            assert(cur[i] == prev[i]);
                        } else {
                            assert(leaves(cur[prev.len() as int].tree).contains(b));
                        }
                    }
                }
            },
            None => {
                assert forall|b: u8| #[trigger]
                    items_leaves(cur).contains(b) <==> (b < k && table[b as int] is Some) by {
                    assert(items_leaves(prev).contains(b) <==> (b < k - 1 && table[b as int] is Some));
                }
            },
        }
    } else {
        assert forall|b: u8| #[trigger]
            items_leaves(items_upto(table, k)).contains(b) <==> (b < k && table[b as int] is Some) by {
        }
    }
}

/// The path from the root of `t` to the leaf of `b`.
pub open spec fn path(t: HuffTree, b: u8) -> Seq<bool>
    decreases t,
{
    match t {
        HuffTree::Leaf(_) => seq![],
        HuffTree::Node(l, r) => if leaves(*l).contains(b) {
            seq![false] + path(*l, b)
        } else {
            seq![true] + path(*r, b)
        },
    }
}

proof fn lemma_codes_after(t: HuffTree, prefix: Seq<bool>, codes: Seq<Seq<bool>>, x: u8)
    requires
        unique_leaves(t),
        codes.len() == 256,
    ensures
        codes_after(t, prefix, codes).len() == 256,
        codes_after(t, prefix, codes)[x as int] == if leaves(t).contains(x) {
            prefix + path(t, x)
        } else {
            codes[x as int]
        },
    decreases t,
{
    match t {
        HuffTree::Leaf(b) => {
            assert(prefix + seq![] =~= prefix);
        },
        HuffTree::Node(l, r) => {
            let mid = codes_after(*l, prefix.push(false), codes);
            lemma_codes_after(*l, prefix.push(false), codes, x);
            lemma_codes_after(*r, prefix.push(true), mid, x);
            assert(prefix.push(false) + path(*l, x) =~= prefix + (seq![false] + path(*l, x)));
            assert(prefix.push(true) + path(*r, x) =~= prefix + (seq![true] + path(*r, x)));
            if leaves(*r).contains(x) {
                assert(!leaves(*l).contains(x));
            }
        },
    }
}

proof fn lemma_walk_code(
    root: HuffTree,
    t: HuffTree,
    bits: Seq<bool>,
    i: int,
    out: Seq<u8>,
    n: int,
    b: u8,
)
    requires
        t is Node,
        unique_leaves(t),
        leaves(t).contains(b),
        0 <= i,
        i + path(t, b).len() <= bits.len(),
        bits.subrange(i, i + path(t, b).len()) == path(t, b),
        out.len() < n,
    ensures
        path(t, b).len() >= 1,
        dec_walk(root, t, bits, i, out, n) == dec_walk(
            root,
            root,
            bits,
            i + path(t, b).len(),
            out.push(b),
            n,
        ),
    decreases t,
{
    match t {
        HuffTree::Node(l, r) => {
            let p = path(t, b);
            assert(bits[i] == p[0]);
            let next = if leaves(*l).contains(b) {
                *l
            } else {
                *r
            };
            let rest = path(next, b);
            assert(p == seq![p[0]] + rest);
            match next {
                HuffTree::Leaf(x) => {
                    assert(leaves(next) == set![x]);
                    assert(x == b);
                },
                HuffTree::Node(_, _) => {
                    assert(bits.subrange(i + 1, i + 1 + rest.len()) =~= rest) by {
                        assert forall|k: int| 0 <= k < rest.len() implies bits.subrange(
                            i + 1,
                            i + 1 + rest.len(),
                        )[k] == rest[k] by {
                            assert(bits.subrange(i, i + p.len())[k + 1] == p[k + 1]);
                        }
                    }
                    lemma_walk_code(root, next, bits, i + 1, out, n, b);
                },
            }
        },
        HuffTree::Leaf(_) => {},
    }
}

proof fn lemma_encode_prefix(codes: Seq<Seq<bool>>, s: Seq<u8>, k: int, m: int)
    requires
        0 <= k <= m <= s.len(),
    ensures
        encode_bits(codes, s.subrange(0, k)).len() <= encode_bits(codes, s.subrange(0, m)).len(),
        encode_bits(codes, s.subrange(0, m)).subrange(
            0,
            encode_bits(codes, s.subrange(0, k)).len() as int,
        ) == encode_bits(codes, s.subrange(0, k)),
    decreases m - k,
{
    let ek = encode_bits(codes, s.subrange(0, k));
    if k == m {
        assert(ek.subrange(0, ek.len() as int) =~= ek);
    } else {
        lemma_encode_prefix(codes, s, k, m - 1);
        let em1 = encode_bits(codes, s.subrange(0, m - 1));
        let em = encode_bits(codes, s.subrange(0, m));
        assert(s.subrange(0, m).drop_last() =~= s.subrange(0, m - 1));
        assert(em == em1 + codes[s[m - 1] as int]);
        assert(em.subrange(0, ek.len() as int) =~= em1.subrange(0, ek.len() as int));
    }
}

#[verifier::rlimit(50)]
proof fn lemma_walk_all(root: HuffTree, s: Seq<u8>, bits: Seq<bool>, k: int)
    requires
        root is Node,
        unique_leaves(root),
        forall|i: int| 0 <= i < s.len() ==> leaves(root).contains(#[trigger] s[i]),
        encode_bits(code_table(root), s).len() <= bits.len(),
        bits.subrange(0, encode_bits(code_table(root), s).len() as int) == encode_bits(
            code_table(root),
            s,
        ),
        0 <= k <= s.len(),
    ensures
        dec_walk(
            root,
            root,
            bits,
            encode_bits(code_table(root), s.subrange(0, k)).len() as int,
            s.subrange(0, k),
            s.len() as int,
        ) == s,
    decreases s.len() - k,
{
    let ct = code_table(root);
    let n = s.len() as int;
    let ek = encode_bits(ct, s.subrange(0, k));
    if k == n {
        assert(s.subrange(0, k) =~= s);
    } else {
        let b = s[k];
        lemma_codes_after(root, seq![], Seq::new(256, |_b: int| Seq::<bool>::empty()), b);
        assert(ct[b as int] =~= path(root, b));
        let ek1 = encode_bits(ct, s.subrange(0, k + 1));
        assert(s.subrange(0, k + 1).drop_last() =~= s.subrange(0, k));
        assert(ek1 == ek + path(root, b));
        lemma_encode_prefix(ct, s, k + 1, n);
        assert(s.subrange(0, n) =~= s);
        let en = encode_bits(ct, s);
        assert(bits.subrange(ek.len() as int, ek1.len() as int) =~= path(root, b)) by {
            assert forall|j: int| 0 <= j < path(root, b).len() implies bits.subrange(
                ek.len() as int,
                ek1.len() as int,
            )[j] == path(root, b)[j] by {
                assert(bits.subrange(0, en.len() as int)[ek.len() + j] == en[ek.len() + j]);
                assert(en.subrange(0, ek1.len() as int)[ek.len() + j] == ek1[ek.len() + j]);
            }
        }
        lemma_walk_code(root, root, bits, ek.len() as int, s.subrange(0, k), n, b);
        assert(s.subrange(0, k).push(b) =~= s.subrange(0, k + 1));
        lemma_walk_all(root, s, bits, k + 1);
    }
}

proof fn lemma_be32(x: int)
    requires
        0 <= x <= u32::MAX,
    ensures
        be32(x).len() == 4,
        be32_at(be32(x), 0) == x,
{
    reveal(be32);
    let q1 = x / 256;
    let q2 = q1 / 256;
    let q3 = q2 / 256;
    assert(x == 256 * q1 + x % 256);
    assert(q1 == 256 * q2 + q1 % 256);
    assert(q2 == 256 * q3 + q2 % 256);
    assert(q3 < 256);
}

#[verifier::rlimit(50)]
proof fn lemma_header(table: Seq<Option<u32>>, k: int, buf: Seq<u8>)
    requires
        table.len() == 256,
        0 <= k <= 256,
        6 + header_entries(table, k).len() <= buf.len(),
        buf.subrange(6, 6 + header_entries(table, k).len() as int) == header_entries(table, k),
    ensures
        header_entries(table, k).len() == 5 * items_upto(table, k).len(),
        table_upto(buf, items_upto(table, k).len() as int) == table_below(table, k),
    decreases k,
{
    let h = header_entries(table, k);
    if k == 0 {
        assert(table_upto(buf, 0) =~= table_below(table, 0));
    } else {
        let h0 = header_entries(table, k - 1);
        let m0 = items_upto(table, k - 1).len() as int;
        match table[k - 1] {
            Some(f) => {
                lemma_be32(f as int);
                assert(h == h0 + (seq![(k - 1) as u8] + be32(f as int)));
                assert(buf.subrange(6, 6 + h0.len() as int) =~= h0) by {
                    assert forall|j: int| 0 <= j < h0.len() implies buf.subrange(
                        6,
                        6 + h0.len() as int,
                    )[j] == h0[j] by {
                        assert(buf.subrange(6, 6 + h.len() as int)[j] == h[j]);
                    }
                }
                lemma_header(table, k - 1, buf);
                let at = 6 + 5 * m0;
                assert(buf[at] == h[5 * m0]);
                assert(buf.subrange(at + 1, at + 5) =~= be32(f as int)) by {
                    assert forall|j: int| 0 <= j < 4 implies buf.subrange(at + 1, at + 5)[j] == be32(
                        f as int,
                    )[j] by {
                        assert(buf.subrange(6, 6 + h.len() as int)[5 * m0 + 1 + j] == h[5 * m0 + 1
                            + j]);
                    }
                }
                assert(be32_at(buf, at + 1) == be32_at(buf.subrange(at + 1, at + 5), 0));
                assert(items_upto(table, k).len() == m0 + 1);
                assert(table_upto(buf, m0 + 1) =~= table_below(table, k));
            },
            None => {
                lemma_header(table, k - 1, buf);
                assert(table_below(table, k - 1) =~= table_below(table, k));
            },
        }
    }
}

proof fn lemma_count_pos(s: Seq<u8>, i: int)
    requires
        0 <= i < s.len(),
    ensures
        count(s, s[i] as int) > 0,
    decreases s.len(),
{
    if i < s.len() - 1 {
        assert(s.drop_last()[i] == s[i]);
        lemma_count_pos(s.drop_last(), i);
    }
}

/// Where the fields of a compressed input stand, and what they hold.
#[verifier::rlimit(50)]
proof fn lemma_encoded_fields(s: Seq<u8>)
    requires
        0 < s.len() <= u32::MAX,
        pack_padded(encode_bits(table_codes(count_table(s)), s)).len() <= u32::MAX,
    ensures
        ({
            let e = huffman_encode(s);
            let table = count_table(s);
            let m = items_upto(table, 256).len() as int;
            let packed = pack_padded(encode_bits(table_codes(table), s));
            let at = 6 + 5 * m;
            &&& 1 <= m <= 256
            &&& e.len() == at + 4 + packed.len()
            &&& be32_at(e, 0) == s.len()
            &&& be16_at(e, 4) == m
            &&& table_upto(e, m) == table
            &&& be32_at(e, at) == packed.len()
            &&& e.subrange(at + 4, at + 4 + packed.len() as int) == packed
        }),
{
    let n = s.len() as int;
    let table = count_table(s);
    let m = items_upto(table, 256).len() as int;
    lemma_items_upto(table, 256);
    lemma_count_pos(s, 0);
    lemma_count_bound(s, s[0] as int);
    lemma_items_upto_ok(table, 256);
    assert(items_leaves(items_upto(table, 256)).contains(s[0]));
    let packed = pack_padded(encode_bits(table_codes(table), s));
    let plen = packed.len() as int;
    let h = header_entries(table, 256);
    lemma_be32(n);
    lemma_be32(plen);
    let e = huffman_encode(s);
    let len_field = be32(n);
    let count_field = be16(m);
    assert(e == len_field + count_field + h + be32(plen) + packed);
    assert(e.subrange(0, 4) =~= len_field);
    assert(be32_at(e, 0) == be32_at(len_field, 0));
    assert(be16_at(e, 4) == m);
    assert(e.subrange(6, 6 + h.len() as int) =~= h);
    lemma_header(table, 256, e);
    assert(table_below(table, 256) =~= table);
    let at = 6 + 5 * m;
    assert(e.subrange(at, at + 4) =~= be32(plen));
    assert(be32_at(e, at) == be32_at(e.subrange(at, at + 4), 0));
    assert(e.subrange(at + 4, at + 4 + plen) =~= packed);
}

#[verifier::rlimit(50)]
proof fn lemma_round_trip_when_payload_fits(s: Seq<u8>)
    requires
        s.len() <= u32::MAX,
        pack_padded(encode_bits(table_codes(count_table(s)), s)).len() <= u32::MAX,
    ensures
        huffman_decode(huffman_encode(s)) == s,
{
    if s.len() > 0 {
        let n = s.len() as int;
        let table = count_table(s);
        let items = items_upto(table, 256);
        lemma_encoded_fields(s);
        lemma_items_upto_ok(table, 256);
        assert forall|i: int| 0 <= i < n implies items_leaves(items).contains(#[trigger] s[i]) by {
            lemma_count_pos(s, i);
            lemma_count_bound(s, s[i] as int);
            assert(table[s[i] as int] is Some);
        }
        lemma_build_from(items);
        let t = huff_tree(table)->0;
        let packed = pack_padded(encode_bits(table_codes(table), s));
        match t {
            HuffTree::Leaf(x) => {
                assert(leaves(t) == set![x]);
                assert(repeat_byte(x, n as nat) =~= s) by {
                    assert forall|i: int| 0 <= i < n implies s[i] == x by {
                        assert(leaves(t).contains(s[i]));
                    }
                }
            },
            HuffTree::Node(_, _) => {
                let ct = code_table(t);
                let bits = encode_bits(ct, s);
                let pad = ((8 - bits.len() % 8) % 8) as nat;
                lemma_unpack_pack(bits + zeros(pad));
                assert(unpack(packed) == bits + zeros(pad));
                assert((bits + zeros(pad)).subrange(0, bits.len() as int) =~= bits);
                assert(s.subrange(0, 0) =~= seq![]);
                assert(encode_bits(ct, s.subrange(0, 0)) =~= seq![]);
                lemma_walk_all(t, s, bits + zeros(pad), 0);
            },
        }
    }
}

/// The number of leaves of `t`.
pub open spec fn size(t: HuffTree) -> nat
    decreases t,
{
    match t {
        HuffTree::Leaf(_) => 1,
        HuffTree::Node(l, r) => size(*l) + size(*r),
    }
}

/// The number of leaves of all the items.
pub open spec fn size_sum(items: Seq<HuffItem>) -> int
    decreases items.len(),
{
    if items.len() == 0 {
        0
    } else {
        size_sum(items.drop_last()) + size(items.last().tree)
    }
}

proof fn lemma_path_len(t: HuffTree, b: u8)
    ensures
        path(t, b).len() + 1 <= size(t),
    decreases t,
{
    match t {
        HuffTree::Leaf(_) => {},
        HuffTree::Node(l, r) => {
            lemma_path_len(*l, b);
            lemma_path_len(*r, b);
        },
    }
}

proof fn lemma_size_pos(t: HuffTree)
    ensures
        size(t) >= 1,
    decreases t,
{
    if let HuffTree::Node(l, r) = t {
        lemma_size_pos(*l);
    }
}

proof fn lemma_size_sum_remove(items: Seq<HuffItem>, i: int)
    requires
        0 <= i < items.len(),
    ensures
        size_sum(items.remove(i)) == size_sum(items) - size(items[i].tree),
    decreases items.len(),
{
    if i == items.len() - 1 {
        assert(items.remove(i) =~= items.drop_last());
    } else {
        lemma_size_sum_remove(items.drop_last(), i);
        assert(items.remove(i).drop_last() =~= items.drop_last().remove(i));
        assert(items.remove(i).last() == items.last());
    }
}

proof fn lemma_build_size(items: Seq<HuffItem>)
    requires
        items.len() >= 1,
    ensures
        build_from(items) matches Some(t) && size(t) == size_sum(items),
    decreases items.len(),
{
    if items.len() == 1 {
        assert(items.drop_last() =~= seq![]);
        assert(size_sum(items.drop_last()) == 0);
        assert(items.last() == items[0]);
    } else {
        let i = min_index(items);
        lemma_min_index_from(items, 1, 0);
        let rest = items.remove(i);
        let j = min_index(rest);
        lemma_min_index_from(rest, 1, 0);
        assert(rest[j] == items.remove(i)[j]);
        lemma_size_sum_remove(items, i);
        lemma_size_sum_remove(rest, j);
        let merged = HuffItem {
            weight: (items[i].weight + rest[j].weight) as u64,
            key: 0,
            tree: HuffTree::Node(Box::new(items[i].tree), Box::new(rest[j].tree)),
        };
        let next = rest.remove(j).push(merged);
        assert(next.drop_last() =~= rest.remove(j));
        assert(size(merged.tree) == size(items[i].tree) + size(rest[j].tree));
        assert(size_sum(next) == size_sum(rest.remove(j)) + size(merged.tree));
        lemma_build_size(next);
        assert(build_from(items) == build_from(next));
    }
}

proof fn lemma_items_upto_size(table: Seq<Option<u32>>, k: int)
    requires
        0 <= k,
    ensures
        size_sum(items_upto(table, k)) == items_upto(table, k).len(),
    decreases k,
{
    if k > 0 {
        lemma_items_upto_size(table, k - 1);
        match table[k - 1] {
            Some(f) => {
                assert(items_upto(table, k).drop_last() =~= items_upto(table, k - 1));
            },
            None => {},
        }
    }
}

proof fn lemma_encode_len(codes: Seq<Seq<bool>>, s: Seq<u8>)
    requires
        codes.len() == 256,
        forall|b: int| 0 <= b < 256 ==> (#[trigger] codes[b]).len() <= 255,
    ensures
        encode_bits(codes, s).len() <= 255 * s.len(),
    decreases s.len(),
{
    if s.len() > 0 {
        lemma_encode_len(codes, s.drop_last());
        assert(codes[s.last() as int].len() <= 255);
    }
}

/// No byte's code is longer than 255 bits, so the packed payload of `s` is
/// at most 32 bytes per input byte.
proof fn lemma_payload_len(s: Seq<u8>)
    ensures
        pack_padded(encode_bits(table_codes(count_table(s)), s)).len() <= 32 * s.len(),
{
    let table = count_table(s);
    let items = items_upto(table, 256);
    let empty = Seq::new(256, |_b: int| Seq::<bool>::empty());
    let ct = table_codes(table);
    lemma_items_upto(table, 256);
    if items.len() >= 1 {
        lemma_items_upto_ok(table, 256);
        lemma_build_from(items);
        lemma_build_size(items);
        lemma_items_upto_size(table, 256);
        let t = huff_tree(table)->0;
        assert forall|b: int| 0 <= b < 256 implies (#[trigger] ct[b]).len() <= 255 by {
            lemma_codes_after(t, seq![], empty, b as u8);
            lemma_path_len(t, b as u8);
            assert(seq![] + path(t, b as u8) =~= path(t, b as u8));
        }
        lemma_codes_after(t, seq![], empty, 0);
    } else {
        assert forall|b: int| 0 <= b < 256 implies (#[trigger] ct[b]).len() <= 255 by {}
    }
    lemma_encode_len(ct, s);
    let bits = encode_bits(ct, s);
    let pad = ((8 - bits.len() % 8) % 8) as nat;
    lemma_pack_len(bits + zeros(pad));
}

/// Decompressing what compression made of a byte sequence gives it back,
/// for inputs of up to `u32::MAX / 32` bytes, whose packed payload always
/// fits its 32-bit length field.
pub proof fn lemma_huffman_round_trip(s: Seq<u8>)
    requires
        s.len() <= u32::MAX / 32,
    ensures
        huffman_decode(huffman_encode(s)) == s,
{
    lemma_payload_len(s);
    lemma_round_trip_when_payload_fits(s);
}

} // verus!
