//! Bit streams over bytes, most significant bit first.
use vstd::prelude::*;

verus! {

/// `2` to the power `n`.
pub open spec fn pow2(n: nat) -> nat
    decreases n,
{
    if n == 0 {
        1
    } else {
        2 * pow2((n - 1) as nat)
    }
}

/// The number whose binary digits, most significant first, are `b`.
pub open spec fn bits_value(b: Seq<bool>) -> nat
    decreases b.len(),
{
    if b.len() == 0 {
        0
    } else {
        2 * bits_value(b.drop_last()) + if b.last() {
            1nat
        } else {
            0nat
        }
    }
}

/// The low `n` binary digits of `v`, most significant first.
pub open spec fn value_bits(v: u32, n: nat) -> Seq<bool> {
    Seq::new(n, |k: int| (v >> ((n - 1 - k) as u32)) & 1 == 1)
}

/// The bits of `bytes`, each byte most significant bit first.
pub open spec fn unpack(bytes: Seq<u8>) -> Seq<bool> {
    Seq::new(8 * bytes.len(), |k: int| ((bytes[k / 8] as u32) >> ((7 - k % 8) as u32)) & 1 == 1)
}

/// The bytes that hold `b` eight bits at a time; a last group of fewer
/// than eight bits is left out.
pub open spec fn pack(b: Seq<bool>) -> Seq<u8>
    decreases b.len(),
{
    if b.len() < 8 {
        seq![]
    } else {
        let n = 8 * ((b.len() - 8) / 8) as int;
        pack(b.subrange(0, n)).push(bits_value(b.subrange(n, n + 8)) as u8)
    }
}

/// `n` zero bits.
pub open spec fn zeros(n: nat) -> Seq<bool> {
    Seq::new(n, |_k: int| false)
}

/// The bytes that hold `b`, the last one padded with zero bits.
pub open spec fn pack_padded(b: Seq<bool>) -> Seq<u8> {
    pack(b + zeros(((8 - b.len() % 8) % 8) as nat))
}

pub proof fn lemma_bits_value_bound(b: Seq<bool>)
    ensures
        bits_value(b) < pow2(b.len()),
    decreases b.len(),
{
    if b.len() > 0 {
        lemma_bits_value_bound(b.drop_last());
    }
}

/// Writes bits into a growing byte buffer.
pub struct BitWriter {
    out: Vec<u8>,
    current_byte: u32,
    bit_position: u32,
    written: Ghost<Seq<bool>>,
}

impl BitWriter {
    /// Every bit written so far.
    pub closed spec fn bits(&self) -> Seq<bool> {
        self.written@
    }

    pub closed spec fn wf(&self) -> bool {
        let full = self.written@.subrange(0, 8 * self.out@.len() as int);
        let pending = self.written@.subrange(8 * self.out@.len() as int, self.written@.len() as int);
        &&& self.bit_position < 8
        &&& self.written@.len() == 8 * self.out@.len() + self.bit_position
        &&& self.out@ == pack(full)
        &&& self.current_byte == bits_value(pending)
    }

    pub fn new() -> (w: Self)
        ensures
            w.wf(),
            w.bits() == Seq::<bool>::empty(),
    {
        let w = BitWriter {
            out: Vec::new(),
            current_byte: 0,
            bit_position: 0,
            written: Ghost(Seq::empty()),
        };
        assert(w.written@.subrange(0, 0) =~= seq![]);
        w
    }

    /// Appends one bit.
    pub fn write_bit(&mut self, bit: bool)
        requires
            old(self).wf(),
        ensures
            final(self).wf(),
            final(self).bits() == old(self).bits().push(bit),
    {
        let ghost nfull = 8 * self.out@.len() as int;
        let ghost pending = self.written@.subrange(nfull, self.written@.len() as int);
        proof {
            lemma_bits_value_bound(pending);
            lemma_pow2_values();
            if pending.len() < 7 {
                lemma_pow2_mono(pending.len(), 7);
            }
        }
        self.current_byte = self.current_byte * 2 + if bit {
            1
        } else {
            0
        };
        self.bit_position = self.bit_position + 1;
        self.written = Ghost(self.written@.push(bit));
        let ghost w = self.written@;
        assert(w.subrange(nfull, w.len() as int).drop_last() =~= pending);
        assert(w.subrange(0, nfull) =~= old(self).written@.subrange(0, nfull));
        if self.bit_position == 8 {
            proof {
                lemma_bits_value_bound(w.subrange(nfull, w.len() as int));
                lemma_pow2_values();
            }
            self.out.push(self.current_byte as u8);
            self.current_byte = 0;
            self.bit_position = 0;
            proof {
                let m = 8 * self.out@.len() as int;
                assert(w.len() == m);
                assert(8 * ((m - 8) / 8) == nfull);
                assert(w.subrange(0, m) =~= w);
                assert(w.subrange(m, m) =~= seq![]);
            }
        }
    }

    /// Appends the low `num_bits` binary digits of `bits`, most significant
    /// first.
    pub fn write_bits(&mut self, bits: u16, num_bits: u8)
        requires
            old(self).wf(),
            num_bits <= 16,
        ensures
            final(self).wf(),
            final(self).bits() == old(self).bits() + value_bits(bits as u32, num_bits as nat),
    {
        let mut t: u8 = 0;
        while t < num_bits
            invariant
                t <= num_bits <= 16,
                self.wf(),
                self.bits() == old(self).bits() + value_bits(bits as u32, num_bits as nat).subrange(
                    0,
                    t as int,
                ),
            decreases num_bits - t,
        {
            let shift: u32 = (num_bits - 1 - t) as u32;
            let bit = ((bits as u32) >> shift) & 1 == 1;
            self.write_bit(bit);
            t += 1;
            assert(value_bits(bits as u32, num_bits as nat).subrange(0, t as int) =~= value_bits(
                bits as u32,
                num_bits as nat,
            ).subrange(0, t - 1).push(bit));
        }
        assert(value_bits(bits as u32, num_bits as nat).subrange(0, t as int) =~= value_bits(
            bits as u32,
            num_bits as nat,
        ));
    }

    /// Completes the last byte with zero bits.
    pub fn flush(&mut self)
        requires
            old(self).wf(),
        ensures
            final(self).wf(),
            final(self).bits() == old(self).bits() + zeros(
                ((8 - old(self).bits().len() % 8) % 8) as nat,
            ),
            final(self).bits().len() % 8 == 0,
    {
        let ghost pad = ((8 - old(self).bits().len() % 8) % 8) as nat;
        let ghost start = self.bits();
        if self.bit_position > 0 {
            assert(pad == 8 - self.bit_position);
            while self.bit_position != 0
                invariant
                    self.wf(),
                    pad == 8 - (start.len() % 8),
                    start.len() <= self.bits().len() <= start.len() + pad,
                    self.bits() == start + zeros((self.bits().len() - start.len()) as nat),
                    self.bit_position == 0 ==> self.bits().len() == start.len() + pad,
                    self.bit_position != 0 ==> self.bits().len() % 8 == self.bit_position,
                decreases start.len() + pad - self.bits().len(),
            {
                self.write_bit(false);
                assert(self.bits() =~= start + zeros((self.bits().len() - start.len()) as nat));
            }
        } else {
            assert(start + zeros(pad) =~= start);
        }
    }

    /// The bytes written; after `flush`, these hold every bit.
    pub fn into_bytes(self) -> (r: Vec<u8>)
        requires
            self.wf(),
            self.bits().len() % 8 == 0,
        ensures
            r@ == pack(self.bits()),
    {
        assert(self.written@.subrange(0, 8 * self.out@.len() as int) =~= self.written@);
        self.out
    }
}

proof fn lemma_low_bit(x: u32)
    ensures
        x & 1 <= 1,
{
    assert(x & 1 <= 1) by (bit_vector);
}

proof fn lemma_pow2_values()
    ensures
        pow2(7) == 128,
        pow2(8) == 256,
        pow2(12) == 4096,
        pow2(16) == 65536,
{
    reveal_with_fuel(pow2, 17);
}

proof fn lemma_pow2_mono(a: nat, b: nat)
    requires
        a <= b,
    ensures
        pow2(a) <= pow2(b),
    decreases b - a,
{
    if a < b {
        lemma_pow2_mono(a, (b - 1) as nat);
    }
}

/// Reads bits from a byte buffer.
pub struct BitReader {
    data: Vec<u8>,
    current_byte: u8,
    bit_position: u8,
    next: usize,
    eof: bool,
}

impl BitReader {
    /// The bytes read from.
    pub closed spec fn data(&self) -> Seq<u8> {
        self.data@
    }

    /// How many bits have been consumed.
    pub closed spec fn position(&self) -> int {
        8 * self.next - 8 + self.bit_position
    }

    pub closed spec fn wf(&self) -> bool {
        &&& self.bit_position <= 8
        &&& self.next <= self.data@.len()
        &&& self.bit_position < 8 ==> self.next >= 1 && self.current_byte == self.data@[self.next
            - 1]
        &&& self.bit_position == 8 || self.next >= 1
    }

    pub fn new(data: Vec<u8>) -> (r: Self)
        ensures
            r.wf(),
            r.data() == data@,
            r.position() == 0,
    {
        BitReader { data, current_byte: 0, bit_position: 8, next: 0, eof: false }
    }

    /// Reads `num_bits` bits as a number, most significant first; `None`
    /// when fewer bits remain.
    pub fn read_bits(&mut self, num_bits: u8) -> (r: Option<u16>)
        requires
            old(self).wf(),
            num_bits <= 16,
        ensures
            final(self).wf(),
            final(self).data() == old(self).data(),
            old(self).position() + num_bits <= 8 * old(self).data().len() ==> {
                &&& r == Some(
                    bits_value(
                        unpack(old(self).data()).subrange(
                            old(self).position(),
                            old(self).position() + num_bits,
                        ),
                    ) as u16,
                )
                &&& final(self).position() == old(self).position() + num_bits
            },
            old(self).position() + num_bits > 8 * old(self).data().len() ==> r is None,
    {
        let ghost bits = unpack(self.data@);
        let ghost start = self.position();
        assert(start >= 0);
        assert(start == old(self).position());
        let mut result: u32 = 0;
        let mut t: u8 = 0;
        while t < num_bits
            invariant
                self.wf(),
                self.data@ == old(self).data@,
                bits == unpack(self.data@),
                t <= num_bits <= 16,
                self.position() == start + t,
                start >= 0,
                start == old(self).position(),
                start + t <= 8 * self.data@.len(),
                result == bits_value(bits.subrange(start, start + t)),
                result < pow2(t as nat),
            decreases num_bits - t,
        {
            if self.bit_position == 8 {
                if self.next >= self.data.len() {
                    self.eof = true;
                    assert(start + num_bits > 8 * self.data@.len());
                    return None;
                }
                self.current_byte = self.data[self.next];
                self.next = self.next + 1;
                self.bit_position = 0;
            }
            let bit: u32 = ((self.current_byte as u32) >> ((7 - self.bit_position) as u32)) & 1;
            proof {
                let k = start + t;
                assert(k < 8 * self.data@.len());
                assert(bits.len() == 8 * self.data@.len());
                assert(k / 8 == self.next - 1);
                assert(k % 8 == self.bit_position);
                assert(bits[k] == (bit == 1));
                assert(bits.subrange(start, k + 1).drop_last() =~= bits.subrange(start, k));
                assert(bits.subrange(start, k + 1).last() == bits[k]);
                lemma_low_bit((self.current_byte as u32) >> ((7 - self.bit_position) as u32));
                assert(pow2((t + 1) as nat) == 2 * pow2(t as nat));
                lemma_pow2_mono((t + 1) as nat, 16);
                lemma_pow2_values();
            }
            result = result * 2 + bit;
            self.bit_position = self.bit_position + 1;
            t += 1;
        }
        proof {
            lemma_pow2_mono(t as nat, 16);
            lemma_pow2_values();
        }
        Some(result as u16)
    }
}

proof fn lemma_bv_push(v: u32, b: u32, s: u32)
    requires
        b <= 1,
        v < 0x8000_0000,
        s < 31,
    ensures
        (((2 * v + b) as u32) >> ((s + 1) as u32)) & 1 == (v >> s) & 1,
        (((2 * v + b) as u32) >> 0u32) & 1 == b,
{
    assert((((2 * v + b) as u32) >> ((s + 1) as u32)) & 1 == (v >> s) & 1) by (bit_vector)
        requires
            b <= 1,
            v < 0x8000_0000,
            s < 31,
    ;
    assert((((2 * v + b) as u32) >> 0u32) & 1 == b) by (bit_vector)
        requires
            b <= 1,
            v < 0x8000_0000,
    ;
}

proof fn lemma_bv_half(c: u32, s: u32)
    requires
        s < 31,
    ensures
        (c >> 1u32) >> s == c >> ((s + 1) as u32),
        c >> 1u32 == c / 2,
        (c >> 0u32) & 1 == c % 2,
{
    assert((c >> 1u32) >> s == c >> ((s + 1) as u32)) by (bit_vector)
        requires
            s < 31,
    ;
    assert(c >> 1u32 == c / 2) by (bit_vector);
    assert((c >> 0u32) & 1 == c % 2) by (bit_vector);
}

/// The binary digits of the number a bit sequence stands for are that
/// sequence.
pub proof fn lemma_value_bits_of_value(g: Seq<bool>)
    requires
        g.len() <= 16,
    ensures
        value_bits(bits_value(g) as u32, g.len()) == g,
    decreases g.len(),
{
    if g.len() > 0 {
        let n = g.len();
        let g1 = g.drop_last();
        lemma_value_bits_of_value(g1);
        lemma_bits_value_bound(g1);
        lemma_pow2_mono(g1.len(), 16);
        lemma_pow2_values();
        let v1 = bits_value(g1) as u32;
        let b: u32 = if g.last() {
            1
        } else {
            0
        };
        assert(bits_value(g) == 2 * v1 + b);
        assert forall|k: int| 0 <= k < n implies #[trigger] value_bits(bits_value(g) as u32, n)[k]
            == g[k] by {
            if k < n - 1 {
                lemma_bv_push(v1, b, (n - 2 - k) as u32);
                assert(value_bits(v1, g1.len())[k] == g1[k]);
            } else {
                lemma_bv_push(v1, b, 0);
            }
        }
        assert(value_bits(bits_value(g) as u32, n) =~= g);
    } else {
        assert(value_bits(bits_value(g) as u32, g.len()) =~= g);
    }
}

/// The number that the low `n` binary digits of `c` stand for is `c`.
pub proof fn lemma_value_of_value_bits(c: u32, n: nat)
    requires
        n <= 16,
        c < pow2(n),
    ensures
        bits_value(value_bits(c, n)) == c,
    decreases n,
{
    if n > 0 {
        let h = c >> 1u32;
        lemma_bv_half(c, 0);
        assert forall|k: int| 0 <= k < n - 1 implies #[trigger] value_bits(c, n).drop_last()[k]
            == value_bits(h, (n - 1) as nat)[k] by {
            lemma_bv_half(c, (n - 2 - k) as u32);
        }
        assert(value_bits(c, n).drop_last() =~= value_bits(h, (n - 1) as nat));
        assert(pow2(n) == 2 * pow2((n - 1) as nat));
        lemma_value_of_value_bits(h, (n - 1) as nat);
        assert(value_bits(c, n).last() == (c % 2 == 1));
    } else {
        assert(value_bits(c, n) =~= seq![]);
    }
}

/// Reading bytes back as bits gives the bits that were packed, when they
/// fill whole bytes.
pub proof fn lemma_unpack_pack(b: Seq<bool>)
    requires
        b.len() % 8 == 0,
    ensures
        unpack(pack(b)) == b,
    decreases b.len(),
{
    if b.len() >= 8 {
        let n = b.len() - 8;
        assert(8 * ((b.len() - 8) / 8) == n);
        let g = b.subrange(n as int, n + 8);
        let b0 = b.subrange(0, n as int);
        lemma_unpack_pack(b0);
        lemma_value_bits_of_value(g);
        lemma_bits_value_bound(g);
        lemma_pow2_values();
        let bytes = pack(b0);
        let x = bits_value(g) as u8;
        assert(pack(b) == bytes.push(x));
        assert(unpack(bytes).len() == n);
        assert forall|k: int| 0 <= k < b.len() implies #[trigger] unpack(bytes.push(x))[k] == b[k] by {
            if k < n {
                assert(bytes.push(x)[k / 8] == bytes[k / 8]);
                assert(unpack(bytes)[k] == b0[k]);
            } else {
                assert(k / 8 == bytes.len());
                assert(k % 8 == k - n);
                assert(value_bits(bits_value(g) as u32, 8)[k - n] == g[k - n]);
            }
        }
        assert(unpack(bytes.push(x)) =~= b);
    } else {
        assert(pack(b) =~= seq![]);
        assert(unpack(pack(b)) =~= b);
    }
}

/// Packing keeps one byte per whole group of eight bits.
pub proof fn lemma_pack_len(b: Seq<bool>)
    ensures
        pack(b).len() == b.len() / 8,
    decreases b.len(),
{
    if b.len() >= 8 {
        let n = 8 * ((b.len() - 8) / 8) as int;
        lemma_pack_len(b.subrange(0, n));
    }
}

} // verus!
