use vstd::prelude::*;

verus! {

/// Bit `k` of byte `b`, counting from the most significant bit (`k < 8`).
pub open spec fn get_bit(b: u8, k: int) -> bool {
    ((b >> ((7 - k) as u8)) & 1u8) == 1u8
}

/// Bit `i` of a byte buffer read most-significant-bit first.
pub open spec fn bit_at(bytes: Seq<u8>, i: int) -> bool {
    get_bit(bytes[i / 8], i % 8)
}

/// The first `n` bits of `bytes`.
pub open spec fn bits_of(bytes: Seq<u8>, n: nat) -> Seq<bool> {
    Seq::new(n, |i: int| bit_at(bytes, i))
}

/// `bytes` holds `bits` packed eight to a byte, most significant bit first,
/// with as few bytes as needed and the padding of the last byte zero.
pub open spec fn packs(bytes: Seq<u8>, bits: Seq<bool>) -> bool {
    &&& bytes.len() == (bits.len() + 7) / 8
    &&& forall|i: int| 0 <= i < bits.len() ==> bit_at(bytes, i) == bits[i]
    &&& forall|i: int| bits.len() <= i < bytes.len() * 8 ==> !bit_at(bytes, i)
}

proof fn lemma_byte_from_bits(a: u8, b: u8)
    requires
        forall|k: int| 0 <= k < 8 ==> get_bit(a, k) == get_bit(b, k),
    ensures
        a == b,
{
    assert(get_bit(a, 0) == get_bit(b, 0));
    assert(get_bit(a, 1) == get_bit(b, 1));
    assert(get_bit(a, 2) == get_bit(b, 2));
    assert(get_bit(a, 3) == get_bit(b, 3));
    assert(get_bit(a, 4) == get_bit(b, 4));
    assert(get_bit(a, 5) == get_bit(b, 5));
    assert(get_bit(a, 6) == get_bit(b, 6));
    assert(get_bit(a, 7) == get_bit(b, 7));
    assert(a == b) by (bit_vector)
        requires
            ((a >> 7u8) & 1u8 == 1u8) == ((b >> 7u8) & 1u8 == 1u8),
            ((a >> 6u8) & 1u8 == 1u8) == ((b >> 6u8) & 1u8 == 1u8),
            ((a >> 5u8) & 1u8 == 1u8) == ((b >> 5u8) & 1u8 == 1u8),
            ((a >> 4u8) & 1u8 == 1u8) == ((b >> 4u8) & 1u8 == 1u8),
            ((a >> 3u8) & 1u8 == 1u8) == ((b >> 3u8) & 1u8 == 1u8),
            ((a >> 2u8) & 1u8 == 1u8) == ((b >> 2u8) & 1u8 == 1u8),
            ((a >> 1u8) & 1u8 == 1u8) == ((b >> 1u8) & 1u8 == 1u8),
            ((a >> 0u8) & 1u8 == 1u8) == ((b >> 0u8) & 1u8 == 1u8),
    ;
}

/// A bit sequence has one packing only.
pub proof fn lemma_packs_unique(x: Seq<u8>, y: Seq<u8>, bits: Seq<bool>)
    requires
        packs(x, bits),
        packs(y, bits),
    ensures
        x == y,
{
    assert forall|j: int| 0 <= j < x.len() implies x[j] == y[j] by {
        assert forall|k: int| 0 <= k < 8 implies get_bit(x[j], k) == get_bit(y[j], k) by {
            let i = j * 8 + k;
            assert(i / 8 == j && i % 8 == k) by (nonlinear_arith)
                requires
                    i == j * 8 + k,
                    0 <= k < 8,
            ;
            assert(0 <= i < x.len() * 8) by (nonlinear_arith)
                requires
                    i == j * 8 + k,
                    0 <= k < 8,
                    0 <= j < x.len(),
            ;
            assert(bit_at(x, i) == bit_at(y, i));
        }
        lemma_byte_from_bits(x[j], y[j]);
    }
    assert(x =~= y);
}

proof fn lemma_set_bit(b: u8, k: u8, j: u8)
    requires
        k < 8,
        j < 8,
    ensures
        get_bit(b | (1u8 << (7 - k) as u8), j as int) == (j == k || get_bit(b, j as int)),
{
    assert(((((b | (1u8 << (7 - k) as u8)) >> (7 - j) as u8) & 1u8) == 1u8) == (j == k || (((b
        >> (7 - j) as u8) & 1u8) == 1u8))) by (bit_vector)
        requires
            k < 8,
            j < 8,
    ;
}

proof fn lemma_fresh_byte(j: u8)
    requires
        j < 8,
    ensures
        get_bit(0x80u8, j as int) == (j == 0),
        !get_bit(0u8, j as int),
{
    assert((((0x80u8 >> (7 - j) as u8) & 1u8) == 1u8) == (j == 0)) by (bit_vector)
        requires
            j < 8,
    ;
    assert(!(((0u8 >> (7 - j) as u8) & 1u8) == 1u8)) by (bit_vector)
        requires
            j < 8,
    ;
}

/// Reads bit `pos` of the bit stream that starts at byte `off` of `bytes` and
/// holds `nbits` meaningful bits; `None` at or past the last meaningful bit,
/// so padding is never read.
pub fn read_bit(bytes: &Vec<u8>, off: usize, nbits: u64, pos: u64) -> (r: Option<bool>)
    requires
        off <= bytes.len(),
        nbits <= (bytes.len() - off) * 8,
    ensures
        match r {
            Some(bit) => pos < nbits && bit == bits_of(bytes@.skip(off as int), nbits as nat)[pos as int],
            None => pos >= nbits,
        },
{
    if pos >= nbits {
        return None;
    }
    let q = pos / 8;
    assert(q < bytes.len() - off) by (nonlinear_arith)
        requires
            q == pos / 8,
            pos < nbits,
            nbits <= (bytes.len() - off) * 8,
    ;
    let byte = bytes[off + q as usize];
    assert(bytes@.skip(off as int)[q as int] == byte);
    Some(((byte >> (7 - (pos % 8) as u8)) & 1u8) == 1u8)
}

/// Accumulates bits into a byte buffer, most significant bit first.
pub struct BitWriter {
    bytes: Vec<u8>,
    nbits: usize,
}

impl BitWriter {
    /// The bits written so far.
    pub closed spec fn view(&self) -> Seq<bool> {
        bits_of(self.bytes@, self.nbits as nat)
    }

    /// The buffer holds exactly the written bits, padded with zero bits.
    pub closed spec fn wf(&self) -> bool {
        &&& self.bytes.len() == (self.nbits + 7) / 8
        &&& forall|i: int| self.nbits <= i < self.bytes.len() * 8 ==> !bit_at(self.bytes@, i)
    }

    /// The buffer as it would be handed out by `finish`.
    pub closed spec fn buffer(&self) -> Seq<u8> {
        self.bytes@
    }

    pub fn new() -> (w: BitWriter)
        ensures
            w.wf(),
            w@ == Seq::<bool>::empty(),
    {
        let w = BitWriter { bytes: Vec::new(), nbits: 0 };
        assert(w@ =~= Seq::<bool>::empty());
        w
    }

    /// Number of meaningful bits written.
    pub fn bit_len(&self) -> (n: usize)
        ensures
            n == self@.len(),
    {
        self.nbits
    }

    pub fn push_bit(&mut self, bit: bool)
        requires
            old(self).wf(),
            old(self)@.len() < usize::MAX,
        ensures
            final(self).wf(),
            final(self)@ == old(self)@.push(bit),
    {
        let ghost before = self.bytes@;
        let k: usize = self.nbits % 8;
        if k == 0 {
            if bit {
                self.bytes.push(0x80u8);
            } else {
                self.bytes.push(0u8);
            }
        } else if bit {
            let last = self.bytes.len() - 1;
            let b = self.bytes[last];
            self.bytes.set(last, b | (1u8 << (7 - k as u8)));
        }
        let ghost n = self.nbits as int;
        self.nbits = self.nbits + 1;
        proof {
            let nb = self.bytes@;
            assert forall|i: int| 0 <= i < nb.len() * 8 implies bit_at(nb, i) == (if i < n {
                bit_at(before, i)
            } else if i == n {
                bit
            } else {
                false
            }) by {
                let j = i / 8;
                let m = i % 8;
                assert(i == 8 * j + m && 0 <= m < 8 && j >= 0);
                assert(n == 8 * (n / 8) + k && 0 <= k < 8);
                assert(j < n / 8 ==> i < n);
                assert(j > n / 8 ==> i > n);
                assert(j == n / 8 ==> (i < n <==> m < k) && (i == n <==> m == k));
                assert(before.len() == (n + 7) / 8);
                if k == 0 {
                    assert(before.len() == n / 8);
                    if j < before.len() {
                        assert(nb[j] == before[j]);
                        assert(i < n);
                    } else {
                        assert(j == before.len());
                        lemma_fresh_byte(m as u8);
                        if bit {
                            assert(nb[j] == 0x80u8);
                        } else {
                            assert(nb[j] == 0u8);
                        }
                    }
                } else {
                    assert(before.len() == n / 8 + 1);
                    if j < n / 8 {
                        assert(nb[j] == before[j]);
                    } else {
                        assert(j == n / 8);
                        if bit {
                            lemma_set_bit(before[j], k as u8, m as u8);
                            assert(nb[j] == before[j] | (1u8 << (7 - k as u8) as u8));
                            assert(n < i ==> !bit_at(before, i));
                        } else {
                            assert(nb[j] == before[j]);
                            assert(n <= i ==> !bit_at(before, i));
                        }
                    }
                }
            }
            assert(self@ =~= old(self)@.push(bit));
        }
    }

    /// Appends the bits of `code` in order.
    pub fn push_bits(&mut self, code: &Vec<bool>)
        requires
            old(self).wf(),
            old(self)@.len() + code@.len() <= usize::MAX,
        ensures
            final(self).wf(),
            final(self)@ == old(self)@ + code@,
    {
        let mut i: usize = 0;
        while i < code.len()
            invariant
                i <= code.len(),
                self.wf(),
                self@ == old(self)@ + code@.subrange(0, i as int),
                old(self)@.len() + code@.len() <= usize::MAX,
            decreases code.len() - i,
        {
            self.push_bit(code[i]);
            i = i + 1;
            assert(code@.subrange(0, i as int) =~= code@.subrange(0, i - 1).push(code@[i - 1]));
        }
        assert(code@.subrange(0, i as int) =~= code@);
    }

    /// Hands out the packed buffer.
    pub fn finish(self) -> (r: Vec<u8>)
        requires
            self.wf(),
        ensures
            packs(r@, self@),
    {
        self.bytes
    }
}

} // verus!
