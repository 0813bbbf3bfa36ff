//! Reading unsigned integers of arbitrary bit width from a byte sequence.
//!
//! Bits are taken least-significant first within each byte, and the first
//! bit read becomes the least significant bit of the value.
use vstd::arithmetic::power2::*;
use vstd::prelude::*;

verus! {

/// Bit `i` of the stream made of `bytes`, counting from the lowest bit of
/// the first byte.
pub open spec fn bit_at(bytes: Seq<u8>, i: int) -> bool {
    (bytes[i / 8] >> ((i % 8) as u32)) & 1u8 == 1u8
}

/// All bits of `bytes`, in the order in which the reader delivers them.
pub open spec fn stream_bits(bytes: Seq<u8>) -> Seq<bool> {
    Seq::new(bytes.len() * 8, |i: int| bit_at(bytes, i))
}

/// The unsigned value of a bit sequence whose first bit is the least
/// significant.
pub open spec fn bits_value(s: Seq<bool>) -> nat
    decreases s.len(),
{
    if s.len() == 0 {
        0
    } else {
        (if s[0] {
            1nat
        } else {
            0nat
        }) + 2 * bits_value(s.drop_first())
    }
}

/// The `n` lowest bits of `v`, least significant first.
pub open spec fn value_bits(v: nat, n: nat) -> Seq<bool>
    decreases n,
{
    if n == 0 {
        Seq::empty()
    } else {
        seq![v % 2 == 1] + value_bits(v / 2, (n - 1) as nat)
    }
}

/// A value that fits in `s.len()` bits.
pub proof fn lemma_bits_value_bound(s: Seq<bool>)
    ensures
        bits_value(s) < pow2(s.len()),
    decreases s.len(),
{
    if s.len() > 0 {
        lemma_bits_value_bound(s.drop_first());
        lemma_pow2_unfold(s.len());
    } else {
        lemma2_to64();
    }
}

/// Splitting off the first bit of a stretch of the stream.
proof fn lemma_bits_value_unfold(s: Seq<bool>, a: int, e: int)
    requires
        0 <= a < e <= s.len(),
    ensures
        bits_value(s.subrange(a, e)) == (if s[a] {
            1nat
        } else {
            0nat
        }) + 2 * bits_value(s.subrange(a + 1, e)),
{
    assert(s.subrange(a, e).drop_first() =~= s.subrange(a + 1, e));
}

/// The values read by `k` consecutive reads of `n` bits each from the start
/// of `bits`.
pub open spec fn chunk_values(bits: Seq<bool>, n: nat, k: nat) -> Seq<nat> {
    Seq::new(k, |j: int| bits_value(bits.subrange(j * n, j * n + n)))
}

/// The bits of a sequence of `n`-bit values, one value after the other.
pub open spec fn values_bits(vals: Seq<nat>, n: nat) -> Seq<bool>
    decreases vals.len(),
{
    if vals.len() == 0 {
        Seq::empty()
    } else {
        values_bits(vals.drop_last(), n) + value_bits(vals.last(), n)
    }
}

/// A value read from a bit sequence gives back that bit sequence.
pub proof fn lemma_value_bits_inverse(s: Seq<bool>)
    ensures
        value_bits(bits_value(s), s.len()) == s,
    decreases s.len(),
{
    if s.len() > 0 {
        let v = bits_value(s);
        let rest = bits_value(s.drop_first());
        assert(v % 2 == (if s[0] {
            1nat
        } else {
            0nat
        }) && v / 2 == rest);
        lemma_value_bits_inverse(s.drop_first());
        assert(value_bits(v, s.len()) =~= s);
    } else {
        assert(value_bits(bits_value(s), 0) =~= s);
    }
}

/// Consecutive reads of `n` bits reconstruct the stream: writing out the
/// values read, each in `n` bits, least significant first, gives back
/// exactly the bits consumed, in order.
pub proof fn lemma_reads_reconstruct(bytes: Seq<u8>, n: nat, k: nat)
    requires
        n <= 64,
        k * n <= bytes.len() * 8,
    ensures
        values_bits(chunk_values(stream_bits(bytes), n, k), n) == stream_bits(bytes).subrange(
            0,
            (k * n) as int,
        ),
    decreases k,
{
    let bits = stream_bits(bytes);
    let vals = chunk_values(bits, n, k);
    if k == 0 {
        assert(k * n == 0) by (nonlinear_arith)
            requires
                k == 0,
        ;
        assert(values_bits(vals, n) =~= bits.subrange(0, 0));
    } else {
        let k1 = (k - 1) as nat;
        assert(k1 * n + n == k * n) by (nonlinear_arith)
            requires
                k1 == k - 1,
        ;
        assert(k1 * n <= k * n) by (nonlinear_arith)
            requires
                k1 == k - 1,
        ;
        lemma_reads_reconstruct(bytes, n, k1);
        assert(vals.drop_last() =~= chunk_values(bits, n, k1));
        let last = bits.subrange((k1 * n) as int, (k1 * n + n) as int);
        assert(vals.last() == bits_value(last));
        lemma_value_bits_inverse(last);
        assert(values_bits(vals, n) =~= bits.subrange(0, (k * n) as int));
    }
}

/// A reader of bit fields over a byte sequence.
pub struct BitReader {
    input: Vec<u8>,
    byte: usize,
    offset: usize,
}

impl BitReader {
    /// The whole stream of bits.
    pub closed spec fn bits(&self) -> Seq<bool> {
        stream_bits(self.input@)
    }

    /// How many bits have been consumed.
    pub closed spec fn pos(&self) -> nat {
        (self.byte * 8 + self.offset) as nat
    }

    pub closed spec fn wf(&self) -> bool {
        &&& self.offset < 8
        &&& self.byte <= self.input@.len()
        &&& self.byte == self.input@.len() ==> self.offset == 0
    }

    pub proof fn lemma_wf(&self)
        requires
            self.wf(),
        ensures
            self.pos() <= self.bits().len(),
    {
    }

    /// A reader at the start of `input`.
    pub fn new(input: &[u8]) -> (r: Self)
        ensures
            r.wf(),
            r.bits() == stream_bits(input@),
            r.pos() == 0,
    {
        BitReader { input: vstd::slice::slice_to_vec(input), byte: 0, offset: 0 }
    }

    /// The next `n_bits` bits as an unsigned value, or `None` when fewer
    /// than `n_bits` bits remain; then nothing is consumed.
    pub fn get(&mut self, n_bits: usize) -> (r: Option<u64>)
        requires
            old(self).wf(),
            n_bits <= 64,
        ensures
            final(self).wf(),
            final(self).bits() == old(self).bits(),
            old(self).pos() + n_bits <= old(self).bits().len() ==> {
                &&& r == Some(
                    bits_value(
                        old(self).bits().subrange(
                            old(self).pos() as int,
                            old(self).pos() + n_bits,
                        ),
                    ) as u64,
                )
                &&& bits_value(
                    old(self).bits().subrange(old(self).pos() as int, old(self).pos() + n_bits),
                ) < pow2(n_bits as nat)
                &&& final(self).pos() == old(self).pos() + n_bits
            },
            old(self).pos() + n_bits > old(self).bits().len() ==> {
                &&& r is None
                &&& final(self).pos() == old(self).pos()
            },
    {
        let ghost bits = self.bits();
        let ghost pos = self.pos() as int;
        let n_in: usize = self.input.len();
        let avail: usize = n_in - self.byte;
        let need: usize = (n_bits + self.offset + 7) / 8;
        if avail < need {
            assert(pos + n_bits > bits.len()) by (nonlinear_arith)
                requires
                    avail < need,
                    need == (n_bits + self.offset + 7) / 8,
                    avail == self.input@.len() - self.byte,
                    pos == self.byte * 8 + self.offset,
                    bits.len() == self.input@.len() * 8,
            ;
            return None;
        }
        assert(pos + n_bits <= bits.len()) by (nonlinear_arith)
            requires
                avail >= need,
                need == (n_bits + self.offset + 7) / 8,
                avail == self.input@.len() - self.byte,
                pos == self.byte * 8 + self.offset,
                bits.len() == self.input@.len() * 8,
        ;
        let mut result: u64 = 0;
        let mut j: usize = n_bits;
        proof {
            assert(bits.subrange(pos + n_bits, pos + n_bits) =~= Seq::<bool>::empty());
        }
        while j > 0
            invariant
                self.wf(),
                bits == self.bits(),
                pos == self.pos(),
                pos + n_bits <= bits.len(),
                n_in == self.input@.len(),
                n_bits <= 64,
                j <= n_bits,
                result as nat == bits_value(bits.subrange(pos + j, pos + n_bits)),
            decreases j,
        {
            j = j - 1;
            let k: usize = self.offset + j;
            proof {
                let i = pos + j;
                let q = self.byte + k / 8;
                assert(i / 8 == q && i % 8 == k % 8) by (nonlinear_arith)
                    requires
                        i == self.byte * 8 + k,
                        q == self.byte + k / 8,
                        k >= 0,
                ;
                assert(q < self.input@.len()) by (nonlinear_arith)
                    requires
                        i < bits.len(),
                        bits.len() == self.input@.len() * 8,
                        i / 8 == q,
                        i >= 0,
                ;
            }
            let idx: usize = self.byte + k / 8;
            let b: u8 = self.input[idx];
            let bit: u8 = (b >> ((k % 8) as u32)) & 1u8;
            proof {
                assert(bit <= 1) by (bit_vector)
                    requires
                        bit == (b >> ((k % 8) as u32)) & 1u8,
                ;
                lemma_bits_value_unfold(bits, pos + j, pos + n_bits);
                lemma_bits_value_bound(bits.subrange(pos + j, pos + n_bits));
                if n_bits - j == 64 {
                } else {
                    lemma_pow2_strictly_increases((n_bits - j) as nat, 64);
                }
                lemma2_to64();
            }
            result = result * 2 + bit as u64;
        }
        proof {
            lemma_bits_value_bound(bits.subrange(pos, pos + n_bits));
        }
        let total: usize = self.offset + n_bits;
        let ghost (b0, o0) = (self.byte as int, self.offset as int);
        self.byte = self.byte + total / 8;
        self.offset = total % 8;
        proof {
            let (b1, o1) = (self.byte as int, self.offset as int);
            assert(b1 * 8 + o1 == pos + n_bits) by (nonlinear_arith)
                requires
                    b1 == b0 + total / 8,
                    o1 == total % 8,
                    total == o0 + n_bits,
                    pos == b0 * 8 + o0,
            ;
        }
        Some(result)
    }
}

} // verus!
