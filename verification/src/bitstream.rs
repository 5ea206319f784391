//! LSB-first bit packing (RFC 1951 §3.1.1) and its mathematical model.
//!
//! A stream of bits is modelled as `Seq<bool>`; byte `b` contributes its eight
//! bits least significant first, and a Huffman code is written most
//! significant bit first.

use vstd::arithmetic::div_mod::*;
use vstd::arithmetic::power2::*;
use vstd::bits::*;
use vstd::prelude::*;

verus! {

/// The low `n` bits of `v`, least significant first.
pub open spec fn bits_lsb(v: nat, n: nat) -> Seq<bool>
    decreases n,
{
    if n == 0 {
        Seq::empty()
    } else {
        seq![v % 2 == 1] + bits_lsb(v / 2, (n - 1) as nat)
    }
}

/// The low `n` bits of `v`, most significant first.
pub open spec fn bits_msb(v: nat, n: nat) -> Seq<bool> {
    bits_lsb(v, n).reverse()
}

/// The bits of a byte sequence, each byte least significant bit first.
pub open spec fn bytes_bits(bs: Seq<u8>) -> Seq<bool>
    decreases bs.len(),
{
    if bs.len() == 0 {
        Seq::empty()
    } else {
        bytes_bits(bs.drop_last()) + bits_lsb(bs.last() as nat, 8)
    }
}

/// `n` zero bits.
pub open spec fn zeros(n: nat) -> Seq<bool> {
    Seq::new(n, |i: int| false)
}

/// Value of a bit sequence read least significant bit first.
pub open spec fn lsb_value(s: Seq<bool>) -> nat
    decreases s.len(),
{
    if s.len() == 0 {
        0
    } else {
        (if s[0] {
            1nat
        } else {
            0nat
        }) + 2 * lsb_value(s.drop_first())
    }
}

/// Value of a bit sequence read most significant bit first.
pub open spec fn msb_value(s: Seq<bool>) -> nat
    decreases s.len(),
{
    if s.len() == 0 {
        0
    } else {
        2 * msb_value(s.drop_last()) + (if s.last() {
            1nat
        } else {
            0nat
        })
    }
}

pub proof fn lemma_bits_lsb_len(v: nat, n: nat)
    ensures
        bits_lsb(v, n).len() == n,
    decreases n,
{
    if n > 0 {
        lemma_bits_lsb_len(v / 2, (n - 1) as nat);
    }
}

pub proof fn lemma_bytes_bits_len(bs: Seq<u8>)
    ensures
        bytes_bits(bs).len() == 8 * bs.len(),
    decreases bs.len(),
{
    if bs.len() > 0 {
        lemma_bytes_bits_len(bs.drop_last());
        lemma_bits_lsb_len(bs.last() as nat, 8);
    }
}

/// Bits of a concatenation of byte sequences.
pub proof fn lemma_bytes_bits_concat(a: Seq<u8>, b: Seq<u8>)
    ensures
        bytes_bits(a + b) == bytes_bits(a) + bytes_bits(b),
    decreases b.len(),
{
    if b.len() == 0 {
        assert(a + b =~= a);
        assert(bytes_bits(a) + bytes_bits(b) =~= bytes_bits(a));
    } else {
        lemma_bytes_bits_concat(a, b.drop_last());
        assert((a + b).drop_last() =~= a + b.drop_last());
        assert((a + b).last() == b.last());
        assert(bytes_bits(a + b) =~= bytes_bits(a) + bytes_bits(b));
    }
}

/// Splitting a value at bit `k`: its low `k` bits come first, then the rest.
pub proof fn lemma_bits_lsb_split(a: nat, b: nat, k: nat, n: nat)
    requires
        a < pow2(k),
    ensures
        bits_lsb(a + pow2(k) * b, k + n) == bits_lsb(a, k) + bits_lsb(b, n),
    decreases k,
{
    if k == 0 {
        lemma2_to64();
        assert(a == 0);
        assert(bits_lsb(a, k) + bits_lsb(b, n) =~= bits_lsb(b, n));
    } else {
        lemma_pow2_unfold(k);
        let p = pow2((k - 1) as nat);
        let m = p * b;
        assert(pow2(k) * b == 2 * m) by (nonlinear_arith)
            requires
                pow2(k) == 2 * p,
                m == p * b,
        ;
        let v = a + 2 * m;
        assert(v % 2 == a % 2);
        assert(v / 2 == a / 2 + m);
        assert(a / 2 < p);
        lemma_bits_lsb_split(a / 2, b, (k - 1) as nat, n);
        assert((k + n - 1) as nat == ((k - 1) as nat + n) as nat);
        assert(bits_lsb(v, k + n) == seq![v % 2 == 1] + bits_lsb(v / 2, (k + n - 1) as nat));
        assert(bits_lsb(a, k) == seq![a % 2 == 1] + bits_lsb(a / 2, (k - 1) as nat));
        assert(bits_lsb(v, k + n) =~= bits_lsb(a, k) + bits_lsb(b, n));
    }
}

/// Only the low `n` bits of a value are written.
pub proof fn lemma_bits_lsb_mod(v: nat, n: nat)
    ensures
        bits_lsb(v % pow2(n), n) == bits_lsb(v, n),
{
    lemma_pow2_pos(n);
    lemma_fundamental_div_mod(v as int, pow2(n) as int);
    lemma_bits_lsb_split(v % pow2(n), v / pow2(n), n, 0);
    assert(v == v % pow2(n) + pow2(n) * (v / pow2(n)));
    assert(bits_lsb(v / pow2(n), 0) =~= Seq::<bool>::empty());
    assert(bits_lsb(v % pow2(n), n) + bits_lsb(v / pow2(n), 0) =~= bits_lsb(v % pow2(n), n));
}

/// The zero value contributes zero bits.
pub proof fn lemma_bits_lsb_zero(n: nat)
    ensures
        bits_lsb(0, n) == zeros(n),
    decreases n,
{
    if n > 0 {
        lemma_bits_lsb_zero((n - 1) as nat);
        assert(bits_lsb(0, n) =~= zeros(n));
    } else {
        assert(bits_lsb(0, n) =~= zeros(n));
    }
}

/// Bit `j` of `bits_lsb(v, n)` is bit `j` of `v`.
pub proof fn lemma_bits_lsb_index(v: nat, n: nat, j: nat)
    requires
        j < n,
    ensures
        bits_lsb(v, n).len() == n,
        bits_lsb(v, n)[j as int] == ((v / pow2(j)) % 2 == 1),
    decreases j,
{
    lemma_bits_lsb_len(v, n);
    lemma_bits_lsb_len(v / 2, (n - 1) as nat);
    if j == 0 {
        lemma2_to64();
    } else {
        lemma_bits_lsb_index(v / 2, (n - 1) as nat, (j - 1) as nat);
        lemma_pow2_unfold(j);
        lemma_pow2_pos((j - 1) as nat);
        lemma_div_denominator(v as int, 2, pow2((j - 1) as nat) as int);
    }
}

/// Reading back the bits of a value gives the value modulo `2^n`.
pub proof fn lemma_lsb_value_bits(v: nat, n: nat)
    ensures
        lsb_value(bits_lsb(v, n)) == v % pow2(n),
    decreases n,
{
    if n == 0 {
        lemma2_to64();
    } else {
        lemma_lsb_value_bits(v / 2, (n - 1) as nat);
        lemma_pow2_unfold(n);
        let p = pow2((n - 1) as nat);
        lemma_pow2_pos((n - 1) as nat);
        assert(bits_lsb(v, n).drop_first() =~= bits_lsb(v / 2, (n - 1) as nat));
        let h = v / 2;
        let r1 = v % 2;
        let q = h / p;
        let r2 = h % p;
        lemma_fundamental_div_mod(v as int, 2);
        lemma_fundamental_div_mod(h as int, p as int);
        assert(v == q * (2 * p) + (r1 + 2 * r2)) by (nonlinear_arith)
            requires
                v == 2 * h + r1,
                h == p * q + r2,
        ;
        lemma_fundamental_div_mod_converse(v as int, (2 * p) as int, q as int, (r1 + 2 * r2) as int);
    }
}

/// Most-significant-first reading of a reversed sequence.
pub proof fn lemma_msb_value_reverse(s: Seq<bool>)
    ensures
        msb_value(s.reverse()) == lsb_value(s),
    decreases s.len(),
{
    if s.len() > 0 {
        lemma_msb_value_reverse(s.drop_first());
        assert(s.reverse().drop_last() =~= s.drop_first().reverse());
        assert(s.reverse().last() == s[0]);
    }
}

/// Reading back a Huffman-ordered code gives the code modulo `2^n`.
pub proof fn lemma_msb_value_bits(v: nat, n: nat)
    ensures
        msb_value(bits_msb(v, n)) == v % pow2(n),
{
    lemma_msb_value_reverse(bits_lsb(v, n));
    lemma_lsb_value_bits(v, n);
}

/// A bit writer: complete bytes, plus `nbits` pending bits held in `acc`.
pub(crate) struct BitWriter {
    pub(crate) bytes: Vec<u8>,
    pub(crate) acc: u32,
    pub(crate) nbits: u8,
}

/// `acc | (m << nb)` adds when the low `nb` bits of the shifted value are free.
proof fn lemma_or_disjoint(acc: u32, m: u32, nb: u32)
    by (bit_vector)
    requires
        nb < 32,
        acc < (1u32 << nb),
    ensures
        acc | (m << nb) == acc + (m << nb),
{
}

proof fn lemma_low_byte(acc: u32)
    by (bit_vector)
    ensures
        acc & 0xFF == acc % 256,
        acc >> 8 == acc / 256,
{
}

impl BitWriter {
    pub(crate) open spec fn wf(&self) -> bool {
        &&& self.nbits < 8
        &&& (self.acc as nat) < pow2(self.nbits as nat)
    }

    /// Every bit written so far, in order.
    pub(crate) open spec fn bits(&self) -> Seq<bool> {
        bytes_bits(self.bytes@) + bits_lsb(self.acc as nat, self.nbits as nat)
    }

    pub(crate) fn new() -> (w: BitWriter)
        ensures
            w.wf(),
            w.bits() == Seq::<bool>::empty(),
    {
        let w = BitWriter { bytes: Vec::new(), acc: 0, nbits: 0 };
        proof {
            lemma2_to64();
            assert(bytes_bits(w.bytes@) =~= Seq::<bool>::empty());
            assert(w.bits() =~= Seq::<bool>::empty());
        }
        w
    }

    /// Writes the low `n` bits of `value`, least significant first.
    pub(crate) fn write_bits(&mut self, value: u32, n: u8)
        requires
            old(self).wf(),
            n <= 16,
        ensures
            final(self).wf(),
            final(self).bits() == old(self).bits() + bits_lsb(value as nat, n as nat),
    {
        let ghost target = self.bits() + bits_lsb(value as nat, n as nat);
        let ghost nb0 = self.nbits as nat;
        let ghost acc0 = self.acc as nat;
        proof {
            lemma2_to64();
            lemma_u32_pow2_no_overflow(n as nat);
            lemma_u32_shl_is_mul(1u32, n as u32);
        }
        let mask: u32 = if n == 32 {
            u32::MAX
        } else {
            (1u32 << (n as u32)) - 1
        };
        let masked = value & mask;
        proof {
            assert(mask == low_bits_mask(n as nat) as u32);
            lemma_u32_low_bits_mask_is_mod(value, n as nat);
            assert(masked as nat == (value as nat) % pow2(n as nat));
            lemma_pow2_pos(n as nat);
            assert(pow2(n as nat) <= 0x10000) by {
                if n < 16 {
                    lemma_pow2_strictly_increases(n as nat, 16);
                }
            }
            assert(pow2(nb0) <= 0x80) by {
                if nb0 < 7 {
                    lemma_pow2_strictly_increases(nb0, 7);
                }
            }
            assert(masked * pow2(nb0) <= 0x80_0000) by (nonlinear_arith)
                requires
                    masked < 0x10000,
                    pow2(nb0) <= 0x80,
            ;
            lemma_u32_shl_is_mul(masked, self.nbits as u32);
            lemma_u32_shl_is_mul(1u32, self.nbits as u32);
            lemma_or_disjoint(self.acc, masked, self.nbits as u32);
            lemma_bits_lsb_split(acc0, masked as nat, nb0, n as nat);
            lemma_bits_lsb_mod(value as nat, n as nat);
            lemma_pow2_adds(nb0, n as nat);
            assert(acc0 + pow2(nb0) * masked < pow2(nb0 + n as nat)) by (nonlinear_arith)
                requires
                    acc0 < pow2(nb0),
                    masked < pow2(n as nat),
                    pow2(nb0 + n as nat) == pow2(nb0) * pow2(n as nat),
            ;
            assert(pow2(nb0) * masked == masked * pow2(nb0)) by (nonlinear_arith);
        }
        self.acc = self.acc | (masked << (self.nbits as u32));
        self.nbits = self.nbits + n;
        proof {
            assert(self.bits() =~= target);
        }
        while self.nbits >= 8
            invariant
                self.nbits <= 23,
                (self.acc as nat) < pow2(self.nbits as nat),
                self.bits() == target,
            decreases self.nbits,
        {
            let ghost nb = self.nbits as nat;
            let ghost a = self.acc as nat;
            proof {
                lemma_low_byte(self.acc);
                lemma2_to64();
                lemma_fundamental_div_mod(a as int, 256);
                lemma_bits_lsb_split(a % 256, a / 256, 8, (nb - 8) as nat);
                lemma_pow2_adds(8, (nb - 8) as nat);
                assert((a / 256) < pow2((nb - 8) as nat)) by (nonlinear_arith)
                    requires
                        a < pow2(nb),
                        pow2(nb) == 256 * pow2((nb - 8) as nat),
                ;
            }
            let byte = (self.acc & 0xFF) as u8;
            let ghost old_bytes = self.bytes@;
            self.bytes.push(byte);
            self.acc = self.acc >> 8;
            self.nbits = self.nbits - 8;
            proof {
                assert(self.bytes@.drop_last() =~= old_bytes);
                assert(bytes_bits(self.bytes@) == bytes_bits(old_bytes) + bits_lsb(byte as nat, 8));
                assert(self.bits() =~= target);
            }
        }
    }

    /// Writes the low `len` bits of a Huffman `code`, most significant first.
    pub(crate) fn write_huffman(&mut self, code: u16, len: u8)
        requires
            old(self).wf(),
            len <= 16,
        ensures
            final(self).wf(),
            final(self).bits() == old(self).bits() + bits_msb(code as nat, len as nat),
    {
        let ghost start = self.bits();
        let ghost msb = bits_msb(code as nat, len as nat);
        proof {
            lemma_bits_lsb_len(code as nat, len as nat);
        }
        let mut i: u8 = 0;
        while i < len
            invariant
                i <= len,
                len <= 16,
                self.wf(),
                msb.len() == len,
                msb == bits_msb(code as nat, len as nat),
                self.bits() == start + msb.take(i as int),
            decreases len - i,
        {
            let shift: u32 = (len - 1 - i) as u32;
            let bit = ((code as u32) >> shift) & 1;
            proof {
                lemma_u32_shr_is_div(code as u32, shift);
                assert(((code as u32) >> shift) & 1 == ((code as u32) >> shift) % 2) by (bit_vector);
                lemma_bits_lsb_index(code as nat, len as nat, shift as nat);
                assert(msb[i as int] == bits_lsb(code as nat, len as nat)[shift as int]);
                assert(bits_lsb(bit as nat, 1) =~= seq![bit == 1]) by {
                    assert(bits_lsb((bit / 2) as nat, 0) =~= Seq::<bool>::empty());
                }
            }
            self.write_bits(bit, 1);
            proof {
                assert(msb.take(i + 1) =~= msb.take(i as int).push(msb[i as int]));
                assert(self.bits() =~= start + msb.take(i + 1));
            }
            i += 1;
        }
        proof {
            assert(msb.take(len as int) =~= msb);
        }
    }

    /// Flushes the pending bits, padding the last byte with zero bits.
    pub(crate) fn finish(self) -> (out: Vec<u8>)
        requires
            self.wf(),
        ensures
            bytes_bits(out@) == self.bits() + zeros(
                if self.nbits == 0 {
                    0nat
                } else {
                    (8 - self.nbits) as nat
                },
            ),
    {
        let mut bytes = self.bytes;
        let ghost old_bytes = bytes@;
        if self.nbits > 0 {
            let byte = (self.acc & 0xFF) as u8;
            proof {
                let nb = self.nbits as nat;
                lemma_low_byte(self.acc);
                lemma2_to64();
                assert(pow2(nb) <= 0x80) by {
                    if nb < 7 {
                        lemma_pow2_strictly_increases(nb, 7);
                    }
                }
                assert(byte as nat == self.acc as nat);
                lemma_bits_lsb_split(self.acc as nat, 0, nb, (8 - nb) as nat);
                lemma_bits_lsb_zero((8 - nb) as nat);
                assert(self.acc as nat + pow2(nb) * 0 == self.acc as nat);
            }
            bytes.push(byte);
            proof {
                assert(bytes@.drop_last() =~= old_bytes);
                assert(bytes_bits(bytes@) =~= self.bits() + zeros((8 - self.nbits) as nat));
            }
        } else {
            proof {
                assert(bits_lsb(self.acc as nat, 0) =~= Seq::<bool>::empty());
                assert(bytes_bits(bytes@) =~= self.bits() + zeros(0));
            }
        }
        bytes
    }
}

/// Different bytes give different bits.
pub proof fn lemma_bytes_bits_injective(a: Seq<u8>, b: Seq<u8>)
    requires
        a.len() == b.len(),
        bytes_bits(a) == bytes_bits(b),
    ensures
        a == b,
    decreases a.len(),
{
    if a.len() > 0 {
        lemma_bytes_bits_len(a.drop_last());
        lemma_bytes_bits_len(b.drop_last());
        lemma_bits_lsb_len(a.last() as nat, 8);
        lemma_bits_lsb_len(b.last() as nat, 8);
        let n = 8 * (a.len() - 1);
        assert(bytes_bits(a).subrange(0, n) =~= bytes_bits(a.drop_last()));
        assert(bytes_bits(b).subrange(0, n) =~= bytes_bits(b.drop_last()));
        assert(bytes_bits(a).subrange(n, n + 8) =~= bits_lsb(a.last() as nat, 8));
        assert(bytes_bits(b).subrange(n, n + 8) =~= bits_lsb(b.last() as nat, 8));
        lemma_bytes_bits_injective(a.drop_last(), b.drop_last());
        lemma_lsb_value_bits(a.last() as nat, 8);
        lemma_lsb_value_bits(b.last() as nat, 8);
        lemma2_to64();
        assert(a =~= a.drop_last().push(a.last()));
        assert(b =~= b.drop_last().push(b.last()));
    }
}

} // verus!
