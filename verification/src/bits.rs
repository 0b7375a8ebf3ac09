//! A bit-field writer: accumulates fixed-width unsigned values into a byte
//! sequence, most-significant bit first within a byte and big-endian across
//! byte boundaries.

use vstd::prelude::*;
use vstd::arithmetic::power2::{pow2, lemma_pow2_unfold, lemma_pow2_strictly_increases, lemma2_to64};
use vstd::arithmetic::div_mod::{
    lemma_basic_div, lemma_div_denominator, lemma_fundamental_div_mod,
    lemma_fundamental_div_mod_converse, lemma_small_mod,
};

verus! {

/// The `n` low-order bytes of `v`, big-endian (high byte first).
pub open spec fn be_bytes(v: nat, n: nat) -> Seq<u8>
    decreases n,
{
    if n == 0 {
        Seq::empty()
    } else {
        be_bytes(v / 256, (n - 1) as nat) + seq![(v % 256) as u8]
    }
}

/// The value of a byte sequence read as one big-endian unsigned number.
pub open spec fn seq_val(s: Seq<u8>) -> nat
    decreases s.len(),
{
    if s.len() == 0 {
        0
    } else {
        (seq_val(s.drop_last()) * 256 + s.last()) as nat
    }
}

pub proof fn lemma_be_bytes_len(v: nat, n: nat)
    ensures
        be_bytes(v, n).len() == n,
    decreases n,
{
    if n > 0 {
        lemma_be_bytes_len(v / 256, (n - 1) as nat);
    }
}

/// Reading a byte sequence as a number and writing that number back over the
/// same number of bytes reproduces the sequence.
pub proof fn lemma_seq_val_be_bytes(s: Seq<u8>)
    ensures
        be_bytes(seq_val(s), s.len()) == s,
    decreases s.len(),
{
    if s.len() == 0 {
        assert(be_bytes(seq_val(s), 0) =~= s);
    } else {
        let d = s.drop_last();
        lemma_seq_val_be_bytes(d);
        let v = seq_val(s);
        lemma_fundamental_div_mod_converse(v as int, 256, seq_val(d) as int, s.last() as int);
        assert(be_bytes(v, s.len()) =~= s);
    }
}

/// Accumulates single bits into bytes, first-pushed bit most significant.
pub struct BitWriter {
    bytes: Vec<u8>,
    /// The bits of the partial last byte, as an integer.
    acc: u8,
    /// How many bits `acc` holds; always below 8.
    nbits: u8,
}

impl BitWriter {
    pub closed spec fn wf(&self) -> bool {
        self.nbits < 8 && (self.acc as nat) < pow2(self.nbits as nat)
    }

    /// All bits written so far, read as one big unsigned number.
    pub closed spec fn val(&self) -> nat {
        seq_val(self.bytes@) * pow2(self.nbits as nat) + self.acc as nat
    }

    /// How many bits were written so far.
    pub closed spec fn width(&self) -> nat {
        8 * self.bytes@.len() + self.nbits as nat
    }

    pub fn new() -> (w: Self)
        ensures
            w.wf(),
            w.val() == 0,
            w.width() == 0,
    {
        let w = BitWriter { bytes: Vec::new(), acc: 0, nbits: 0 };
        proof {
            lemma2_to64();
        }
        w
    }

    pub fn push_bit(&mut self, b: bool)
        requires
            old(self).wf(),
        ensures
            final(self).wf(),
            final(self).val() == old(self).val() * 2 + (if b { 1nat } else { 0nat }),
            final(self).width() == old(self).width() + 1,
    {
        proof {
            lemma2_to64();
            if self.nbits < 7 {
                lemma_pow2_strictly_increases(self.nbits as nat, 7);
            }
        }
        let ghost sv = seq_val(self.bytes@);
        let ghost n = self.nbits as nat;
        let bit: u8 = if b { 1 } else { 0 };
        self.acc = self.acc * 2 + bit;
        self.nbits = self.nbits + 1;
        proof {
            lemma_pow2_unfold(n + 1);
            assert(sv * pow2(n + 1) == (sv * pow2(n)) * 2) by (nonlinear_arith)
                requires pow2(n + 1) == 2 * pow2(n);
        }
        if self.nbits == 8 {
            let full = self.acc;
            self.bytes.push(full);
            self.acc = 0;
            self.nbits = 0;
            proof {
                assert(self.bytes@.drop_last() =~= old(self).bytes@);
                assert(seq_val(self.bytes@) == sv * 256 + full);
            }
        }
    }

    /// Append the `w` low-order bits of `v`, most significant first.
    pub fn push_bits(&mut self, v: u64, w: u64)
        requires
            old(self).wf(),
            w <= 64,
            (v as nat) < pow2(w as nat),
        ensures
            final(self).wf(),
            final(self).val() == old(self).val() * pow2(w as nat) + v as nat,
            final(self).width() == old(self).width() + w as nat,
    {
        let ghost v0 = old(self).val();
        let ghost w0 = old(self).width();
        proof {
            lemma2_to64();
            vstd::arithmetic::power2::lemma_pow2_pos(w as nat);
            lemma_basic_div(v as int, pow2(w as nat) as int);
        }
        let mut i: u64 = 0;
        while i < w
            invariant
                i <= w,
                w <= 64,
                (v as nat) < pow2(w as nat),
                self.wf(),
                self.width() == w0 + i as nat,
                self.val() == v0 * pow2(i as nat) + (v as nat) / pow2((w - i) as nat),
            decreases w - i,
        {
            let ghost vi = self.val();
            let j = w - 1 - i;
            let p = pow2_u64(j);
            proof {
                vstd::arithmetic::power2::lemma_pow2_pos(j as nat);
            }
            let q = v / p;
            let b = q % 2 == 1;
            proof {
                lemma_pow2_unfold((w - i) as nat);
                lemma_div_denominator(v as int, p as int, 2);
                lemma_fundamental_div_mod(q as int, 2);
                assert(vi * 2 == (v0 * pow2(i as nat)) * 2 + ((v as nat) / pow2((w - i) as nat)) * 2);
                lemma_pow2_unfold((i + 1) as nat);
                assert((v0 * pow2(i as nat)) * 2 == v0 * pow2((i + 1) as nat)) by (nonlinear_arith)
                    requires pow2((i + 1) as nat) == 2 * pow2(i as nat);
            }
            self.push_bit(b);
            i = i + 1;
        }
        proof {
            lemma2_to64();
            vstd::arithmetic::div_mod::lemma_div_basics(v as int);
            assert((v as nat) / pow2(0) == v as nat);
        }
    }

    /// Hand out the accumulated bytes; only whole bytes may remain.
    pub fn into_vec(self) -> (r: Vec<u8>)
        requires
            self.wf(),
            self.width() % 8 == 0,
        ensures
            r@ == be_bytes(self.val(), self.width() / 8),
            r@.len() == self.width() / 8,
    {
        proof {
            lemma_fundamental_div_mod_converse(
                self.width() as int,
                8,
                self.bytes@.len() as int,
                self.nbits as int,
            );
            assert(self.nbits == 0);
            lemma2_to64();
            assert(self.val() == seq_val(self.bytes@));
            lemma_seq_val_be_bytes(self.bytes@);
        }
        self.bytes
    }
}

/// `2^e` as a machine word.
pub fn pow2_u64(e: u64) -> (r: u64)
    requires
        e < 64,
    ensures
        r as nat == pow2(e as nat),
{
    proof {
        lemma2_to64();
        vstd::arithmetic::power2::lemma2_to64_rest();
    }
    let mut r: u64 = 1;
    let mut k: u64 = 0;
    while k < e
        invariant
            k <= e,
            e < 64,
            r as nat == pow2(k as nat),
        decreases e - k,
    {
        proof {
            lemma_pow2_unfold((k + 1) as nat);
            if (k + 1) < 64 {
                lemma_pow2_strictly_increases((k + 1) as nat, 64);
            }
            lemma2_to64();
            vstd::arithmetic::power2::lemma2_to64_rest();
        }
        r = r * 2;
        k = k + 1;
    }
    r
}

/// Append a 16-bit value as two big-endian bytes.
pub fn push_u16_be(out: &mut Vec<u8>, v: u16)
    ensures
        final(out)@ == old(out)@ + be_bytes(v as nat, 2),
{
    let hi = (v / 256) as u8;
    let lo = (v % 256) as u8;
    out.push(hi);
    out.push(lo);
    proof {
        let vn = v as nat;
        lemma_be_bytes_one(vn / 256);
        assert(be_bytes(vn, 2) =~= be_bytes(vn / 256, 1) + seq![(vn % 256) as u8]);
        assert(out@ =~= old(out)@ + be_bytes(vn, 2));
    }
}

/// One byte of a value below 256.
pub proof fn lemma_be_bytes_one(v: nat)
    requires
        v < 256,
    ensures
        be_bytes(v, 1) == seq![v as u8],
{
    lemma_small_mod(v, 256);
    assert(be_bytes(v / 256, 0) =~= Seq::<u8>::empty());
    assert(be_bytes(v, 1) =~= seq![v as u8]);
}

/// Append a 32-bit value as four big-endian bytes.
pub fn push_u32_be(out: &mut Vec<u8>, v: u32)
    ensures
        final(out)@ == old(out)@ + be_bytes(v as nat, 4),
{
    let b0 = (v / 16777216) as u8;
    let b1 = (v / 65536 % 256) as u8;
    let b2 = (v / 256 % 256) as u8;
    let b3 = (v % 256) as u8;
    out.push(b0);
    out.push(b1);
    out.push(b2);
    out.push(b3);
    proof {
        let vn = v as nat;
        let q1 = vn / 256;
        let q2 = q1 / 256;
        let q3 = q2 / 256;
        lemma_div_denominator(v as int, 256, 256);
        lemma_div_denominator(v as int, 65536, 256);
        lemma_be_bytes_one(q3);
        assert(be_bytes(q2, 2) =~= be_bytes(q3, 1) + seq![(q2 % 256) as u8]);
        assert(be_bytes(q1, 3) =~= be_bytes(q2, 2) + seq![(q1 % 256) as u8]);
        assert(be_bytes(vn, 4) =~= be_bytes(q1, 3) + seq![(vn % 256) as u8]);
        assert(out@ =~= old(out)@ + be_bytes(vn, 4));
    }
}

} // verus!
