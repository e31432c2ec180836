//! The packed slice: one scale factor and twenty quantized residuals in one
//! 64-bit word.

use vstd::prelude::*;
use vstd::arithmetic::div_mod::lemma_div_denominator;

verus! {

/// Twenty consecutive samples of one channel in compressed form: the number of
/// the scale factor and the three-bit quantized residual of each sample.
#[derive(Copy, Clone, Debug, PartialEq, Eq)]
pub struct QoaSlice {
    /// The number of the scale factor, below 16.
    pub quant: u8,
    /// The quantized residuals, each below 8.
    pub resid: [u8; 20],
}

/// `8^n`.
pub open spec fn pow8(n: nat) -> int
    decreases n,
{
    if n == 0 {
        1
    } else {
        8 * pow8((n - 1) as nat)
    }
}

/// The number that holds `quant` in its highest digit and the residuals in
/// the base-8 digits below it, the first residual highest.
pub open spec fn pack_word(quant: int, resid: Seq<u8>) -> int
    decreases resid.len(),
{
    if resid.len() == 0 {
        quant
    } else {
        pack_word(quant, resid.drop_last()) * 8 + resid.last()
    }
}

/// The scale factor number that a word holds: its bits 63..60.
pub open spec fn word_quant(word: u64) -> int {
    word as int / pow8(20)
}

/// Residual `i` of a word: bits `59 - 3i .. 57 - 3i`.
#[verifier::opaque]
pub open spec fn word_resid(word: u64, i: int) -> int {
    (word as int / pow8((19 - i) as nat)) % 8
}

/// Shifting by three bits is multiplying or dividing by 8; the lowest three
/// bits are the remainder.
proof fn lemma_octal_digit(acc: u64, r: u8)
    by (bit_vector)
    ensures
        acc >> 3 == acc / 8,
        acc & 7 == acc % 8,
        acc < 0x2000_0000_0000_0000 && r < 8 ==> (acc << 3 | r as u64) == acc * 8 + r,
{
}

/// Appending one octal digit to a word that leaves room for it.
pub proof fn lemma_octal_step(acc: u64, r: u8)
    requires
        acc < 0x2000_0000_0000_0000,
        r < 8,
    ensures
        (acc << 3 | r as u64) == acc * 8 + r,
{
    lemma_octal_digit(acc, r);
}

/// Shifting a word up by `n` octal digits multiplies it by `8^n`, as long as
/// the product fits in 64 bits.
pub proof fn lemma_shl_octal(word: u64, n: nat)
    requires
        n <= 20,
        word * pow8(n) < 0x1_0000_0000_0000_0000,
    ensures
        word << ((n * 3) as u64) == word * pow8(n),
    decreases n,
{
    lemma_pow8(n);
    if n == 0 {
        assert(word << 0u64 == word) by (bit_vector);
    } else {
        let m = (n - 1) as nat;
        lemma_pow8(m);
        assert(word * pow8(m) < 0x2000_0000_0000_0000 && word * pow8(n) == word * pow8(m) * 8)
            by (nonlinear_arith)
            requires
                pow8(n) == 8 * pow8(m),
                word * pow8(n) < 0x1_0000_0000_0000_0000,
                pow8(m) > 0,
        ;
        lemma_shl_octal(word, m);
        let lower = word << ((m * 3) as u64);
        let k = (m * 3) as u64;
        assert(word << ((k + 3) as u64) == (word << k) << 3u64) by (bit_vector)
            requires
                k <= 57,
        ;
        lemma_octal_digit(lower, 0);
        assert((lower << 3 | 0u64) == lower << 3) by (bit_vector);
    }
}

/// The powers of 8 are positive and each is eight times the one before.
pub proof fn lemma_pow8(n: nat)
    ensures
        pow8(n) > 0,
        pow8(n + 1) == 8 * pow8(n),
        pow8(20) == 0x1000_0000_0000_0000,
    decreases n,
{
    if n > 0 {
        lemma_pow8((n - 1) as nat);
    }
    assert(pow8(20) == 0x1000_0000_0000_0000) by {
        reveal_with_fuel(pow8, 21);
    }
}

/// A word packed from a scale factor below 16 and `n` residuals below 8 lies
/// below `16 * 8^n`.
pub proof fn lemma_pack_word_bound(quant: int, resid: Seq<u8>)
    requires
        0 <= quant < 16,
        forall|i: int| 0 <= i < resid.len() ==> resid[i] < 8,
    ensures
        0 <= pack_word(quant, resid) < 16 * pow8(resid.len()),
    decreases resid.len(),
{
    if resid.len() > 0 {
        lemma_pack_word_bound(quant, resid.drop_last());
        lemma_pow8((resid.len() - 1) as nat);
    }
}

/// Dividing a packed word by the power of 8 that lies above residual `i`
/// leaves the scale factor and the residuals up to `i`.
proof fn lemma_pack_word_prefix(quant: int, resid: Seq<u8>, k: int)
    requires
        0 <= quant < 16,
        forall|i: int| 0 <= i < resid.len() ==> resid[i] < 8,
        0 <= k <= resid.len(),
    ensures
        pack_word(quant, resid) / pow8((resid.len() - k) as nat) == pack_word(quant, resid.take(k)),
    decreases resid.len() - k,
{
    if k == resid.len() {
        assert(resid.take(k) =~= resid);
    } else {
        let n = resid.len();
        let init = resid.drop_last();
        lemma_pack_word_prefix(quant, init, k);
        assert(init.take(k) =~= resid.take(k));
        lemma_pow8((n - 1 - k) as nat);
        lemma_pack_word_bound(quant, init);
        let w = pack_word(quant, resid);
        assert(w / 8 == pack_word(quant, init));
        lemma_div_denominator(w, 8, pow8((n - 1 - k) as nat));
        assert(8 * pow8((n - 1 - k) as nat) == pow8((n - k) as nat));
    }
}

/// Unpacking a packed word gives back the scale factor and each residual.
pub proof fn lemma_pack_word_digits(quant: int, resid: Seq<u8>)
    requires
        0 <= quant < 16,
        resid.len() == 20,
        forall|i: int| 0 <= i < 20 ==> resid[i] < 8,
    ensures
        0 <= pack_word(quant, resid) <= u64::MAX,
        word_quant(pack_word(quant, resid) as u64) == quant,
        forall|i: int| 0 <= i < 20 ==> word_resid(pack_word(quant, resid) as u64, i) == resid[i],
{
    reveal(word_resid);
    let w = pack_word(quant, resid);
    lemma_pack_word_bound(quant, resid);
    lemma_pow8(20);
    lemma_pack_word_prefix(quant, resid, 0);
    assert(resid.take(0) =~= Seq::<u8>::empty());
    assert forall|i: int| 0 <= i < 20 implies word_resid(w as u64, i) == resid[i] by {
        lemma_pack_word_prefix(quant, resid, i + 1);
        assert(resid.take(i + 1).drop_last() =~= resid.take(i));
        assert(resid.take(i + 1).last() == resid[i]);
    }
}

/// Appending a zero residual multiplies the packed word by 8.
pub proof fn lemma_pack_word_pad(quant: int, resid: Seq<u8>, zeros: nat)
    ensures
        pack_word(quant, resid + Seq::new(zeros, |i: int| 0u8)) == pack_word(quant, resid) * pow8(zeros),
    decreases zeros,
{
    let padded = resid + Seq::new(zeros, |i: int| 0u8);
    if zeros == 0 {
        assert(padded =~= resid);
    } else {
        let shorter = resid + Seq::new((zeros - 1) as nat, |i: int| 0u8);
        lemma_pack_word_pad(quant, resid, (zeros - 1) as nat);
        assert(padded.drop_last() =~= shorter);
        assert(padded.last() == 0u8);
        assert(pack_word(quant, resid) * pow8((zeros - 1) as nat) * 8 == pack_word(quant, resid)
            * pow8(zeros)) by (nonlinear_arith)
            requires
                pow8(zeros) == 8 * pow8((zeros - 1) as nat),
        ;
    }
}

impl QoaSlice {
    /// The scale factor number and every residual are in range.
    pub open spec fn wf(self) -> bool {
        &&& self.quant < 16
        &&& forall|i: int| 0 <= i < 20 ==> self.resid[i] < 8
    }

    /// The word that the slice packs to.
    pub open spec fn spec_pack(self) -> int {
        pack_word(self.quant as int, self.resid@)
    }

    /// Packs the slice into one word: the scale factor in bits 63..60, the
    /// first residual in bits 59..57, the last in bits 2..0.
    pub fn pack(&self) -> (word: u64)
        requires
            self.wf(),
        ensures
            word == self.spec_pack(),
    {
        let mut acc: u64 = self.quant as u64;
        let mut i: usize = 0;
        assert(self.resid@.take(0) =~= Seq::<u8>::empty());
        while i < 20
            invariant
                i <= 20,
                self.wf(),
                acc == pack_word(self.quant as int, self.resid@.take(i as int)),
            decreases 20 - i,
        {
            let r = self.resid[i];
            proof {
                let cur = self.resid@.take(i as int);
                let next = self.resid@.take(i + 1);
                assert(next.drop_last() =~= cur);
                assert(next.last() == r);
                lemma_pack_word_bound(self.quant as int, cur);
                lemma_pack_word_bound(self.quant as int, next);
                lemma_pow8(i as nat);
                lemma_pow8_monotonic(i as nat, 19);
                lemma_pow8_monotonic((i + 1) as nat, 20);
                lemma_pow8(20);
                lemma_octal_digit(acc, r);
            }
            acc = acc << 3 | r as u64;
            i += 1;
        }
        assert(self.resid@.take(20) =~= self.resid@);
        acc
    }

    /// Unpacks a word into the slice.
    pub fn unpack(&mut self, v: u64)
        ensures
            final(self).wf(),
            final(self).quant == word_quant(v),
            forall|i: int| 0 <= i < 20 ==> final(self).resid[i] == word_resid(v, i),
    {
        let mut rest: u64 = v;
        let mut n: usize = 20;
        proof {
            reveal(word_resid);
        }
        while n > 0
            invariant
                n <= 20,
                rest == v as int / pow8((20 - n) as nat),
                forall|i: int| n <= i < 20 ==> self.resid[i] == word_resid(v, i),
                forall|i: int| n <= i < 20 ==> self.resid[i] < 8,
            decreases n,
        {
            proof {
                reveal(word_resid);
                lemma_octal_digit(rest, 0);
                lemma_pow8((20 - n) as nat);
                lemma_div_denominator(v as int, pow8((20 - n) as nat), 8);
                assert(pow8((20 - n) as nat) * 8 == pow8((20 - n + 1) as nat));
            }
            n -= 1;
            self.resid[n] = (rest & 7) as u8;
            rest = rest >> 3;
        }
        proof {
            lemma_pow8(20);
            assert(rest == v as int / 0x1000_0000_0000_0000);
            assert(rest < 16);
        }
        self.quant = rest as u8;
    }
}

/// The powers of 8 grow with the exponent.
pub proof fn lemma_pow8_monotonic(a: nat, b: nat)
    requires
        a <= b,
    ensures
        pow8(a) <= pow8(b),
    decreases b - a,
{
    if a < b {
        lemma_pow8_monotonic(a, (b - 1) as nat);
        lemma_pow8((b - 1) as nat);
    }
}

impl Default for QoaSlice {
    fn default() -> (s: Self)
        ensures
            s.quant == 0,
            forall|i: int| 0 <= i < 20 ==> s.resid[i] == 0,
    {
        QoaSlice { quant: 0, resid: [0, 0, 0, 0, 0, 0, 0, 0, 0, 0, 0, 0, 0, 0, 0, 0, 0, 0, 0, 0] }
    }
}

/// Packing a slice and unpacking the word gives the slice back.
pub proof fn lemma_slice_round_trip(s: QoaSlice)
    requires
        s.wf(),
    ensures
        0 <= s.spec_pack() <= u64::MAX,
        word_quant(s.spec_pack() as u64) == s.quant,
        forall|i: int| 0 <= i < 20 ==> word_resid(s.spec_pack() as u64, i) == s.resid[i],
{
    lemma_pack_word_digits(s.quant as int, s.resid@);
}

} // verus!
