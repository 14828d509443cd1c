//! Modular exponentiation by square-and-multiply over the exponent's bits,
//! least significant first, with a full reduction after every step.

use vstd::prelude::*;
use vstd::arithmetic::power2::{pow2, lemma_pow2_pos, lemma_pow2_unfold, lemma2_to64};
use vstd::arithmetic::div_mod::{lemma_mod_bound, lemma_small_mod};
use crate::limbs::lemma_lv_bound;
use crate::bigint::BigInt;
use crate::bits::lemma_lv_bit;
use crate::nt::{npow, lemma_npow_mul_mod, lemma_mod_bit_split};
use crate::Error;

verus! {

impl BigInt {
    /// Square-and-multiply against a positive modulus, reducing by division
    /// after every squaring and every multiplication.
    pub(crate) fn mod_pow_plain_pos(&self, exponent: &BigInt, modulus: &BigInt) -> (r: BigInt)
        requires
            self.wf(),
            exponent.wf(),
            modulus.wf(),
            modulus@ >= 1,
            self.word_count() <= usize::MAX / 128,
            modulus.word_count() <= usize::MAX / 512,
        ensures
            r.wf(),
            r@ == npow(self@, exponent@) % modulus@,
            r@ < modulus@,
            r.word_count() <= modulus.word_count(),
    {
        let one = BigInt::from_u64(1);
        let mut result = one.div_rem_pos(modulus).1;
        let mut base = self.div_rem_pos(modulus).1;
        let elen = exponent.limbs.len();
        let mut li: usize = 0;
        proof {
            lemma_pow2_pos(0);
            lemma2_to64();
            lemma_mod_bound(exponent@ as int, pow2(0) as int);
            assert(exponent@ % pow2(0) == 0);
            assert(npow(self@, 0) == 1);
            assert(npow(self@, 1) == self@ * npow(self@, 0));
            assert(self@ * 1 == self@);
            lemma_lv_bound(modulus.limbs@);
            result.lemma_wc_bound(modulus.word_count());
            base.lemma_wc_bound(modulus.word_count());
        }
        while li < elen
            invariant
                li <= elen,
                elen == exponent.limbs@.len(),
                self.wf(),
                exponent.wf(),
                modulus.wf(),
                modulus@ >= 1,
                result.wf(),
                base.wf(),
                modulus.word_count() <= usize::MAX / 512,
                result@ < modulus@,
                base@ < modulus@,
                result.word_count() <= modulus.word_count(),
                base.word_count() <= modulus.word_count(),
                result@ == npow(self@, exponent@ % pow2((64 * li) as nat)) % modulus@,
                base@ == npow(self@, pow2((64 * li) as nat)) % modulus@,
            decreases elen - li,
        {
            let limb: u64 = exponent.limbs[li];
            let mut pwbit: u64 = 1;
            let mut bi: usize = 0;
            proof {
                lemma2_to64();
            }
            while bi < 64
                invariant
                    bi <= 64,
                    li < elen,
                    elen == exponent.limbs@.len(),
                    limb == exponent.limbs@[li as int],
                    self.wf(),
                    exponent.wf(),
                    modulus.wf(),
                    modulus@ >= 1,
                    result.wf(),
                    base.wf(),
                    modulus.word_count() <= usize::MAX / 512,
                    result@ < modulus@,
                    base@ < modulus@,
                    result.word_count() <= modulus.word_count(),
                    base.word_count() <= modulus.word_count(),
                    bi < 64 ==> pwbit == pow2(bi as nat),
                    result@ == npow(self@, exponent@ % pow2((64 * li + bi) as nat)) % modulus@,
                    base@ == npow(self@, pow2((64 * li + bi) as nat)) % modulus@,
                decreases 64 - bi,
            {
                let ghost t = (64 * li + bi) as nat;
                let ghost ev = exponent@;
                let ghost m = modulus@;
                let ghost bv = self@;
                proof {
                    lemma_pow2_pos(bi as nat);
                    lemma_pow2_pos(t);
                    lemma_lv_bit(exponent.limbs@, li as nat, bi as nat);
                    lemma_mod_bit_split(ev, t);
                    lemma_mod_bound(ev as int, pow2(t) as int);
                    lemma_lv_bound(modulus.limbs@);
                }
                let bit: bool = (limb / pwbit) % 2 == 1;
                if bit {
                    let prod = result.mul(&base);
                    let next = prod.div_rem_pos(modulus).1;
                    proof {
                        lemma_npow_mul_mod(bv, ev % pow2(t), pow2(t), m);
                        vstd::arithmetic::div_mod::lemma_mod_twice((result@ * base@) as int,
                            m as int);
                        assert((result@ * base@) % m
                            == ((npow(bv, ev % pow2(t)) % m) * (npow(bv, pow2(t)) % m)) % m);
                        assert((ev / pow2(t)) % 2 == 1);
                        assert(pow2(t) * ((ev / pow2(t)) % 2) == pow2(t)) by (nonlinear_arith)
                            requires
                                (ev / pow2(t)) % 2 == 1,
                        ;
                        assert(ev % pow2(t + 1) == ev % pow2(t) + pow2(t));
                        next.lemma_wc_bound(modulus.word_count());
                    }
                    result = next;
                } else {
                    proof {
                        assert((ev / pow2(t)) % 2 == 0);
                        assert(pow2(t) * ((ev / pow2(t)) % 2) == 0) by (nonlinear_arith)
                            requires
                                (ev / pow2(t)) % 2 == 0,
                        ;
                        assert(ev % pow2(t + 1) == ev % pow2(t));
                    }
                }
                let sq = base.mul(&base);
                let base_next = sq.div_rem_pos(modulus).1;
                proof {
                    lemma_npow_mul_mod(bv, pow2(t), pow2(t), m);
                    lemma_pow2_unfold(t + 1);
                    assert(pow2(t) + pow2(t) == pow2(t + 1));
                    base_next.lemma_wc_bound(modulus.word_count());
                }
                base = base_next;
                proof {
                    if bi + 1 < 64 {
                        lemma_pow2_unfold((bi + 1) as nat);
                        if bi + 2 <= 64 {
                            vstd::arithmetic::power2::lemma_pow2_strictly_increases(
                                (bi + 1) as nat, 64);
                        }
                        lemma2_to64();
                    }
                    assert(64 * li + bi + 1 == 64 * li + (bi + 1));
                }
                if bi + 1 < 64 {
                    pwbit = pwbit * 2;
                }
                bi = bi + 1;
            }
            proof {
                assert(64 * li + 64 == 64 * (li + 1));
            }
            li = li + 1;
        }
        proof {
            lemma_lv_bound(exponent.limbs@);
            vstd::arithmetic::power2::lemma_pow2_strictly_increases(0, 1);
            if exponent@ < pow2((64 * elen) as nat) {
                lemma_small_mod(exponent@, pow2((64 * elen) as nat));
            }
        }
        result
    }

    /// Modular exponentiation: Montgomery form for an odd modulus, the
    /// plain division-based strategy otherwise; `ZeroModulus` for modulus 0.
    pub fn mod_pow(&self, exponent: &BigInt, modulus: &BigInt) -> (r: Result<BigInt, Error>)
        requires
            self.wf(),
            exponent.wf(),
            modulus.wf(),
            self.word_count() <= usize::MAX / 1024,
            modulus.word_count() <= usize::MAX / 1024,
        ensures
            modulus@ == 0 ==> r == Err::<BigInt, Error>(Error::ZeroModulus),
            modulus@ >= 1 ==> (r matches Ok(v) && v.wf()
                && v@ == npow(self@, exponent@) % modulus@ && v@ < modulus@
                && v.word_count() <= modulus.word_count()),
    {
        if modulus.is_zero() {
            return Err(Error::ZeroModulus);
        }
        let odd = modulus.limbs[0] % 2 == 1;
        proof {
            crate::limbs::lemma_lv_parity(modulus.limbs@);
        }
        if odd {
            Ok(self.mod_pow_mont(exponent, modulus))
        } else {
            Ok(self.mod_pow_plain_pos(exponent, modulus))
        }
    }

    /// Modular exponentiation with a plain square-and-multiply strategy, or
    /// `ZeroModulus` when the modulus is zero.
    pub fn mod_pow_plain(&self, exponent: &BigInt, modulus: &BigInt) -> (r: Result<
        BigInt,
        Error,
    >)
        requires
            self.wf(),
            exponent.wf(),
            modulus.wf(),
            self.word_count() <= usize::MAX / 128,
            modulus.word_count() <= usize::MAX / 512,
        ensures
            modulus@ == 0 ==> r == Err::<BigInt, Error>(Error::ZeroModulus),
            modulus@ >= 1 ==> (r matches Ok(v) && v.wf()
                && v@ == npow(self@, exponent@) % modulus@ && v@ < modulus@
                && v.word_count() <= modulus.word_count()),
    {
        if modulus.is_zero() {
            return Err(Error::ZeroModulus);
        }
        Ok(self.mod_pow_plain_pos(exponent, modulus))
    }
}

} // verus!
