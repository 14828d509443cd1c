//! Exact quotient and remainder: a word-at-a-time fast path for single-word
//! divisors, and bit-serial long division for the general case.

use vstd::prelude::*;
use vstd::arithmetic::power2::{pow2, lemma_pow2_adds, lemma_pow2_pos, lemma2_to64,
    lemma2_to64_rest};
use vstd::arithmetic::div_mod::{lemma_fundamental_div_mod, lemma_fundamental_div_mod_converse,
    lemma_basic_div};
use vstd::arithmetic::mul::lemma_mul_is_commutative;
use crate::limbs::{word_base, pb, limbs_value, lemma_pb_zero, lemma_lv_bound};
use crate::bigint::BigInt;
use crate::bits::{nat_bit, lemma_lv_bit, lemma_div_bit_step};
use crate::Error;

verus! {

impl BigInt {
    /// Quotient and remainder by a single word, dividing one word at a time.
    pub fn div_rem_u64(&self, divisor: u64) -> (r: Result<(BigInt, BigInt), Error>)
        requires
            self.wf(),
        ensures
            divisor == 0 ==> r == Err::<(BigInt, BigInt), Error>(Error::DivisionByZero),
            divisor > 0 ==> (r matches Ok(qr) && qr.0.wf() && qr.1.wf()
                && qr.0@ == self@ / (divisor as nat) && qr.1@ == self@ % (divisor as nat)
                && qr.0.word_count() <= self.word_count() && qr.1.word_count() == 1),
    {
        if divisor == 0 {
            return Err(Error::DivisionByZero);
        }
        let a = &self.limbs;
        let n = a.len();
        let mut out: Vec<u64> = Vec::new();
        let mut j: usize = 0;
        while j < n
            invariant
                j <= n,
                n == self.limbs@.len(),
                out@.len() == j,
            decreases n - j,
        {
            out.push(0);
            j = j + 1;
        }
        let mut rem: u64 = 0;
        let mut i: usize = n;
        proof {
            assert(out@.skip(n as int) =~= Seq::<u64>::empty());
            assert(self.limbs@.skip(n as int) =~= Seq::<u64>::empty());
            assert(limbs_value(Seq::<u64>::empty()) == 0);
        }
        while i > 0
            invariant
                i <= n,
                n == self.limbs@.len(),
                out@.len() == n,
                rem < divisor,
                divisor > 0,
                limbs_value(self.limbs@.skip(i as int)) == (divisor as nat) * limbs_value(
                    out@.skip(i as int)) + rem,
            decreases i,
        {
            i = i - 1;
            let cur: u128 = (rem as u128) * 0x1_0000_0000_0000_0000 + self.limbs[i] as u128;
            proof {
                assert(((cur as nat) / (divisor as nat) < word_base())
                    && ((cur as nat) % (divisor as nat) < divisor)) by (nonlinear_arith)
                    requires
                        (cur as nat) == (rem as nat) * 0x1_0000_0000_0000_0000
                            + (self.limbs@[i as int] as nat),
                        rem < divisor,
                        self.limbs@[i as int] < 0x1_0000_0000_0000_0000,
                        divisor >= 1,
                        word_base() == 0x1_0000_0000_0000_0000,
                ;
            }
            let qi: u64 = (cur / (divisor as u128)) as u64;
            let new_rem: u64 = (cur % (divisor as u128)) as u64;
            let ghost out_before = out@;
            out[i] = qi;
            proof {
                let v = self.limbs@[i as int];
                assert(cur as nat == (rem as nat) * word_base() + v as nat);
                lemma_fundamental_div_mod(cur as int, divisor as int);
                assert((cur as nat) == (divisor as nat) * (qi as nat) + (new_rem as nat));
                let os = out@.skip(i as int);
                let osn = out_before.skip(i as int + 1);
                assert(out@.skip(i as int + 1) =~= osn);
                assert(os[0] == qi);
                assert(os.skip(1) =~= out@.skip(i as int + 1));
                let ys = self.limbs@.skip(i as int);
                assert(ys[0] == v);
                assert(ys.skip(1) =~= self.limbs@.skip(i as int + 1));
                assert(v as nat + word_base() * ((divisor as nat) * limbs_value(osn)
                    + rem as nat) == (divisor as nat) * (qi as nat + word_base() * limbs_value(
                    osn)) + new_rem as nat) by (nonlinear_arith)
                    requires
                        (rem as nat) * word_base() + (v as nat)
                            == (divisor as nat) * (qi as nat) + (new_rem as nat),
                ;
            }
            rem = new_rem;
        }
        proof {
            assert(out@.skip(0) =~= out@);
            assert(self.limbs@.skip(0) =~= self.limbs@);
            lemma_mul_is_commutative(divisor as int, limbs_value(out@) as int);
            vstd::arithmetic::div_mod::lemma_fundamental_div_mod_converse(
                self@ as int, divisor as int, limbs_value(out@) as int, rem as int);
        }
        let q = BigInt::from_limbs(out);
        let r = BigInt::from_u64(rem);
        Ok((q, r))
    }

    /// Quotient and remainder against a positive divisor, by bit-serial long
    /// division: shift a bit of the dividend into the running remainder and
    /// subtract the divisor whenever the remainder reaches it.
    pub(crate) fn div_rem_pos(&self, other: &BigInt) -> (r: (BigInt, BigInt))
        requires
            self.wf(),
            other.wf(),
            other@ > 0,
            self.word_count() <= usize::MAX / 128,
            other.word_count() <= usize::MAX / 128,
        ensures
            r.0.wf(),
            r.1.wf(),
            self@ == r.0@ * other@ + r.1@,
            r.1@ < other@,
            r.0@ == self@ / other@,
            r.1@ == self@ % other@,
            r.0.word_count() <= self.word_count(),
            r.1.word_count() <= other.word_count(),
    {
        if self.limbs.len() == 1 && other.limbs.len() == 1 {
            // both single words: direct machine division
            let av = self.limbs[0];
            let dv = other.limbs[0];
            proof {
                crate::limbs::lemma_lv_singleton(av);
                crate::limbs::lemma_lv_singleton(dv);
                assert(self.limbs@ =~= seq![av]);
                assert(other.limbs@ =~= seq![dv]);
                lemma_fundamental_div_mod(av as int, dv as int);
                lemma_mul_is_commutative(dv as int, (av as nat / dv as nat) as int);
            }
            return (BigInt::from_u64(av / dv), BigInt::from_u64(av % dv));
        }
        let n = self.limbs.len();
        let one = BigInt::from_u64(1);
        let mut q = BigInt::zero();
        let mut rem = BigInt::zero();
        let mut li: usize = n;
        proof {
            crate::bits::lemma_lv_bit_high(self.limbs@, (64 * (n as nat)) as nat);
        }
        while li > 0
            invariant
                li <= n,
                n == self.limbs@.len(),
                self.wf(),
                other.wf(),
                other@ > 0,
                one@ == 1,
                one.wf(),
                q.wf(),
                rem.wf(),
                self.word_count() <= usize::MAX / 128,
                other.word_count() <= usize::MAX / 128,
                self@ / pow2((64 * li) as nat) == q@ * other@ + rem@,
                rem@ < other@,
                q@ <= self@ / pow2((64 * li) as nat),
                q.word_count() <= self.word_count() + 1,
                rem.word_count() <= other.word_count(),
            decreases li,
        {
            li = li - 1;
            let limb: u64 = self.limbs[li];
            let mut pw: u64 = 0x8000_0000_0000_0000;
            let mut bi: usize = 64;
            proof {
                lemma2_to64();
                lemma2_to64_rest();
                assert(64 * li + 64 == 64 * (li + 1));
            }
            while bi > 0
                invariant
                    bi <= 64,
                    li < n,
                    n == self.limbs@.len(),
                    self.wf(),
                    other.wf(),
                    other@ > 0,
                    one@ == 1,
                    one.wf(),
                    q.wf(),
                    rem.wf(),
                    limb == self.limbs@[li as int],
                    self.word_count() <= usize::MAX / 128,
                    other.word_count() <= usize::MAX / 128,
                    bi > 0 ==> pw == pow2((bi - 1) as nat),
                    self@ / pow2((64 * li + bi) as nat) == q@ * other@ + rem@,
                    rem@ < other@,
                    q@ <= self@ / pow2((64 * li + bi) as nat),
                    q.word_count() <= self.word_count() + 1,
                    rem.word_count() <= other.word_count(),
                decreases bi,
            {
                bi = bi - 1;
                let ghost t = (64 * li + bi) as nat;
                proof {
                    lemma_pow2_pos(bi as nat);
                }
                let bit: bool = (limb / pw) % 2 == 1;
                proof {
                    lemma_lv_bit(self.limbs@, li as nat, bi as nat);
                    assert(nat_bit(self@, t) == bit);
                    lemma_div_bit_step(self@, t);
                }
                let ghost h_prev = self@ / pow2(t + 1);
                let ghost h = self@ / pow2(t);
                let mut rem2 = rem.add(&rem);
                if bit {
                    rem2 = rem2.add(&one);
                }
                let mut q2 = q.add(&q);
                proof {
                    assert(h == 2 * h_prev + if bit {
                        1nat
                    } else {
                        0nat
                    });
                    assert(rem2@ == 2 * rem@ + if bit {
                        1nat
                    } else {
                        0nat
                    });
                    assert(q2@ == 2 * q@);
                    assert(h == q2@ * other@ + rem2@) by (nonlinear_arith)
                        requires
                            h_prev == q@ * other@ + rem@,
                            q2@ == 2 * q@,
                            h == 2 * h_prev + rem2@ - 2 * rem@,
                    ;
                }
                if !rem2.less_than(other) {
                    rem2 = rem2.sub_nn(other);
                    q2 = q2.add(&one);
                    proof {
                        assert(h == q2@ * other@ + rem2@) by (nonlinear_arith)
                            requires
                                h == (q2@ - 1) * other@ + rem2@ + other@,
                        ;
                    }
                }
                proof {
                    // the quotient so far cannot out-size the dividend
                    assert(q2@ <= h) by (nonlinear_arith)
                        requires
                            h == q2@ * other@ + rem2@,
                            other@ >= 1,
                            q2@ >= 0,
                            rem2@ >= 0,
                    ;
                    lemma_lv_bound(self.limbs@);
                    lemma_pow2_pos(t);
                    vstd::arithmetic::div_mod::lemma_div_is_ordered_by_denominator(
                        self@ as int, 1, pow2(t) as int);
                    vstd::arithmetic::div_mod::lemma_div_basics_1(self@ as int);
                    assert(h <= self@);
                    if q2.word_count() > self.word_count() + 1 {
                        crate::limbs::lemma_lv_lower(q2.limbs@);
                        crate::limbs::lemma_pb_increases(self.limbs@.len(),
                            (q2.word_count() - 1) as nat);
                        assert(false);
                    }
                    if rem2.word_count() > other.word_count() {
                        crate::limbs::lemma_lv_lower(rem2.limbs@);
                        lemma_lv_bound(other.limbs@);
                        if other.limbs@.len() < rem2.word_count() - 1 {
                            crate::limbs::lemma_pb_increases(other.limbs@.len(),
                                (rem2.word_count() - 1) as nat);
                        }
                        assert(false);
                    }
                    if bi > 0 {
                        vstd::arithmetic::power2::lemma_pow2_unfold(bi as nat);
                    }
                }
                q = q2;
                rem = rem2;
                if bi > 0 {
                    pw = pw / 2;
                }
            }
        }
        proof {
            assert(pow2(0) == 1) by {
                lemma2_to64();
            }
            vstd::arithmetic::div_mod::lemma_div_basics_1(self@ as int);
            assert(self@ / pow2(0) == self@);
            vstd::arithmetic::div_mod::lemma_fundamental_div_mod_converse(
                self@ as int, other@ as int, q@ as int, rem@ as int);
            if q.word_count() > self.word_count() {
                crate::limbs::lemma_lv_lower(q.limbs@);
                lemma_lv_bound(self.limbs@);
                if self.limbs@.len() < q.word_count() - 1 {
                    crate::limbs::lemma_pb_increases(self.limbs@.len(),
                        (q.word_count() - 1) as nat);
                }
                assert(false);
            }
        }
        (q, rem)
    }

    /// Quotient and remainder: `self == q * other + r` with `r < other`, or
    /// `DivisionByZero` for a zero divisor.
    pub fn div_rem(&self, other: &BigInt) -> (r: Result<(BigInt, BigInt), Error>)
        requires
            self.wf(),
            other.wf(),
            self.word_count() <= usize::MAX / 128,
            other.word_count() <= usize::MAX / 128,
        ensures
            other@ == 0 ==> r == Err::<(BigInt, BigInt), Error>(Error::DivisionByZero),
            other@ > 0 ==> (r matches Ok(qr) && qr.0.wf() && qr.1.wf()
                && self@ == qr.0@ * other@ + qr.1@ && qr.1@ < other@
                && qr.0@ == self@ / other@ && qr.1@ == self@ % other@
                && qr.0.word_count() <= self.word_count()
                && qr.1.word_count() <= other.word_count()),
    {
        if other.is_zero() {
            return Err(Error::DivisionByZero);
        }
        if other.limbs.len() == 1 {
            // single-word divisor: word-at-a-time fast path
            let d = other.limbs[0];
            proof {
                crate::limbs::lemma_lv_singleton(d);
                assert(other.limbs@ =~= seq![d]);
            }
            match self.div_rem_u64(d) {
                Ok(qr) => {
                    proof {
                        lemma_fundamental_div_mod(self@ as int, d as int);
                        lemma_mul_is_commutative(d as int, (self@ / (d as nat)) as int);
                        vstd::arithmetic::div_mod::lemma_mod_bound(self@ as int, d as int);
                        lemma_mul_is_commutative(d as int, (self@ / (d as nat)) as int);
                    }
                    Ok(qr)
                },
                Err(e) => {
                    proof {
                        assert(false);
                    }
                    Err(e)
                },
            }
        } else {
            Ok(self.div_rem_pos(other))
        }
    }
}

} // verus!
