//! Multiplication: schoolbook rows with a double-width accumulator, and
//! Karatsuba's three-product recursion above a word-count threshold.

use vstd::prelude::*;
use vstd::arithmetic::power2::pow2;
use crate::limbs::{word_base, pb, limbs_value, word_at, lv_take, lemma_pb_zero, lemma_pb_unfold,
    lemma_pb_pos, lemma_pb_adds, lemma_lv_bound, lemma_lv_take_zero, lemma_lv_take_all,
    lemma_lv_take_step, lemma_lv_zeros, lemma_lv_split, lemma_lv_update, lemma_lv_push};
use crate::bigint::BigInt;

verus! {

/// Words above the threshold take the Karatsuba recursion; at or below it,
/// the schoolbook routine.
pub(crate) const KARATSUBA_THRESHOLD: usize = 32;

impl BigInt {
    /// Schoolbook multiplication: every word pair's product accumulated at
    /// its weight through a 128-bit intermediate.
    pub fn standard_mul(&self, other: &BigInt) -> (r: BigInt)
        requires
            self.wf(),
            other.wf(),
            self.word_count() + other.word_count() <= usize::MAX,
        ensures
            r.wf(),
            r@ == self@ * other@,
            r.word_count() <= self.word_count() + other.word_count(),
    {
        let a = &self.limbs;
        let b = &other.limbs;
        let n = a.len();
        let m = b.len();
        let mut out: Vec<u64> = Vec::new();
        let mut z: usize = 0;
        while z < n + m
            invariant
                z <= n + m,
                n + m <= usize::MAX,
                out@.len() == z,
                forall|k: int| 0 <= k < z ==> out@[k] == 0,
            decreases n + m - z,
        {
            out.push(0);
            z = z + 1;
        }
        proof {
            lemma_lv_zeros(out@);
            lemma_lv_take_zero(a@);
            lemma_pb_zero();
        }
        let mut i: usize = 0;
        while i < n
            invariant
                i <= n,
                n == a@.len(),
                m == b@.len(),
                n + m <= usize::MAX,
                out@.len() == n + m,
                forall|k: int| i + m <= k < n + m ==> out@[k] == 0,
                limbs_value(out@) == lv_take(a@, i as int) * limbs_value(b@),
            decreases n - i,
        {
            let ghost row0 = limbs_value(out@);
            let ai: u64 = a[i];
            let mut carry: u64 = 0;
            let mut j: usize = 0;
            proof {
                lemma_lv_take_zero(b@);
                lemma_pb_zero();
                assert(lv_take(b@, 0) == 0);
                assert((ai as nat) * lv_take(b@, 0) * pb(i as nat) == 0) by (nonlinear_arith)
                    requires
                        lv_take(b@, 0) == 0,
                ;
            }
            while j < m
                invariant
                    j <= m,
                    i < n,
                    n == a@.len(),
                    m == b@.len(),
                    n + m <= usize::MAX,
                    ai == a@[i as int],
                    out@.len() == n + m,
                    forall|k: int| i + m <= k < n + m ==> out@[k] == 0,
                    limbs_value(out@) + (carry as nat) * pb((i + j) as nat)
                        == row0 + (ai as nat) * lv_take(b@, j as int) * pb(i as nat),
                decreases m - j,
            {
                let bj: u64 = b[j];
                let prev: u64 = out[i + j];
                proof {
                    assert((ai as nat) * (bj as nat) + (prev as nat) + (carry as nat)
                        < 0x1_0000_0000_0000_0000_0000_0000_0000_0000) by (nonlinear_arith)
                        requires
                            ai < 0x1_0000_0000_0000_0000,
                            bj < 0x1_0000_0000_0000_0000,
                            prev < 0x1_0000_0000_0000_0000,
                            carry < 0x1_0000_0000_0000_0000,
                    ;
                }
                let t: u128 = (ai as u128) * (bj as u128) + prev as u128 + carry as u128;
                let low: u64 = (t % 0x1_0000_0000_0000_0000) as u64;
                let new_carry: u64 = (t / 0x1_0000_0000_0000_0000) as u64;
                let ghost before = out@;
                out[i + j] = low;
                proof {
                    let p = pb((i + j) as nat);
                    assert(t as nat == (ai as nat) * (bj as nat) + prev as nat + carry as nat);
                    assert(t as nat == low as nat + word_base() * (new_carry as nat));
                    lemma_lv_update(before, (i + j) as nat, low);
                    lemma_pb_unfold((i + j) as nat);
                    lemma_lv_take_step(b@, j as int);
                    assert(word_at(b@, j as int) == bj);
                    lemma_pb_adds(i as nat, j as nat);
                    // redistribute the 128-bit product across word and carry
                    assert(limbs_value(out@) + (new_carry as nat) * pb((i + j + 1) as nat)
                        == limbs_value(before) + (carry as nat) * p
                            + (ai as nat) * (bj as nat) * p) by (nonlinear_arith)
                        requires
                            limbs_value(out@) + p * (before[(i + j) as int] as nat)
                                == limbs_value(before) + p * (low as nat),
                            (ai as nat) * (bj as nat) + (before[(i + j) as int] as nat)
                                + (carry as nat) == low as nat + word_base() * (new_carry as nat),
                            pb((i + j + 1) as nat) == p * word_base(),
                            prev == before[(i + j) as int],
                    ;
                    // and fold it into the running row total
                    assert((ai as nat) * (lv_take(b@, j as int) + (bj as nat) * pb(j as nat))
                        * pb(i as nat) == (ai as nat) * lv_take(b@, j as int) * pb(i as nat)
                            + (ai as nat) * (bj as nat) * (pb(i as nat) * pb(j as nat)))
                        by (nonlinear_arith);
                }
                carry = new_carry;
                j = j + 1;
            }
            let ghost before_top = out@;
            out[i + m] = carry;
            proof {
                lemma_lv_update(before_top, (i + m) as nat, carry);
                assert(before_top[(i + m) as int] == 0);
                assert(limbs_value(out@) == limbs_value(before_top)
                    + pb((i + m) as nat) * (carry as nat));
                assert(limbs_value(before_top) + (carry as nat) * pb((i + m) as nat)
                    == row0 + (ai as nat) * lv_take(b@, m as int) * pb(i as nat));
                lemma_lv_take_all(b@, m as int);
                lemma_lv_take_step(a@, i as int);
                assert(word_at(a@, i as int) == ai);
                assert(lv_take(a@, i + 1) == lv_take(a@, i as int) + (ai as nat) * pb(i as nat));
                // close the row: the final carry lands at weight i + m
                assert((lv_take(a@, i as int) + (ai as nat) * pb(i as nat)) * limbs_value(b@)
                    == lv_take(a@, i as int) * limbs_value(b@)
                        + (ai as nat) * limbs_value(b@) * pb(i as nat)) by (nonlinear_arith);
                assert((ai as nat) * limbs_value(b@) * pb(i as nat)
                    == (ai as nat) * lv_take(b@, m as int) * pb(i as nat));
                assert(lv_take(a@, i + 1) * limbs_value(b@) == (lv_take(a@, i as int)
                    + (ai as nat) * pb(i as nat)) * limbs_value(b@)) by (nonlinear_arith)
                    requires
                        lv_take(a@, i + 1) == lv_take(a@, i as int) + (ai as nat) * pb(i as nat),
                ;
                assert((carry as nat) * pb((i + m) as nat)
                    == pb((i + m) as nat) * (carry as nat)) by (nonlinear_arith);
                assert(limbs_value(out@) == row0
                    + (ai as nat) * lv_take(b@, m as int) * pb(i as nat));
                assert(row0 == lv_take(a@, i as int) * limbs_value(b@));
                assert(limbs_value(out@) == lv_take(a@, i + 1) * limbs_value(b@));
            }
            i = i + 1;
        }
        proof {
            lemma_lv_take_all(a@, n as int);
        }
        BigInt::from_limbs(out)
    }

    /// Split into the low `n` words and the rest, so that
    /// `self == low + pb(n) * high`.
    pub(crate) fn split_at_limb(&self, n: usize) -> (r: (BigInt, BigInt))
        requires
            self.wf(),
        ensures
            r.0.wf(),
            r.1.wf(),
            self@ == r.0@ + pb(n as nat) * r.1@,
            r.0@ < pb(n as nat),
            r.0.word_count() <= if n >= 1 {
                n as nat
            } else {
                1
            },
            n < self.word_count() ==> r.1.word_count() == self.word_count() - n,
            n >= self.word_count() ==> r.1@ == 0 && r.1.word_count() == 1,
    {
        let len = self.limbs.len();
        let cut = if n < len {
            n
        } else {
            len
        };
        let mut low: Vec<u64> = Vec::new();
        let mut i: usize = 0;
        while i < cut
            invariant
                i <= cut,
                cut <= self.limbs@.len(),
                low@ =~= self.limbs@.take(i as int),
            decreases cut - i,
        {
            low.push(self.limbs[i]);
            proof {
                assert(low@ =~= self.limbs@.take(i + 1));
            }
            i = i + 1;
        }
        let mut high: Vec<u64> = Vec::new();
        let mut k: usize = cut;
        while k < len
            invariant
                cut <= k <= len,
                len == self.limbs@.len(),
                high@ =~= self.limbs@.subrange(cut as int, k as int),
            decreases len - k,
        {
            high.push(self.limbs[k]);
            proof {
                assert(high@ =~= self.limbs@.subrange(cut as int, k + 1));
            }
            k = k + 1;
        }
        proof {
            assert(high@ =~= self.limbs@.skip(cut as int));
            assert(low@ =~= self.limbs@.take(cut as int));
            lemma_lv_split(self.limbs@, cut as nat);
            lemma_lv_bound(self.limbs@.take(cut as int));
            assert(limbs_value(Seq::<u64>::empty()) == 0);
            if cut < n {
                // the whole value sits in the low part
                assert(self.limbs@.skip(cut as int) =~= Seq::<u64>::empty());
                lemma_lv_bound(self.limbs@);
                crate::limbs::lemma_pb_increases(cut as nat, n as nat);
                lemma_pb_pos(n as nat);
            }
            if cut == len {
                assert(self.limbs@.skip(cut as int) =~= Seq::<u64>::empty());
                assert(self.limbs@.take(cut as int) =~= self.limbs@);
            }
            if n < len {
                // the high part keeps the nonzero top word
                assert(high@.last() == self.limbs@.last());
            }
        }
        let lo = BigInt::from_limbs(low);
        let hi = BigInt::from_limbs(high);
        proof {
            if n < len {
                assert(hi.limbs@ == high@);
            }
            lemma_pb_pos(n as nat);
        }
        (lo, hi)
    }

    /// Karatsuba multiplication: split both operands at the midpoint word,
    /// form three sub-products, and recombine by shifted addition. Falls
    /// back to the schoolbook routine at or below the threshold.
    pub fn karatsuba_mul(&self, other: &BigInt) -> (r: BigInt)
        requires
            self.wf(),
            other.wf(),
            self.word_count() <= usize::MAX / 128,
            other.word_count() <= usize::MAX / 128,
        ensures
            r.wf(),
            r@ == self@ * other@,
            r.word_count() <= self.word_count() + other.word_count(),
        decreases (if self.word_count() >= other.word_count() {
            self.word_count()
        } else {
            other.word_count()
        }),
    {
        let n = self.limbs.len();
        let m = other.limbs.len();
        let len = if n >= m {
            n
        } else {
            m
        };
        if len <= KARATSUBA_THRESHOLD {
            return self.standard_mul(other);
        }
        let half = len / 2;
        let (low1, high1) = self.split_at_limb(half);
        let (low2, high2) = other.split_at_limb(half);
        proof {
            assert(low1.word_count() <= half && low2.word_count() <= half);
            assert(high1.word_count() <= len - half && high2.word_count() <= len - half);
        }
        let z0 = low1.karatsuba_mul(&low2);
        let z2 = high1.karatsuba_mul(&high2);
        let lh1 = low1.add(&high1);
        let lh2 = low2.add(&high2);
        proof {
            assert(lh1.word_count() <= len - half + 1 && lh2.word_count() <= len - half + 1);
            assert(len - half + 1 < len);
        }
        let z1full = lh1.karatsuba_mul(&lh2);
        proof {
            // (l1 + h1)(l2 + h2) covers l1 l2 + h1 h2
            assert(z1full@ >= z0@ + z2@ && z1full@ - z0@ - z2@
                == low1@ * high2@ + high1@ * low2@) by (nonlinear_arith)
                requires
                    z1full@ == (low1@ + high1@) * (low2@ + high2@),
                    z0@ == low1@ * low2@,
                    z2@ == high1@ * high2@,
            ;
        }
        let z1a = z1full.sub_nn(&z0);
        let z1 = z1a.sub_nn(&z2);
        let shift: usize = half * 64;
        let p1 = z2.shl(2 * shift);
        let p2 = z1.shl(shift);
        let r = p1.add(&p2).add(&z0);
        proof {
            let ph = pb(half as nat);
            lemma_pb_adds(half as nat, half as nat);
            assert(pow2((2 * shift) as nat) == pb((2 * half) as nat));
            assert(pow2(shift as nat) == pb(half as nat));
            // recombine the three sub-products
            assert(r@ == self@ * other@) by (nonlinear_arith)
                requires
                    r@ == z2@ * (ph * ph) + (low1@ * high2@ + high1@ * low2@) * ph + z0@,
                    z0@ == low1@ * low2@,
                    z2@ == high1@ * high2@,
                    self@ == low1@ + ph * high1@,
                    other@ == low2@ + ph * high2@,
            ;
            // the product of values below pb(n) and pb(m) fits in n + m words
            lemma_lv_bound(self.limbs@);
            lemma_lv_bound(other.limbs@);
            lemma_pb_adds(n as nat, m as nat);
            assert(self@ * other@ < pb((n + m) as nat)) by (nonlinear_arith)
                requires
                    self@ < pb(n as nat),
                    other@ < pb(m as nat),
                    pb((n + m) as nat) == pb(n as nat) * pb(m as nat),
            ;
            if r.word_count() > n + m {
                crate::limbs::lemma_lv_lower(r.limbs@);
                crate::limbs::lemma_pb_increases((n + m) as nat, (r.word_count() - 1) as nat);
                assert(false);
            }
        }
        r
    }

    /// The product of two values.
    pub fn mul(&self, other: &BigInt) -> (r: BigInt)
        requires
            self.wf(),
            other.wf(),
            self.word_count() <= usize::MAX / 128,
            other.word_count() <= usize::MAX / 128,
        ensures
            r.wf(),
            r@ == self@ * other@,
            r.word_count() <= self.word_count() + other.word_count(),
    {
        self.karatsuba_mul(other)
    }
}

} // verus!
