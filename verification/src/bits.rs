//! Single-bit queries and updates, and the bit length of a value.

use vstd::prelude::*;
use vstd::arithmetic::power2::{pow2, lemma_pow2_adds, lemma_pow2_pos, lemma_pow2_unfold,
    lemma2_to64, lemma2_to64_rest, lemma_pow2_strictly_increases};
use vstd::arithmetic::div_mod::{lemma_hoist_over_denominator, lemma_div_denominator,
    lemma_basic_div, lemma_mod_multiples_vanish, lemma_fundamental_div_mod};
use vstd::arithmetic::mul::lemma_mul_is_commutative;
use crate::limbs::{word_base, pb, limbs_value, lemma_pb_zero, lemma_pb_unfold, lemma_pb_pos,
    lemma_pb_adds, lemma_pb_increases, lemma_lv_bound, lemma_lv_split, lemma_lv_lower,
    lemma_lv_update};
use crate::bigint::BigInt;
use crate::arith::pow2_u64;

verus! {

/// Whether bit `i` of the value `v` is set.
pub open spec fn nat_bit(v: nat, i: nat) -> bool {
    (v / pow2(i)) % 2 == 1
}

/// Bit `64 * li + bi` of a word sequence's value is bit `bi` of word `li`.
pub proof fn lemma_lv_bit(s: Seq<u64>, li: nat, bi: nat)
    requires
        li < s.len(),
        bi < 64,
    ensures
        nat_bit(limbs_value(s), 64 * li + bi) == (((s[li as int] as nat) / pow2(bi)) % 2 == 1),
{
    let v = limbs_value(s);
    let lo = limbs_value(s.take(li as int));
    let y = limbs_value(s.skip(li as int));
    lemma_lv_split(s, li);
    lemma_lv_bound(s.take(li as int));
    lemma_pb_pos(li);
    // v / pb(li) == y
    lemma_mul_is_commutative(pb(li) as int, y as int);
    lemma_hoist_over_denominator(lo as int, y as int, pb(li));
    lemma_basic_div(lo as int, pb(li) as int);
    assert(v as int / (pb(li) as int) == y as int);
    // v / pow2(64 li + bi) == y / pow2(bi)
    lemma_pow2_pos(bi);
    lemma_div_denominator(v as int, pb(li) as int, pow2(bi) as int);
    lemma_pow2_adds(64 * li, bi);
    assert(v as int / (pow2(64 * li + bi) as int) == y as int / (pow2(bi) as int));
    // y == x + word_base() * rest
    let x = s[li as int];
    let rest = limbs_value(s.skip(li as int + 1));
    assert(s.skip(li as int)[0] == x);
    assert(s.skip(li as int).skip(1) =~= s.skip(li as int + 1));
    assert(y == x as nat + word_base() * rest);
    // y / pow2(bi) == x / pow2(bi) + pow2(64 - bi) * rest
    lemma_pow2_adds(bi, (64 - bi) as nat);
    lemma2_to64();
    assert(word_base() == pow2(64));
    let hi = pow2((64 - bi) as nat) * rest;
    assert(word_base() * rest == hi * pow2(bi)) by (nonlinear_arith)
        requires
            word_base() == pow2(bi) * pow2((64 - bi) as nat),
            hi == pow2((64 - bi) as nat) * rest,
    ;
    lemma_hoist_over_denominator(x as int, hi as int, pow2(bi));
    assert(y as int / (pow2(bi) as int) == (x as nat) / pow2(bi) + hi);
    // hi is even, so it vanishes under % 2
    lemma_pow2_unfold((64 - bi) as nat);
    let h2 = pow2((63 - bi) as nat) * rest;
    assert(hi == 2 * h2) by (nonlinear_arith)
        requires
            pow2((64 - bi) as nat) == 2 * pow2((63 - bi) as nat),
            hi == pow2((64 - bi) as nat) * rest,
            h2 == pow2((63 - bi) as nat) * rest,
    ;
    lemma_mod_multiples_vanish(h2 as int, ((x as nat) / pow2(bi)) as int, 2);
}

/// A value is below the weight of any word at or past its end.
pub proof fn lemma_lv_bit_high(s: Seq<u64>, i: nat)
    requires
        64 * s.len() <= i,
    ensures
        !nat_bit(limbs_value(s), i),
        limbs_value(s) / pow2(i) == 0,
{
    lemma_lv_bound(s);
    if 64 * s.len() < i {
        lemma_pow2_strictly_increases(64 * s.len(), i);
    }
    lemma_basic_div(limbs_value(s) as int, pow2(i) as int);
    lemma_pow2_pos(i);
}

/// Peeling one more bit off the high end of the remaining quotient.
pub proof fn lemma_div_bit_step(v: nat, t: nat)
    ensures
        v / pow2(t) == 2 * (v / pow2(t + 1)) + if nat_bit(v, t) {
            1nat
        } else {
            0nat
        },
{
    lemma_pow2_pos(t);
    lemma_pow2_unfold(t + 1);
    lemma_div_denominator(v as int, pow2(t) as int, 2);
    lemma_fundamental_div_mod((v / pow2(t)) as int, 2);
}

impl BigInt {
    /// Whether the bit at `index` (counting from the least significant) is set.
    pub fn test_bit(&self, index: usize) -> (r: bool)
        requires
            self.wf(),
        ensures
            r == nat_bit(self@, index as nat),
    {
        let li: usize = index / 64;
        let bi: usize = index % 64;
        if li >= self.limbs.len() {
            proof {
                assert(64 * self.limbs@.len() <= index) by (nonlinear_arith)
                    requires
                        self.limbs@.len() <= index / 64,
                        index >= 0,
                ;
                lemma_lv_bit_high(self.limbs@, index as nat);
            }
            return false;
        }
        let pw: u64 = pow2_u64(bi);
        proof {
            lemma_lv_bit(self.limbs@, li as nat, bi as nat);
            assert(64 * (li as nat) + (bi as nat) == index);
            lemma_pow2_pos(bi as nat);
        }
        (self.limbs[li] / pw) % 2 == 1
    }

    /// Set the bit at `index`, growing the representation if needed; the
    /// value gains `pow2(index)` unless the bit was already set.
    pub fn set_bit(&mut self, index: usize)
        requires
            old(self).wf(),
            index / 64 + 1 <= usize::MAX,
        ensures
            final(self).wf(),
            final(self)@ == if nat_bit(old(self)@, index as nat) {
                old(self)@
            } else {
                old(self)@ + pow2(index as nat)
            },
    {
        let li: usize = index / 64;
        let bi: usize = index % 64;
        let pw: u64 = pow2_u64(bi);
        let ghost orig = self.limbs@;
        if li >= self.limbs.len() {
            proof {
                assert(64 * self.limbs@.len() <= index) by (nonlinear_arith)
                    requires
                        self.limbs@.len() <= index / 64,
                        index >= 0,
                ;
                lemma_lv_bit_high(self.limbs@, index as nat);
            }
            while self.limbs.len() < li + 1
                invariant
                    li + 1 <= usize::MAX,
                    self.limbs@.len() <= li + 1,
                    self.limbs@.len() >= orig.len(),
                    orig.len() >= 1,
                    self.limbs@.take(orig.len() as int) =~= orig,
                    forall|j: int| orig.len() <= j < self.limbs@.len() ==> self.limbs@[j] == 0,
                    limbs_value(self.limbs@) == limbs_value(orig),
                decreases li + 1 - self.limbs@.len(),
            {
                proof {
                    crate::limbs::lemma_lv_push(self.limbs@, 0);
                }
                self.limbs.push(0);
                proof {
                    assert(self.limbs@.take(orig.len() as int) =~= orig);
                }
            }
        }
        let ghost before = self.limbs@;
        let limb = self.limbs[li];
        proof {
            lemma_pow2_pos(bi as nat);
            lemma_lv_bit(before, li as nat, bi as nat);
            assert(64 * (li as nat) + (bi as nat) == index);
        }
        let b: u64 = (limb / pw) % 2;
        if b == 0 {
            proof {
                // adding the bit's weight to the word cannot overflow it
                let q = (limb as nat) / pow2(bi as nat);
                let r = (limb as nat) % pow2(bi as nat);
                let half = pow2((64 - bi) as nat);
                lemma_fundamental_div_mod(limb as int, pow2(bi as nat) as int);
                vstd::arithmetic::div_mod::lemma_mod_bound(limb as int, pow2(bi as nat) as int);
                lemma_pow2_adds(bi as nat, (64 - bi) as nat);
                lemma2_to64();
                lemma_pow2_unfold((64 - bi) as nat);
                assert(limb + pw < word_base()) by (nonlinear_arith)
                    requires
                        pw == pow2(bi as nat),
                        pw >= 1,
                        limb as nat == pow2(bi as nat) * q + r,
                        r < pw,
                        q % 2 == 0,
                        half % 2 == 0,
                        limb < word_base(),
                        word_base() == pw * half,
                ;
            }
            let updated: u64 = limb + pw;
            self.limbs[li] = updated;
            proof {
                lemma_lv_update(before, li as nat, updated);
                lemma_pb_adds(li as nat, 0);
                // weight of the changed word times the added bit
                assert(pb(li as nat) * (updated as nat) == pb(li as nat) * (limb as nat)
                    + pb(li as nat) * (pw as nat)) by (nonlinear_arith)
                    requires
                        updated as nat == limb as nat + pw as nat,
                ;
                lemma_pow2_adds(64 * (li as nat), bi as nat);
                assert(pb(li as nat) * (pw as nat) == pow2(index as nat));
                // canonical form: the top word is nonzero
                if li + 1 == self.limbs@.len() && self.limbs@.len() > 1 {
                    assert(self.limbs@.last() == updated);
                    assert(updated != 0);
                }
                if li + 1 < self.limbs@.len() {
                    assert(self.limbs@.last() == before.last());
                }
            }
        } else {
            proof {
                if self.limbs@.len() > orig.len() {
                    // the grown top word is zero, so the probed bit was zero
                    assert(before[li as int] == 0);
                    lemma_basic_div(0, pow2(bi as nat) as int);
                    assert(false);
                }
                assert(self.limbs@ == orig);
            }
        }
    }

    /// The bit length: zero for zero, else one more than the position of the
    /// highest set bit.
    pub fn bit_len(&self) -> (r: usize)
        requires
            self.wf(),
            self.word_count() * 64 <= usize::MAX,
        ensures
            self@ < pow2(r as nat),
            self@ > 0 ==> r > 0 && self@ >= pow2((r - 1) as nat),
            r == 0 <==> self@ == 0,
    {
        if self.is_zero() {
            proof {
                lemma2_to64();
            }
            return 0;
        }
        let n = self.limbs.len();
        let top: u64 = self.limbs[n - 1];
        proof {
            if top == 0 {
                if n == 1 {
                    crate::limbs::lemma_lv_singleton(top);
                    assert(self.limbs@ =~= seq![top]);
                    assert(false);
                } else {
                    assert(false);
                }
            }
        }
        let mut x: u64 = top;
        let mut c: usize = 0;
        proof {
            lemma2_to64();
        }
        while x > 0
            invariant
                top != 0,
                (x as nat) * pow2(c as nat) <= top,
                top < (x as nat + 1) * pow2(c as nat),
                c > 0 ==> top >= pow2((c - 1) as nat),
                c <= 64,
            decreases x,
        {
            proof {
                let p = pow2(c as nat);
                lemma_pow2_pos(c as nat);
                lemma_pow2_unfold((c + 1) as nat);
                assert(((x as nat / 2) * (2 * p) <= (x as nat) * p)
                    && ((x as nat + 1) * p <= (x as nat / 2 + 1) * (2 * p))
                    && (pow2(c as nat) <= (x as nat) * pow2(c as nat))) by (nonlinear_arith)
                    requires
                        x >= 1,
                        p >= 1,
                ;
                if c + 1 > 64 {
                    // impossible: the word would then exceed its width
                    lemma2_to64();
                    assert(false);
                }
            }
            x = x / 2;
            c = c + 1;
        }
        proof {
            assert(x == 0);
            if c == 0 {
                assert(top < (0 + 1) * pow2(0));
                assert(false);
            }
            assert((top as nat) < pow2(c as nat)) by (nonlinear_arith)
                requires
                    (top as nat) < (x as nat + 1) * pow2(c as nat),
                    x == 0,
            ;
            let ln = self.limbs@.len();
            let lo = limbs_value(self.limbs@.take(ln - 1));
            let y = limbs_value(self.limbs@.skip(ln - 1));
            lemma_lv_split(self.limbs@, (ln - 1) as nat);
            lemma_lv_bound(self.limbs@.take(ln - 1));
            assert(self.limbs@.skip(ln - 1) =~= seq![top]);
            crate::limbs::lemma_lv_singleton(top);
            assert(c >= 1);
            lemma_pow2_adds(64 * ((ln - 1) as nat), c as nat);
            lemma_pow2_adds(64 * ((ln - 1) as nat), (c - 1) as nat);
            let p = pb((ln - 1) as nat);
            // upper bound
            assert(lo + p * (top as nat) < p * pow2(c as nat)) by (nonlinear_arith)
                requires
                    lo < p,
                    (top as nat) < pow2(c as nat),
                    p >= 1,
            ;
            // lower bound
            assert(p * (top as nat) >= p * pow2((c - 1) as nat)) by (nonlinear_arith)
                requires
                    (top as nat) >= pow2((c - 1) as nat),
                    p >= 1,
            ;
            lemma_pb_pos((ln - 1) as nat);
            assert((ln - 1) * 64 + c <= ln * 64);
        }
        (n - 1) * 64 + c
    }
}

} // verus!
