//! The multi-precision unsigned integer type: a canonical little-endian
//! vector of 64-bit words.

use vstd::prelude::*;
use vstd::arithmetic::power2::{pow2, lemma_pow2_adds, lemma_pow2_pos, lemma_pow2_unfold,
    lemma2_to64, lemma_pow2_strictly_increases};
use vstd::arithmetic::div_mod::{lemma_div_multiples_vanish, lemma_div_denominator,
    lemma_mod_multiples_vanish, lemma_fundamental_div_mod};
use crate::limbs::{word_base, pb, limbs_value, lemma_pb_zero, lemma_pb_unfold, lemma_pb_pos,
    lemma_pb_adds, lemma_pb_increases, lemma_lv_push, lemma_lv_bound, lemma_lv_split,
    lemma_lv_zeros, lemma_lv_lower, lemma_lv_drop_last_zero, lemma_lv_singleton, lemma_lv_lex};

verus! {

/// A multi-precision unsigned integer, stored as 64-bit words with the least
/// significant word first. Canonical form: no trailing zero words, except
/// that the value zero is exactly one zero word.
#[derive(Debug)]
pub struct BigInt {
    pub(crate) limbs: Vec<u64>,
}

impl View for BigInt {
    type V = nat;

    open(crate) spec fn view(&self) -> nat {
        limbs_value(self.limbs@)
    }
}

impl BigInt {
    /// Canonical-form invariant.
    pub open(crate) spec fn wf(&self) -> bool {
        self.limbs@.len() >= 1 && (self.limbs@.len() == 1 || self.limbs@.last() != 0)
    }

    /// How many words the representation holds.
    pub open(crate) spec fn word_count(&self) -> nat {
        self.limbs@.len()
    }

    /// The value zero.
    pub fn new() -> (r: BigInt)
        ensures
            r.wf(),
            r@ == 0,
            r.word_count() == 1,
    {
        let mut limbs: Vec<u64> = Vec::new();
        limbs.push(0);
        proof {
            assert(limbs@ =~= seq![0u64]);
            lemma_lv_singleton(0);
        }
        BigInt { limbs }
    }

    /// The value zero.
    pub fn zero() -> (r: BigInt)
        ensures
            r.wf(),
            r@ == 0,
            r.word_count() == 1,
    {
        BigInt::new()
    }

    /// A single-word value.
    pub fn from_u64(v: u64) -> (r: BigInt)
        ensures
            r.wf(),
            r@ == v,
            r.word_count() == 1,
    {
        let mut limbs: Vec<u64> = Vec::new();
        limbs.push(v);
        proof {
            assert(limbs@ =~= seq![v]);
            lemma_lv_singleton(v);
        }
        BigInt { limbs }
    }

    /// Wrap a word vector, trimming trailing zero words into canonical form.
    pub(crate) fn from_limbs(limbs: Vec<u64>) -> (r: BigInt)
        ensures
            r.wf(),
            r@ == limbs_value(limbs@),
            limbs@.len() >= 1 ==> r.word_count() <= limbs@.len(),
            limbs@.len() >= 1 && limbs@.last() != 0 ==> r.limbs@ == limbs@,
            limbs@.len() == 0 ==> r.word_count() == 1,
            r.word_count() >= 1,
    {
        let mut w = limbs;
        if w.len() == 0 {
            w.push(0);
            proof {
                assert(w@ =~= seq![0u64]);
                lemma_lv_singleton(0);
                assert(limbs_value(limbs@) == 0);
            }
        }
        while w.len() > 1 && w[w.len() - 1] == 0
            invariant
                w@.len() >= 1,
                limbs@.len() >= 1 ==> w@.len() <= limbs@.len(),
                limbs@.len() == 0 ==> w@.len() == 1,
                limbs@.len() >= 1 && limbs@.last() != 0 ==> w@ == limbs@,
                limbs_value(w@) == limbs_value(limbs@),
            decreases w@.len(),
        {
            proof {
                lemma_lv_drop_last_zero(w@);
            }
            w.pop();
        }
        BigInt { limbs: w }
    }

    /// A canonical value below `pb(k)` needs at most `k` words.
    pub proof fn lemma_wc_bound(&self, k: nat)
        requires
            self.wf(),
            self@ < pb(k),
            k >= 1,
        ensures
            self.word_count() <= k,
    {
        if self.word_count() > k {
            lemma_lv_lower(self.limbs@);
            if k < self.limbs@.len() - 1 {
                lemma_pb_increases(k, (self.limbs@.len() - 1) as nat);
            }
            assert(false);
        }
    }

    /// Whether the value is zero.
    pub fn is_zero(&self) -> (r: bool)
        requires
            self.wf(),
        ensures
            r == (self@ == 0),
    {
        proof {
            if self.limbs@.len() == 1 {
                lemma_lv_singleton(self.limbs@[0]);
                assert(self.limbs@ =~= seq![self.limbs@[0]]);
            } else {
                lemma_lv_lower(self.limbs@);
                lemma_pb_pos((self.limbs@.len() - 1) as nat);
            }
        }
        self.limbs.len() == 1 && self.limbs[0] == 0
    }

    /// Whether `self` is strictly below `other`.
    pub fn less_than(&self, other: &BigInt) -> (r: bool)
        requires
            self.wf(),
            other.wf(),
        ensures
            r == (self@ < other@),
    {
        let la = self.limbs.len();
        let lb = other.limbs.len();
        if la != lb {
            proof {
                let (small, big) = if la < lb {
                    (self.limbs@, other.limbs@)
                } else {
                    (other.limbs@, self.limbs@)
                };
                lemma_lv_bound(small);
                lemma_lv_lower(big);
                if small.len() < big.len() - 1 {
                    lemma_pb_increases(small.len(), (big.len() - 1) as nat);
                }
            }
            return la < lb;
        }
        let mut i: usize = la;
        while i > 0
            invariant
                i <= la,
                la == self.limbs@.len(),
                la == other.limbs@.len(),
                forall|j: int| i <= j < la ==> self.limbs@[j] == other.limbs@[j],
            decreases i,
        {
            i = i - 1;
            if self.limbs[i] != other.limbs[i] {
                proof {
                    if self.limbs@[i as int] < other.limbs@[i as int] {
                        lemma_lv_lex(self.limbs@, other.limbs@, i as int);
                    } else {
                        lemma_lv_lex(other.limbs@, self.limbs@, i as int);
                    }
                }
                return self.limbs[i] < other.limbs[i];
            }
        }
        proof {
            assert(self.limbs@ =~= other.limbs@);
        }
        false
    }

    /// Whether `self` and `other` hold the same value.
    pub fn equals(&self, other: &BigInt) -> (r: bool)
        requires
            self.wf(),
            other.wf(),
        ensures
            r == (self@ == other@),
    {
        !self.less_than(other) && !other.less_than(self)
    }
}

} // verus!
