//! Addition, subtraction and bit shifts. Sums and differences run over the
//! words with a double-width accumulator that absorbs carries and borrows.

use vstd::prelude::*;
use vstd::arithmetic::power2::{pow2, lemma_pow2_adds, lemma_pow2_pos, lemma_pow2_unfold,
    lemma2_to64, lemma_pow2_strictly_increases};
use vstd::arithmetic::div_mod::{lemma_fundamental_div_mod, lemma_hoist_over_denominator,
    lemma_div_denominator, lemma_basic_div};
use crate::limbs::{word_base, pb, limbs_value, word_at, lv_take, lemma_pb_zero, lemma_pb_unfold,
    lemma_pb_pos, lemma_pb_adds, lemma_lv_bound, lemma_lv_take_zero, lemma_lv_take_all,
    lemma_lv_take_step, lemma_lv_zeros, lemma_lv_split};
use crate::bigint::BigInt;
use crate::Error;

verus! {

/// 2 to the `e`-th power as a word, for exponents below the word width.
pub(crate) fn pow2_u64(e: usize) -> (r: u64)
    requires
        e <= 63,
    ensures
        r == pow2(e as nat),
{
    let mut r: u64 = 1;
    let mut k: usize = 0;
    proof {
        lemma2_to64();
    }
    while k < e
        invariant
            k <= e,
            e <= 63,
            r == pow2(k as nat),
        decreases e - k,
    {
        proof {
            lemma_pow2_unfold((k + 1) as nat);
            if k + 1 < 64 {
                lemma_pow2_strictly_increases((k + 1) as nat, 64);
            }
            lemma2_to64();
        }
        r = r * 2;
        k = k + 1;
    }
    r
}

impl BigInt {
    /// The sum of two values.
    pub fn add(&self, other: &BigInt) -> (r: BigInt)
        requires
            self.wf(),
            other.wf(),
        ensures
            r.wf(),
            r@ == self@ + other@,
            r.word_count() <= (if self.word_count() >= other.word_count() {
                self.word_count()
            } else {
                other.word_count()
            }) + 1,
    {
        let a = &self.limbs;
        let b = &other.limbs;
        let n = if a.len() >= b.len() {
            a.len()
        } else {
            b.len()
        };
        let mut out: Vec<u64> = Vec::new();
        let mut carry: u64 = 0;
        let mut i: usize = 0;
        proof {
            lemma_lv_take_zero(a@);
            lemma_lv_take_zero(b@);
            lemma_pb_zero();
        }
        while i < n
            invariant
                i <= n,
                n == if a@.len() >= b@.len() {
                    a@.len()
                } else {
                    b@.len()
                },
                out@.len() == i,
                carry <= 1,
                limbs_value(out@) + (carry as nat) * pb(i as nat) == lv_take(a@, i as int)
                    + lv_take(b@, i as int),
            decreases n - i,
        {
            let av: u64 = if i < a.len() {
                a[i]
            } else {
                0
            };
            let bv: u64 = if i < b.len() {
                b[i]
            } else {
                0
            };
            let sum: u128 = av as u128 + bv as u128 + carry as u128;
            let low: u64 = (sum % 0x1_0000_0000_0000_0000) as u64;
            let new_carry: u64 = (sum / 0x1_0000_0000_0000_0000) as u64;
            proof {
                let p = pb(i as nat);
                assert(sum as nat == low as nat + word_base() * (new_carry as nat));
                crate::limbs::lemma_lv_push(out@, low);
                lemma_lv_take_step(a@, i as int);
                lemma_lv_take_step(b@, i as int);
                lemma_pb_unfold(i as nat);
                assert(word_at(a@, i as int) == av);
                assert(word_at(b@, i as int) == bv);
                assert((low as nat) * p + (new_carry as nat) * (p * word_base())
                    == (low as nat + word_base() * (new_carry as nat)) * p) by (nonlinear_arith);
                assert((av as nat + bv as nat + carry as nat) * p
                    == (av as nat) * p + (bv as nat) * p + (carry as nat) * p)
                    by (nonlinear_arith);
            }
            out.push(low);
            carry = new_carry;
            i = i + 1;
        }
        proof {
            lemma_lv_take_all(a@, n as int);
            lemma_lv_take_all(b@, n as int);
            assert(limbs_value(out@) + (carry as nat) * pb(n as nat)
                == limbs_value(a@) + limbs_value(b@));
        }
        if carry > 0 {
            proof {
                crate::limbs::lemma_lv_push(out@, carry);
            }
            out.push(carry);
            proof {
                assert(limbs_value(out@) == limbs_value(a@) + limbs_value(b@));
            }
        }
        BigInt::from_limbs(out)
    }

    /// The difference of two values; the minuend must not be smaller.
    pub(crate) fn sub_nn(&self, other: &BigInt) -> (r: BigInt)
        requires
            self.wf(),
            other.wf(),
            other@ <= self@,
        ensures
            r.wf(),
            r@ == self@ - other@,
            r.word_count() <= self.word_count(),
    {
        let a = &self.limbs;
        let b = &other.limbs;
        let n = a.len();
        proof {
            // b has no words above a's: otherwise its value would exceed a's
            if b@.len() > a@.len() {
                crate::limbs::lemma_lv_lower(b@);
                lemma_lv_bound(a@);
                crate::limbs::lemma_pb_increases(a@.len(), (b@.len() - 1) as nat);
                assert(false);
            }
            lemma_lv_take_zero(a@);
            lemma_lv_take_zero(b@);
            lemma_pb_zero();
        }
        let mut out: Vec<u64> = Vec::new();
        let mut borrow: u64 = 0;
        let mut i: usize = 0;
        while i < n
            invariant
                i <= n,
                n == a@.len(),
                b@.len() <= a@.len(),
                out@.len() == i,
                borrow <= 1,
                limbs_value(out@) + lv_take(b@, i as int) == lv_take(a@, i as int)
                    + (borrow as nat) * pb(i as nat),
            decreases n - i,
        {
            let av: u64 = a[i];
            let bv: u64 = if i < b.len() {
                b[i]
            } else {
                0
            };
            let d: i128 = av as i128 - bv as i128 - borrow as i128;
            let low: u64;
            let new_borrow: u64;
            if d < 0 {
                low = (d + 0x1_0000_0000_0000_0000) as u64;
                new_borrow = 1;
            } else {
                low = d as u64;
                new_borrow = 0;
            }
            proof {
                let p = pb(i as nat);
                assert(low as int == av as int - bv as int - borrow as int
                    + (new_borrow as int) * (word_base() as int));
                crate::limbs::lemma_lv_push(out@, low);
                lemma_lv_take_step(a@, i as int);
                lemma_lv_take_step(b@, i as int);
                lemma_pb_unfold(i as nat);
                assert(word_at(a@, i as int) == av);
                assert(word_at(b@, i as int) == bv);
                assert((low as int) * p == (av as int) * p - (bv as int) * p
                    - (borrow as int) * p + (new_borrow as int) * (p * word_base()))
                    by (nonlinear_arith)
                    requires
                        low as int == av as int - bv as int - borrow as int
                            + (new_borrow as int) * (word_base() as int),
                        p == pb(i as nat),
                ;
            }
            out.push(low);
            borrow = new_borrow;
            i = i + 1;
        }
        proof {
            lemma_lv_take_all(a@, n as int);
            lemma_lv_take_all(b@, n as int);
            if borrow != 0 {
                lemma_lv_bound(out@);
                assert(false);
            }
        }
        BigInt::from_limbs(out)
    }

    /// Shift left by an arbitrary bit count: whole words of zeros below,
    /// then a sub-word shift with carries between words.
    pub fn shl(&self, shift: usize) -> (r: BigInt)
        requires
            self.wf(),
            shift / 64 + self.word_count() + 1 <= usize::MAX,
        ensures
            r.wf(),
            r@ == self@ * pow2(shift as nat),
            r.word_count() <= shift / 64 + self.word_count() + 1,
    {
        let ws: usize = shift / 64;
        let bs: usize = shift % 64;
        let pw: u64 = pow2_u64(bs);
        let a = &self.limbs;
        let n = a.len();
        let mut out: Vec<u64> = Vec::new();
        let mut i: usize = 0;
        while i < ws
            invariant
                i <= ws,
                out@.len() == i,
                forall|j: int| 0 <= j < i ==> out@[j] == 0,
            decreases ws - i,
        {
            out.push(0);
            i = i + 1;
        }
        proof {
            lemma_lv_zeros(out@);
            lemma_lv_take_zero(a@);
            lemma_pow2_pos(bs as nat);
            if (bs as nat) < 63 {
                lemma_pow2_strictly_increases(bs as nat, 63);
            }
            vstd::arithmetic::power2::lemma2_to64_rest();
        }
        let mut carry: u64 = 0;
        let mut k: usize = 0;
        while k < n
            invariant
                k <= n,
                n == a@.len(),
                out@.len() == ws + k,
                carry < pw,
                pw == pow2(bs as nat),
                pw <= 0x8000_0000_0000_0000,
                bs <= 63,
                limbs_value(out@) + (carry as nat) * pb((ws + k) as nat)
                    == pow2(bs as nat) * pb(ws as nat) * lv_take(a@, k as int),
            decreases n - k,
        {
            let v: u64 = a[k];
            proof {
                assert((v as nat) * (pw as nat) + (carry as nat)
                    < 0x1_0000_0000_0000_0000_0000_0000_0000_0000) by (nonlinear_arith)
                    requires
                        v < 0x1_0000_0000_0000_0000,
                        pw <= 0x8000_0000_0000_0000,
                        carry < pw,
                ;
            }
            let t: u128 = (v as u128) * (pw as u128) + carry as u128;
            let low: u64 = (t % 0x1_0000_0000_0000_0000) as u64;
            let new_carry: u64 = (t / 0x1_0000_0000_0000_0000) as u64;
            proof {
                let p = pb((ws + k) as nat);
                let q = pow2(bs as nat) * pb(ws as nat);
                assert(t as nat == low as nat + word_base() * (new_carry as nat));
                assert(new_carry < pw) by (nonlinear_arith)
                    requires
                        t as nat == (v as nat) * (pw as nat) + carry as nat,
                        new_carry as nat == t as nat / word_base(),
                        word_base() == 0x1_0000_0000_0000_0000,
                        v < word_base(),
                        carry < pw,
                        pw >= 1,
                ;
                crate::limbs::lemma_lv_push(out@, low);
                lemma_lv_take_step(a@, k as int);
                lemma_pb_unfold((ws + k) as nat);
                assert(word_at(a@, k as int) == v);
                // the pushed word and the new carry redistribute t at weight p
                assert((low as nat) * p + (new_carry as nat) * (p * word_base())
                    == ((v as nat) * (pw as nat) + carry as nat) * p) by (nonlinear_arith)
                    requires
                        (v as nat) * (pw as nat) + carry as nat
                            == low as nat + word_base() * (new_carry as nat),
                ;
                lemma_pb_adds(ws as nat, k as nat);
                // and t's contribution matches the specification's step
                assert(q * (lv_take(a@, k as int) + (v as nat) * pb(k as nat))
                    == q * lv_take(a@, k as int) + (pw as nat) * (v as nat) * p) by (nonlinear_arith)
                    requires
                        q == pow2(bs as nat) * pb(ws as nat),
                        pw == pow2(bs as nat),
                        p == pb((ws + k) as nat),
                        pb((ws + k) as nat) == pb(ws as nat) * pb(k as nat),
                ;
                assert((pw as nat) * (v as nat) * p == (v as nat) * (pw as nat) * p)
                    by (nonlinear_arith);
                assert(((v as nat) * (pw as nat) + (carry as nat)) * p
                    == (pw as nat) * (v as nat) * p + (carry as nat) * p) by (nonlinear_arith);
            }
            out.push(low);
            carry = new_carry;
            k = k + 1;
        }
        proof {
            crate::limbs::lemma_lv_push(out@, carry);
            lemma_lv_take_all(a@, n as int);
        }
        out.push(carry);
        proof {
            lemma_pow2_adds(bs as nat, (64 * ws) as nat);
            assert(bs + 64 * ws == shift);
            assert(pow2(bs as nat) * pb(ws as nat) * limbs_value(a@)
                == limbs_value(a@) * (pow2(bs as nat) * pb(ws as nat))) by (nonlinear_arith);
        }
        BigInt::from_limbs(out)
    }

    /// Shift right by an arbitrary bit count: drop whole words, then divide
    /// the rest by the sub-word power of two, propagating remainders down.
    pub fn shr(&self, shift: usize) -> (r: BigInt)
        requires
            self.wf(),
        ensures
            r.wf(),
            r@ == self@ / pow2(shift as nat),
    {
        let ws: usize = shift / 64;
        let bs: usize = shift % 64;
        let a = &self.limbs;
        let n = a.len();
        proof {
            lemma_pow2_pos(shift as nat);
        }
        if ws >= n {
            proof {
                lemma_lv_bound(a@);
                if a@.len() < ws {
                    crate::limbs::lemma_pb_increases(a@.len(), ws as nat);
                }
                lemma_pow2_adds((64 * ws) as nat, bs as nat);
                lemma_pow2_pos(bs as nat);
                assert(pb(ws as nat) <= pow2(shift as nat)) by (nonlinear_arith)
                    requires
                        pow2(shift as nat) == pb(ws as nat) * pow2(bs as nat),
                        pow2(bs as nat) >= 1,
                        pb(ws as nat) >= 0,
                ;
                lemma_basic_div(self@ as int, pow2(shift as nat) as int);
            }
            return BigInt::zero();
        }
        let pw: u64 = pow2_u64(bs);
        let m = n - ws;
        // y is the word sequence with the low `ws` words dropped
        let ghost y: Seq<u64> = a@.skip(ws as int);
        let mut out: Vec<u64> = Vec::new();
        let mut j: usize = 0;
        while j < m
            invariant
                j <= m,
                m == n - ws,
                ws < n,
                n == a@.len(),
                y == a@.skip(ws as int),
                out@.len() == j,
                forall|i: int| 0 <= i < j ==> out@[i] == 0,
            decreases m - j,
        {
            out.push(0);
            j = j + 1;
        }
        let mut rem: u64 = 0;
        let mut i: usize = m;
        proof {
            assert(out@.skip(m as int) =~= Seq::<u64>::empty());
            assert(y.skip(m as int) =~= Seq::<u64>::empty());
            assert(limbs_value(Seq::<u64>::empty()) == 0);
            lemma_pow2_pos(bs as nat);
        }
        while i > 0
            invariant
                i <= m,
                m == n - ws,
                ws < n,
                n == a@.len(),
                y == a@.skip(ws as int),
                out@.len() == m,
                rem < pw,
                pw == pow2(bs as nat),
                bs <= 63,
                forall|t: int| 0 <= t < i ==> out@[t] == 0,
                limbs_value(y.skip(i as int)) == (pow2(bs as nat)) * limbs_value(
                    out@.skip(i as int)) + rem,
            decreases i,
        {
            i = i - 1;
            let cur: u128 = (rem as u128) * 0x1_0000_0000_0000_0000 + a[ws + i] as u128;
            proof {
                assert(((cur as nat) / (pw as nat) < word_base())
                    && ((cur as nat) % (pw as nat) < pw)) by (nonlinear_arith)
                    requires
                        (cur as nat) == (rem as nat) * 0x1_0000_0000_0000_0000
                            + (a@[ws + i] as nat),
                        rem < pw,
                        a@[ws + i] < 0x1_0000_0000_0000_0000,
                        pw >= 1,
                        word_base() == 0x1_0000_0000_0000_0000,
                ;
            }
            let qi: u64 = (cur / (pw as u128)) as u64;
            let new_rem: u64 = (cur % (pw as u128)) as u64;
            proof {
                let v = y[i as int];
                assert(v == a@[ws + i]);
                assert(cur as nat == (rem as nat) * word_base() + v as nat);
                lemma_fundamental_div_mod(cur as int, pw as int);
                assert((cur as nat) == (pw as nat) * (qi as nat) + (new_rem as nat));
            }
            let ghost out_before = out@;
            out[i] = qi;
            proof {
                let pwn = pw as nat;
                let os = out@.skip(i as int);
                let osn = out_before.skip(i as int + 1);
                assert(out@.skip(i as int + 1) =~= osn);
                assert(os[0] == qi);
                assert(os.skip(1) =~= out@.skip(i as int + 1));
                assert(limbs_value(os) == qi as nat + word_base() * limbs_value(osn));
                let ys = y.skip(i as int);
                assert(ys[0] == y[i as int]);
                assert(ys.skip(1) =~= y.skip(i as int + 1));
                assert(limbs_value(ys) == y[i as int] as nat + word_base() * limbs_value(
                    y.skip(i as int + 1)));
                // fold the word step into the division invariant
                assert(y[i as int] as nat + word_base() * (pwn * limbs_value(osn) + rem as nat)
                    == pwn * (qi as nat + word_base() * limbs_value(osn)) + new_rem as nat)
                    by (nonlinear_arith)
                    requires
                        (rem as nat) * word_base() + y[i as int] as nat
                            == pwn * (qi as nat) + new_rem as nat,
                ;
            }
            rem = new_rem;
        }
        proof {
            assert(out@.skip(0) =~= out@);
            assert(y.skip(0) =~= y);
            // value(y) == pw * value(out) + rem, with rem < pw, so out == y / pw
            vstd::arithmetic::mul::lemma_mul_is_commutative(pw as int, limbs_value(out@) as int);
            vstd::arithmetic::div_mod::lemma_fundamental_div_mod_converse_div(
                limbs_value(y) as int, pw as int, limbs_value(out@) as int, rem as int);
            // self = low + pb(ws) * y, and low < pb(ws)
            lemma_lv_split(a@, ws as nat);
            lemma_lv_bound(a@.take(ws as int));
            lemma_pb_pos(ws as nat);
            let low = limbs_value(a@.take(ws as int));
            let pws = pb(ws as nat);
            lemma_hoist_over_denominator(low as int, limbs_value(y) as int, pws);
            lemma_basic_div(low as int, pws as int);
            vstd::arithmetic::mul::lemma_mul_is_commutative(pws as int, limbs_value(y) as int);
            assert(self@ == low + limbs_value(y) * pws);
            assert(self@ as int / (pws as int) == limbs_value(y) as int);
            // dividing twice is dividing by the product
            lemma_pow2_pos(bs as nat);
            lemma_div_denominator(self@ as int, pws as int, pw as int);
            lemma_pow2_adds((64 * ws) as nat, bs as nat);
            assert(pws * (pw as nat) == pow2(shift as nat));
        }
        BigInt::from_limbs(out)
    }

    /// The difference of two values, or `Underflow` when the minuend is
    /// smaller than the subtrahend.
    pub fn sub(&self, other: &BigInt) -> (r: Result<BigInt, Error>)
        requires
            self.wf(),
            other.wf(),
        ensures
            self@ >= other@ ==> (r matches Ok(d) && d.wf() && d@ == self@ - other@),
            self@ < other@ ==> r == Err::<BigInt, Error>(Error::Underflow),
    {
        if self.less_than(other) {
            Err(Error::Underflow)
        } else {
            Ok(self.sub_nn(other))
        }
    }
}

} // verus!
