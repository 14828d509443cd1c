//! Modular inversion by the extended Euclidean algorithm, tracked with only
//! non-negative values: the Bézout coefficient stays reduced mod the target.

use vstd::prelude::*;
use vstd::arithmetic::div_mod::{lemma_mod_self_0, lemma_mul_mod_noop_right, lemma_sub_mod_noop,
    lemma_mod_multiples_vanish};
use crate::limbs::lemma_lv_bound;
use crate::bigint::BigInt;
use crate::nt::{gcd, lemma_gcd_comm, lemma_gcd_step};
use crate::Error;

verus! {

impl BigInt {
    /// The inverse of `self` against the modulus, when the two are coprime;
    /// `NotInvertible` otherwise.
    pub fn mod_inverse(&self, modulus: &BigInt) -> (r: Result<BigInt, Error>)
        requires
            self.wf(),
            modulus.wf(),
            modulus@ >= 1,
            self.word_count() <= usize::MAX / 512,
            modulus.word_count() <= usize::MAX / 512,
        ensures
            gcd(self@, modulus@) == 1 ==> (r matches Ok(t) && t.wf() && t@ < modulus@
                && (self@ * t@) % modulus@ == 1nat % modulus@
                && t.word_count() <= modulus.word_count()),
            gcd(self@, modulus@) != 1 ==> r == Err::<BigInt, Error>(Error::NotInvertible),
    {
        let one = BigInt::from_u64(1);
        let mut t = BigInt::zero();
        let mut newt = one.div_rem_pos(modulus).1;
        let mut r = modulus.copy_value();
        let mut newr = self.copy_value();
        let ghost a = self@;
        let ghost m = modulus@;
        let ghost kk = if self.word_count() >= modulus.word_count() {
            self.word_count()
        } else {
            modulus.word_count()
        };
        proof {
            lemma_mod_self_0(m as int);
            assert(a * 0 == 0) by (nonlinear_arith);
            lemma_mul_mod_noop_right(a as int, 1, m as int);
            assert(a as int * 1 == a as int) by (nonlinear_arith);
            assert((a * newt@) % m == a % m);
            lemma_lv_bound(modulus.limbs@);
            newt.lemma_wc_bound(modulus.word_count());
        }
        while !newr.is_zero()
            invariant
                t.wf(),
                newt.wf(),
                r.wf(),
                newr.wf(),
                one@ == 1,
                one.wf(),
                m >= 1,
                m == modulus@,
                a == self@,
                self.wf(),
                modulus.wf(),
                kk <= usize::MAX / 512,
                modulus.word_count() <= usize::MAX / 512,
                r.word_count() <= kk,
                newr.word_count() <= kk,
                t.word_count() <= modulus.word_count(),
                newt.word_count() <= modulus.word_count(),
                t@ < m,
                newt@ < m,
                gcd(r@, newr@) == gcd(m, a),
                (a * t@) % m == r@ % m,
                (a * newt@) % m == newr@ % m,
            decreases newr@,
        {
            let qr = r.div_rem_pos(&newr);
            let q = qr.0;
            let rr = qr.1;
            let qn = q.mul(&newt);
            let qnm = qn.div_rem_pos(modulus).1;
            let nt: BigInt;
            let ghost c2: int;
            if !t.less_than(&qnm) {
                nt = t.sub_nn(&qnm);
                proof {
                    c2 = 0;
                }
            } else {
                nt = t.add(modulus).sub_nn(&qnm);
                proof {
                    c2 = 1;
                }
            }
            proof {
                let ai = a as int;
                let mi = m as int;
                let ti = t@ as int;
                let nti = newt@ as int;
                let ri = r@ as int;
                let nri = newr@ as int;
                let qi = q@ as int;
                let qnmi = qnm@ as int;
                let rri = rr@ as int;
                assert(nt@ as int == ti - qnmi + c2 * mi);
                assert(nt@ < m);
                // a * nt == a * t - a * qnm, modulo m
                assert(ai * (ti - qnmi + c2 * mi) == mi * (c2 * ai) + (ai * ti - ai * qnmi))
                    by (nonlinear_arith);
                lemma_mod_multiples_vanish(c2 * ai, ai * ti - ai * qnmi, mi);
                // a * qnm == q * newr, modulo m
                lemma_mul_mod_noop_right(ai, qi * nti, mi);
                assert(qnmi == (qi * nti) % mi);
                assert(ai * ((qi * nti) % mi) == ai * qnmi);
                assert(ai * (qi * nti) == qi * (ai * nti)) by (nonlinear_arith);
                lemma_mul_mod_noop_right(qi, ai * nti, mi);
                lemma_mul_mod_noop_right(qi, nri, mi);
                assert((ai * nti) % mi == nri % mi);
                assert(qi * ((ai * nti) % mi) == qi * (nri % mi)) by (nonlinear_arith)
                    requires
                        (ai * nti) % mi == nri % mi,
                ;
                assert((ai * qnmi) % mi == (qi * nri) % mi);
                // subtract the two congruences
                lemma_sub_mod_noop(ai * ti, ai * qnmi, mi);
                lemma_sub_mod_noop(ri, qi * nri, mi);
                assert((ai * ti - ai * qnmi) % mi == ((ai * ti) % mi - (ai * qnmi) % mi) % mi);
                assert((ri - qi * nri) % mi == (ri % mi - (qi * nri) % mi) % mi);
                assert((ai * ti) % mi == ri % mi);
                // the new remainder is exactly r - q * newr
                assert(ri == qi * nri + rri);
                assert((ai * (nt@ as int)) % mi == rri % mi);
                assert((a * nt@) % m == rr@ % m);
                // and the gcd is preserved by one Euclid step
                lemma_gcd_step(r@, newr@);
            }
            t = newt;
            newt = nt;
            r = newr;
            newr = rr;
            proof {
                lemma_lv_bound(modulus.limbs@);
                newt.lemma_wc_bound(modulus.word_count());
            }
        }
        proof {
            assert(gcd(r@, 0nat) == r@);
            lemma_gcd_comm(m, a);
        }
        if r.equals(&one) {
            Ok(t)
        } else {
            Err(Error::NotInvertible)
        }
    }
}

} // verus!
