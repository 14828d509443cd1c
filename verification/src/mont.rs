//! Montgomery-form modular reduction for an odd modulus: a precomputed
//! word-level inverse lets REDC clear one low word per pass, replacing
//! division by shifts and multiplications.

use vstd::prelude::*;
use vstd::arithmetic::power2::{pow2, lemma_pow2_adds, lemma_pow2_pos, lemma_pow2_unfold,
    lemma2_to64, lemma2_to64_rest, lemma_pow2_strictly_increases};
use vstd::arithmetic::div_mod::{lemma_fundamental_div_mod, lemma_small_mod, lemma_mod_bound,
    lemma_mod_mod, lemma_mod_multiples_vanish, lemma_mul_mod_noop_right, lemma_mul_mod_noop_left,
    lemma_mul_mod_noop_general, lemma_mod_twice};
use vstd::arithmetic::mul::lemma_mul_is_commutative;
use crate::limbs::{word_base, pb, limbs_value, word_at, lv_take, lemma_pb_zero, lemma_pb_unfold,
    lemma_pb_pos, lemma_pb_adds, lemma_pb_increases, lemma_lv_bound, lemma_lv_take_zero,
    lemma_lv_take_all, lemma_lv_take_step, lemma_lv_zeros, lemma_lv_split, lemma_lv_update};
use crate::bigint::BigInt;
use crate::nt::{npow, lemma_npow_adds, lemma_pow2_is_npow2, lemma_half_pow_inverse,
    lemma_mod_mul_cancel, lemma_mod_bit_split};
use crate::bits::lemma_lv_bit;

verus! {

/// Two values that agree after multiplication by `R == pb(n)` agree modulo
/// an odd modulus: `R` is invertible there.
proof fn lemma_cancel_r(m: nat, n: nat, a: nat, b: nat)
    requires
        m >= 1,
        m % 2 == 1,
        (a * pb(n)) % m == (b * pb(n)) % m,
    ensures
        a % m == b % m,
{
    let v = npow((m + 1) / 2, 64 * n);
    lemma_pow2_is_npow2(64 * n);
    lemma_half_pow_inverse(m, 64 * n);
    assert((pb(n) * v) % m == 1nat % m);
    lemma_mod_mul_cancel(m, pb(n), v, a, b);
}

/// One fixed-point Newton iteration doubles the number of correct low bits
/// of the word-level inverse.
proof fn lemma_newton_step(m0: nat, x: nat, x2: nat, j: nat)
    requires
        m0 % 2 == 1,
        1 <= j,
        2 * j <= 64,
        (m0 * x) % pow2(j) == 1,
        x2 as int == ((x as int) * ((2 + (word_base() as int) - ((m0 * x) as int)
            % (word_base() as int)) % (word_base() as int))) % (word_base() as int),
    ensures
        (m0 * x2) % pow2(2 * j) == 1,
{
    lemma2_to64();
    assert(word_base() == pow2(64));
    let bb = word_base() as int;
    let p = (m0 * x) as int;
    let pj = pow2(j) as int;
    let p2j = pow2(2 * j) as int;
    lemma_pow2_pos(j);
    lemma_pow2_pos(2 * j);
    lemma_pow2_pos((64 - 2 * j) as nat);
    let pm = p % bb;
    let t2 = (2 + bb - pm) % bb;
    let x2i = ((x as int) * t2) % bb;
    assert(x2 == x2i);
    // m0 * x2 == m0 * x * t2 (mod B)
    lemma_mul_mod_noop_right(m0 as int, (x as int) * t2, bb);
    assert((m0 as int) * (((x as int) * t2) % bb) == (m0 as int) * x2i);
    assert((m0 as int) * ((x as int) * t2) == p * t2) by (nonlinear_arith)
        requires
            p == (m0 as int) * (x as int),
    ;
    assert(((m0 as int) * x2i) % bb == (p * t2) % bb);
    // t2 == 2 - p (mod B)
    lemma_mul_mod_noop_right(p, 2 + bb - pm, bb);
    lemma_mod_twice(p, bb);
    assert((2 + bb - pm) % bb == (2 + bb - p) % bb) by {
        lemma_mod_multiples_vanish(-1, 2 + bb - pm, bb);
        assert(bb * -1 + (2 + bb - pm) == 2 - pm);
        lemma_mod_multiples_vanish(-1, 2 + bb - p, bb);
        assert(bb * -1 + (2 + bb - p) == 2 - p);
        vstd::arithmetic::div_mod::lemma_sub_mod_noop(2, pm, bb);
        vstd::arithmetic::div_mod::lemma_sub_mod_noop(2, p, bb);
        lemma_mod_twice(p, bb);
        assert(pm % bb == p % bb);
        assert((2 - pm) % bb == ((2int % bb) - (pm % bb)) % bb);
        assert((2 - p) % bb == ((2int % bb) - (p % bb)) % bb);
    }
    lemma_mul_mod_noop_right(p, t2, bb);
    lemma_mul_mod_noop_right(p, 2 - p, bb);
    assert(p * ((2 + bb - pm) % bb) == p * t2);
    assert((p * t2) % bb == (p * (2 - p)) % bb) by {
        assert(p * ((2 + bb - pm) % bb) == p * ((2 - p) % bb)) by (nonlinear_arith)
            requires
                (2 + bb - pm) % bb == (2 - p) % bb,
        ;
    }
    // p * (2 - p) == 1 - qq * qq * pow2(2 j)
    lemma_fundamental_div_mod(p, pj);
    let qq = p / pj;
    assert(p == pj * qq + 1);
    lemma_pow2_adds(j, j);
    assert(p * (2 - p) == 1 - (qq * qq) * p2j) by (nonlinear_arith)
        requires
            p == pj * qq + 1,
            p2j == pj * pj,
    ;
    // reduce from B down to pow2(2 j)
    lemma_pow2_adds(2 * j, (64 - 2 * j) as nat);
    assert(bb == p2j * (pow2((64 - 2 * j) as nat) as int));
    lemma_mod_mod(1 - (qq * qq) * p2j, p2j, pow2((64 - 2 * j) as nat) as int);
    lemma_mod_mod((m0 * x2) as int, p2j, pow2((64 - 2 * j) as nat) as int);
    assert(((m0 * x2) as int) % bb == (1 - (qq * qq) * p2j) % bb);
    lemma_mod_multiples_vanish(-(qq * qq), 1, p2j);
    assert(p2j * (-(qq * qq)) + 1 == 1 - (qq * qq) * p2j) by (nonlinear_arith);
    if 2 * j >= 2 {
        lemma_pow2_strictly_increases(0, 2 * j);
    }
    lemma_small_mod(1, p2j as nat);
}

/// A Montgomery context for an odd modulus `N`: the modulus and the negated
/// inverse of its lowest word modulo 2^64, used by the reduction step.
pub struct Montgomery {
    pub(crate) m: BigInt,
    pub(crate) rho: u64,
}

impl Montgomery {
    /// The modulus in canonical form, odd, with the word-level constant that
    /// cancels one low word per reduction pass.
    pub open(crate) spec fn wf(&self) -> bool {
        &&& self.m.wf()
        &&& self.m@ >= 1
        &&& self.m@ % 2 == 1
        &&& self.m.word_count() <= usize::MAX / 1024
        &&& ((self.m.limbs@[0] as nat) * (self.rho as nat) + 1) % word_base() == 0
    }

    /// The modulus value.
    pub open(crate) spec fn modulus(&self) -> nat {
        self.m@
    }

    /// How many words the modulus holds; `R` is `pb` of this count.
    pub open(crate) spec fn words(&self) -> nat {
        self.m.word_count()
    }

    /// Build the context: six Newton iterations pin the inverse of the low
    /// word modulo 2^64, which is then negated.
    pub fn new(modulus: &BigInt) -> (r: Montgomery)
        requires
            modulus.wf(),
            modulus@ >= 1,
            modulus@ % 2 == 1,
            modulus.word_count() <= usize::MAX / 1024,
        ensures
            r.wf(),
            r.modulus() == modulus@,
            r.words() == modulus.word_count(),
    {
        let m0: u64 = modulus.limbs[0];
        proof {
            // the low word has the modulus' parity
            let s = modulus.limbs@;
            assert(limbs_value(s) == s[0] as nat + word_base() * limbs_value(s.skip(1)));
            let rest = limbs_value(s.skip(1));
            assert(word_base() == 2 * 0x8000_0000_0000_0000);
            lemma_mod_multiples_vanish((0x8000_0000_0000_0000 as int) * (rest as int),
                m0 as int, 2);
            assert(2 * ((0x8000_0000_0000_0000 as int) * (rest as int)) == (word_base()
                * rest) as int) by (nonlinear_arith);
            assert(modulus@ % 2 == (m0 as nat) % 2);
            lemma2_to64();
        }
        let mut x: u64 = 1;
        let mut k: usize = 0;
        proof {
            assert(pow2(pow2(0)) == 2);
            assert((m0 as nat * 1) % pow2(pow2(0)) == 1) by {
                assert(m0 as nat * 1 == m0 as nat);
            }
        }
        while k < 6
            invariant
                k <= 6,
                m0 as nat % 2 == 1,
                pow2(k as nat) <= 64,
                (m0 as nat * x as nat) % pow2(pow2(k as nat)) == 1,
            decreases 6 - k,
        {
            proof {
                lemma2_to64();
                assert(pow2((k + 1) as nat) == 2 * pow2(k as nat)) by {
                    lemma_pow2_unfold((k + 1) as nat);
                }
            }
            proof {
                assert((m0 as nat) * (x as nat)
                    < 0x1_0000_0000_0000_0000_0000_0000_0000_0000) by (nonlinear_arith)
                    requires
                        m0 < 0x1_0000_0000_0000_0000,
                        x < 0x1_0000_0000_0000_0000,
                ;
            }
            let pm: u64 = ((m0 as u128 * x as u128) % 0x1_0000_0000_0000_0000) as u64;
            let t2: u64 = ((2 + 0x1_0000_0000_0000_0000u128 - pm as u128)
                % 0x1_0000_0000_0000_0000) as u64;
            proof {
                assert((x as nat) * (t2 as nat)
                    < 0x1_0000_0000_0000_0000_0000_0000_0000_0000) by (nonlinear_arith)
                    requires
                        x < 0x1_0000_0000_0000_0000,
                        t2 < 0x1_0000_0000_0000_0000,
                ;
            }
            let x2: u64 = ((x as u128 * t2 as u128) % 0x1_0000_0000_0000_0000) as u64;
            proof {
                lemma_newton_step(m0 as nat, x as nat, x2 as nat, pow2(k as nat));
            }
            x = x2;
            k = k + 1;
        }
        // rho = -x mod 2^64; x is odd, hence nonzero
        proof {
            lemma2_to64();
            assert(pow2(pow2(6)) == pow2(64));
            assert(word_base() == pow2(64));
            if x == 0 {
                assert((m0 as nat * 0) % pow2(64) == 0) by {
                    assert(m0 as nat * 0 == 0);
                    lemma_small_mod(0, pow2(64));
                }
                assert(false);
            }
        }
        let rho: u64 = ((0x1_0000_0000_0000_0000u128 - x as u128) % 0x1_0000_0000_0000_0000)
            as u64;
        proof {
            assert(rho as nat == word_base() - x);
            // m0 * rho + 1 == m0 * B - (m0 * x - 1): a multiple of B
            let bb = word_base() as int;
            let mi = m0 as int;
            let xi = x as int;
            lemma_fundamental_div_mod(mi * xi, bb);
            let qq = (mi * xi) / bb;
            assert(mi * xi == bb * qq + 1);
            assert(mi * (bb - xi) + 1 == bb * (mi - qq)) by (nonlinear_arith)
                requires
                    mi * xi == bb * qq + 1,
            ;
            lemma_mod_multiples_vanish(mi - qq, 0, bb);
            assert(bb * (mi - qq) + 0 == bb * (mi - qq));
            assert((bb * (mi - qq)) % bb == 0int % bb);
            lemma_small_mod(0, word_base());
            assert(((m0 as nat) * (rho as nat) + 1) % word_base() == 0);
        }
        Montgomery { m: modulus.copy_value(), rho }
    }

    /// REDC: add per-word multiples of the modulus that clear the low words,
    /// drop those words (a division by `R`), and subtract the modulus once
    /// if needed. The result is `t / R` modulo the modulus.
    pub fn reduce(&self, t: &BigInt) -> (r: BigInt)
        requires
            self.wf(),
            t.wf(),
            t@ < pb(self.words()) * self.modulus(),
        ensures
            r.wf(),
            r@ < self.modulus(),
            (r@ * pb(self.words())) % self.modulus() == t@ % self.modulus(),
            r.word_count() <= self.words(),
    {
        let n = self.m.limbs.len();
        let ghost mv = self.m@;
        let ghost ms = self.m.limbs@;
        let ghost tv = t@;
        proof {
            lemma_lv_bound(self.m.limbs@);
            lemma_pb_adds(n as nat, n as nat);
            assert(pb(n as nat) * mv < pb(n as nat) * pb(n as nat)) by (nonlinear_arith)
                requires
                    mv < pb(n as nat),
                    pb(n as nat) >= 1,
            ;
            t.lemma_wc_bound((2 * n) as nat);
            lemma_pb_unfold((2 * n) as nat);
            // everything the pass can accumulate stays under pb(2n + 1)
            assert(3 * pb((2 * n) as nat) < pb((2 * n + 1) as nat)) by (nonlinear_arith)
                requires
                    pb((2 * n + 1) as nat) == pb((2 * n) as nat) * word_base(),
                    pb((2 * n) as nat) >= 1,
                    word_base() == 0x1_0000_0000_0000_0000,
            ;
        }
        let mut buf: Vec<u64> = Vec::new();
        let mut c: usize = 0;
        while c < t.limbs.len()
            invariant
                c <= t.limbs@.len(),
                buf@ =~= t.limbs@.take(c as int),
            decreases t.limbs@.len() - c,
        {
            buf.push(t.limbs[c]);
            proof {
                assert(buf@ =~= t.limbs@.take(c + 1));
            }
            c = c + 1;
        }
        proof {
            assert(buf@ =~= t.limbs@);
        }
        proof {
            assert(buf@.len() <= 2 * n);
        }
        while buf.len() < 2 * n + 1
            invariant
                n == self.m.limbs@.len(),
                n <= usize::MAX / 1024,
                limbs_value(buf@) == tv,
                buf@.len() <= 2 * n + 1,
            decreases 2 * n + 1 - buf@.len(),
        {
            proof {
                crate::limbs::lemma_lv_push(buf@, 0);
            }
            buf.push(0);
        }
        let mut i: usize = 0;
        let ghost mut u_acc: nat = 0;
        proof {
            lemma_pb_zero();
        }
        while i < n
            invariant
                i <= n,
                n == self.m.limbs@.len(),
                n <= usize::MAX / 1024,
                self.wf(),
                mv == self.m@,
                ms == self.m.limbs@,
                buf@.len() == 2 * n + 1,
                mv >= 1,
                tv < pb(n as nat) * mv,
                pb(n as nat) * mv < pb((2 * n) as nat),
                3 * pb((2 * n) as nat) < pb((2 * n + 1) as nat),
                forall|l: int| 0 <= l < i ==> buf@[l] == 0,
                u_acc < pb(i as nat),
                limbs_value(buf@) == tv + u_acc * mv,
            decreases n - i,
        {
            let bi0: u64 = buf[i];
            proof {
                assert((bi0 as nat) * (self.rho as nat)
                    < 0x1_0000_0000_0000_0000_0000_0000_0000_0000) by (nonlinear_arith)
                    requires
                        bi0 < 0x1_0000_0000_0000_0000,
                        self.rho < 0x1_0000_0000_0000_0000,
                ;
            }
            let u: u64 = ((bi0 as u128 * self.rho as u128) % 0x1_0000_0000_0000_0000) as u64;
            let ghost row0 = limbs_value(buf@);
            let mut carry: u64 = 0;
            let mut j: usize = 0;
            proof {
                lemma_lv_take_zero(ms);
                lemma_pb_zero();
                assert((u as nat) * lv_take(ms, 0) * pb(i as nat) == 0) by (nonlinear_arith)
                    requires
                        lv_take(ms, 0) == 0,
                ;
            }
            while j < n
                invariant
                    j <= n,
                    i < n,
                    n == self.m.limbs@.len(),
                    n <= usize::MAX / 1024,
                    self.wf(),
                    ms == self.m.limbs@,
                    buf@.len() == 2 * n + 1,
                    u == ((bi0 as nat) * (self.rho as nat)) % word_base(),
                    bi0 == buf@[i as int] || j >= 1,
                    j == 0 ==> carry == 0,
                    forall|l: int| 0 <= l < i ==> buf@[l] == 0,
                    j >= 1 ==> buf@[i as int] == 0,
                    limbs_value(buf@) + (carry as nat) * pb((i + j) as nat)
                        == row0 + (u as nat) * lv_take(ms, j as int) * pb(i as nat),
                decreases n - j,
            {
                let mj: u64 = self.m.limbs[j];
                let prev: u64 = buf[i + j];
                proof {
                    assert((u as nat) * (mj as nat) + (prev as nat) + (carry as nat)
                        < 0x1_0000_0000_0000_0000_0000_0000_0000_0000) by (nonlinear_arith)
                        requires
                            u < 0x1_0000_0000_0000_0000,
                            mj < 0x1_0000_0000_0000_0000,
                            prev < 0x1_0000_0000_0000_0000,
                            carry < 0x1_0000_0000_0000_0000,
                    ;
                }
                let s: u128 = (u as u128) * (mj as u128) + prev as u128 + carry as u128;
                let low: u64 = (s % 0x1_0000_0000_0000_0000) as u64;
                let new_carry: u64 = (s / 0x1_0000_0000_0000_0000) as u64;
                let ghost before = buf@;
                buf[i + j] = low;
                proof {
                    let p = pb((i + j) as nat);
                    assert(s as nat == (u as nat) * (mj as nat) + prev as nat + carry as nat);
                    assert(s as nat == low as nat + word_base() * (new_carry as nat));
                    lemma_lv_update(before, (i + j) as nat, low);
                    lemma_pb_unfold((i + j) as nat);
                    lemma_lv_take_step(ms, j as int);
                    assert(word_at(ms, j as int) == mj);
                    lemma_pb_adds(i as nat, j as nat);
                    assert(limbs_value(buf@) + (new_carry as nat) * pb((i + j + 1) as nat)
                        == limbs_value(before) + (carry as nat) * p
                            + (u as nat) * (mj as nat) * p) by (nonlinear_arith)
                        requires
                            limbs_value(buf@) + p * (before[(i + j) as int] as nat)
                                == limbs_value(before) + p * (low as nat),
                            (u as nat) * (mj as nat) + (before[(i + j) as int] as nat)
                                + (carry as nat) == low as nat + word_base() * (new_carry as nat),
                            pb((i + j + 1) as nat) == p * word_base(),
                            prev == before[(i + j) as int],
                    ;
                    assert((u as nat) * (lv_take(ms, j as int) + (mj as nat) * pb(j as nat))
                        * pb(i as nat) == (u as nat) * lv_take(ms, j as int) * pb(i as nat)
                            + (u as nat) * (mj as nat) * (pb(i as nat) * pb(j as nat)))
                        by (nonlinear_arith);
                    // the first pass clears the word at index i
                    if j == 0 {
                        let bb = word_base() as int;
                        let m0i = ms[0] as int;
                        let rhoi = self.rho as int;
                        let b0i = bi0 as int;
                        let ui = u as int;
                        assert(ui == (b0i * rhoi) % bb);
                        lemma_mul_mod_noop_left(b0i * rhoi, m0i, bb);
                        assert((ui * m0i) % bb == ((b0i * rhoi) * m0i) % bb);
                        lemma_fundamental_div_mod(m0i * rhoi + 1, bb);
                        let cc = (m0i * rhoi + 1) / bb;
                        assert(m0i * rhoi + 1 == bb * cc);
                        assert(b0i + (b0i * rhoi) * m0i == bb * (b0i * cc)) by (nonlinear_arith)
                            requires
                                m0i * rhoi + 1 == bb * cc,
                        ;
                        lemma_mod_multiples_vanish(b0i * cc, 0, bb);
                        lemma_small_mod(0, word_base());
                        assert((b0i + (b0i * rhoi) * m0i) % bb == 0);
                        vstd::arithmetic::div_mod::lemma_add_mod_noop(b0i, (b0i * rhoi) * m0i,
                            bb);
                        vstd::arithmetic::div_mod::lemma_add_mod_noop(b0i, ui * m0i, bb);
                        lemma_mod_twice(b0i, bb);
                        assert((b0i + ui * m0i) % bb == 0);
                        assert(s as nat == bi0 as nat + (u as nat) * (ms[0] as nat));
                        assert(low as nat == (s as nat) % word_base()) by {
                            lemma_fundamental_div_mod(s as int, bb);
                        }
                        assert(low == 0);
                    }
                }
                carry = new_carry;
                j = j + 1;
            }
            // propagate the final carry upward; it must die inside the buffer
            let mut k: usize = i + n;
            proof {
                lemma_lv_take_all(ms, n as int);
                lemma_pb_unfold(i as nat);
                if i < n - 1 {
                    lemma_pb_increases(i as nat, (n - 1) as nat);
                }
                lemma_pb_unfold((n - 1) as nat);
                lemma_pb_pos(i as nat);
                assert(row0 + (u as nat) * mv * pb(i as nat) < pb((2 * n + 1) as nat))
                    by (nonlinear_arith)
                    requires
                        row0 == tv + u_acc * mv,
                        tv < pb(n as nat) * mv,
                        u_acc < pb(i as nat),
                        u < word_base(),
                        pb((i + 1) as nat) == pb(i as nat) * word_base(),
                        i < n,
                        pb(i as nat) <= pb((n - 1) as nat),
                        pb((n - 1) as nat) * word_base() == pb(n as nat),
                        pb(n as nat) * mv < pb((2 * n) as nat),
                        3 * pb((2 * n) as nat) < pb((2 * n + 1) as nat),
                        mv >= 1,
                        pb(i as nat) >= 1,
                ;
            }
            let ghost target = row0 + (u as nat) * mv * pb(i as nat);
            while carry > 0
                invariant
                    i + n <= k,
                    k <= 2 * n + 1,
                    i < n,
                    n >= 1,
                    n == self.m.limbs@.len(),
                    n <= usize::MAX / 1024,
                    buf@.len() == 2 * n + 1,
                    forall|l: int| 0 <= l < i ==> buf@[l] == 0,
                    buf@[i as int] == 0,
                    target < pb((2 * n + 1) as nat),
                    limbs_value(buf@) + (carry as nat) * pb(k as nat) == target,
                decreases buf@.len() - k,
            {
                proof {
                    lemma_pb_pos(k as nat);
                    if k >= 2 * n + 1 {
                        if 2 * n + 1 < k {
                            lemma_pb_increases((2 * n + 1) as nat, k as nat);
                        }
                        assert((carry as nat) * pb(k as nat) >= pb(k as nat))
                            by (nonlinear_arith)
                            requires
                                carry >= 1,
                                pb(k as nat) >= 1,
                        ;
                        assert(false);
                    }
                }
                let prev: u64 = buf[k];
                let s: u128 = prev as u128 + carry as u128;
                let low: u64 = (s % 0x1_0000_0000_0000_0000) as u64;
                let new_carry: u64 = (s / 0x1_0000_0000_0000_0000) as u64;
                let ghost before = buf@;
                buf[k] = low;
                proof {
                    let p = pb(k as nat);
                    lemma_fundamental_div_mod(s as int, word_base() as int);
                    assert(s as nat == low as nat + word_base() * (new_carry as nat));
                    lemma_lv_update(before, k as nat, low);
                    lemma_pb_unfold(k as nat);
                    assert(limbs_value(buf@) + (new_carry as nat) * pb((k + 1) as nat)
                        == limbs_value(before) + (carry as nat) * p) by (nonlinear_arith)
                        requires
                            limbs_value(buf@) + p * (before[k as int] as nat)
                                == limbs_value(before) + p * (low as nat),
                            (before[k as int] as nat) + (carry as nat)
                                == low as nat + word_base() * (new_carry as nat),
                            pb((k + 1) as nat) == p * word_base(),
                            prev == before[k as int],
                    ;
                }
                carry = new_carry;
                k = k + 1;
            }
            proof {
                assert(limbs_value(buf@) == target);
                lemma_pb_unfold(i as nat);
                lemma_pb_pos(i as nat);
                let unew = u_acc + (u as nat) * pb(i as nat);
                assert(target == tv + unew * mv) by (nonlinear_arith)
                    requires
                        target == tv + u_acc * mv + (u as nat) * mv * pb(i as nat),
                        unew == u_acc + (u as nat) * pb(i as nat),
                ;
                assert(unew < pb((i + 1) as nat)) by (nonlinear_arith)
                    requires
                        unew == u_acc + (u as nat) * pb(i as nat),
                        u_acc < pb(i as nat),
                        u < word_base(),
                        pb((i + 1) as nat) == pb(i as nat) * word_base(),
                        pb(i as nat) >= 1,
                ;
                lemma_pb_unfold(i as nat);
                u_acc = unew;
            }
            i = i + 1;
        }
        // drop the cleared low n words: an exact division by R
        let mut out: Vec<u64> = Vec::new();
        let mut h: usize = n;
        while h < 2 * n + 1
            invariant
                n <= h <= 2 * n + 1,
                n <= usize::MAX / 1024,
                buf@.len() == 2 * n + 1,
                out@ =~= buf@.subrange(n as int, h as int),
            decreases 2 * n + 1 - h,
        {
            out.push(buf[h]);
            proof {
                assert(out@ =~= buf@.subrange(n as int, h + 1));
            }
            h = h + 1;
        }
        let res = BigInt::from_limbs(out);
        proof {
            assert(out@ =~= buf@.skip(n as int));
            crate::limbs::lemma_lv_split(buf@, n as nat);
            lemma_lv_zeros(buf@.take(n as int));
            assert(limbs_value(buf@) == pb(n as nat) * limbs_value(buf@.skip(n as int)));
            assert(res@ * pb(n as nat) == tv + u_acc * mv) by {
                lemma_mul_is_commutative(pb(n as nat) as int, res@ as int);
            }
            // res < 2 m, since t < R m and the added multiples total under R m
            assert(u_acc * mv < pb(n as nat) * mv) by (nonlinear_arith)
                requires
                    u_acc < pb(n as nat),
                    mv >= 1,
            ;
            lemma_pb_pos(n as nat);
            assert(res@ < 2 * mv) by (nonlinear_arith)
                requires
                    res@ * pb(n as nat) < 2 * (pb(n as nat) * mv),
                    pb(n as nat) >= 1,
            ;
            // res * R == t (mod m)
            lemma_mod_multiples_vanish(u_acc as int, tv as int, mv as int);
            assert((mv as int) * (u_acc as int) + tv == (res@ * pb(n as nat)) as int)
                by (nonlinear_arith)
                requires
                    res@ * pb(n as nat) == tv + u_acc * mv,
            ;
            assert((res@ * pb(n as nat)) % mv == tv % mv);
            lemma_lv_bound(self.m.limbs@);
        }
        if !res.less_than(&self.m) {
            let red = res.sub_nn(&self.m);
            proof {
                // one subtraction of m keeps the residue class
                let ri = (res@ * pb(n as nat)) as int;
                lemma_mod_multiples_vanish(-(pb(n as nat) as int), ri, mv as int);
                assert((mv as int) * (-(pb(n as nat) as int)) + ri
                    == ((red@ * pb(n as nat)) as int)) by (nonlinear_arith)
                    requires
                        red@ == res@ - mv,
                        ri == (res@ * pb(n as nat)) as int,
                ;
                red.lemma_wc_bound(self.m.word_count());
            }
            red
        } else {
            proof {
                res.lemma_wc_bound(self.m.word_count());
            }
            res
        }
    }

    /// Montgomery product: multiply, then one reduction pass, so that
    /// `mul(a, b) * R == a * b` modulo the modulus.
    pub fn mul(&self, a: &BigInt, b: &BigInt) -> (r: BigInt)
        requires
            self.wf(),
            a.wf(),
            b.wf(),
            a@ < self.modulus(),
            b@ < self.modulus(),
            a.word_count() <= self.words(),
            b.word_count() <= self.words(),
        ensures
            r.wf(),
            r@ < self.modulus(),
            (r@ * pb(self.words())) % self.modulus() == (a@ * b@) % self.modulus(),
            r.word_count() <= self.words(),
    {
        let t = a.mul(b);
        proof {
            lemma_lv_bound(self.m.limbs@);
            assert(a@ * b@ < pb(self.words()) * self.modulus()) by (nonlinear_arith)
                requires
                    a@ < self.modulus(),
                    b@ < self.modulus(),
                    self.modulus() < pb(self.words()),
                    self.modulus() >= 1,
            ;
        }
        self.reduce(&t)
    }
}

impl BigInt {
    /// Montgomery-form exponentiation for an odd modulus: carry the
    /// accumulator and the running base in the Montgomery domain, and take
    /// the result out with one final reduction.
    pub(crate) fn mod_pow_mont(&self, exponent: &BigInt, modulus: &BigInt) -> (r: BigInt)
        requires
            self.wf(),
            exponent.wf(),
            modulus.wf(),
            modulus@ >= 1,
            modulus@ % 2 == 1,
            self.word_count() <= usize::MAX / 1024,
            modulus.word_count() <= usize::MAX / 1024,
        ensures
            r.wf(),
            r@ == npow(self@, exponent@) % modulus@,
            r@ < modulus@,
            r.word_count() <= modulus.word_count(),
    {
        let mont = Montgomery::new(modulus);
        let n = modulus.limbs.len();
        let ghost m = modulus@;
        let ghost bv = self@;
        let ghost rr = pb(n as nat);
        let one = BigInt::from_u64(1);
        let r_big = one.shl(64 * n);
        proof {
            assert(1 * pow2((64 * n) as nat) == pb(n as nat));
        }
        let r_mod = r_big.div_rem_pos(modulus).1;
        let prod = self.mul(&r_mod);
        let base0 = prod.div_rem_pos(modulus).1;
        let mut acc = r_mod;
        let mut basep = base0;
        proof {
            lemma_lv_bound(modulus.limbs@);
            acc.lemma_wc_bound(modulus.word_count());
            basep.lemma_wc_bound(modulus.word_count());
            // acc == (1 * R) % m and basep == (self * R) % m
            vstd::arithmetic::div_mod::lemma_mul_mod_noop_right(bv as int, rr as int, m as int);
            assert(npow(bv, 0) == 1);
            assert(npow(bv, 1) == bv * npow(bv, 0));
            assert(bv * 1 == bv);
            lemma_pow2_pos(0);
            lemma2_to64();
            vstd::arithmetic::div_mod::lemma_mod_bound(exponent@ as int, pow2(0) as int);
            assert(exponent@ % pow2(0) == 0);
            assert(1 * rr == rr);
            assert((npow(bv, 0) * rr) % m == rr % m);
        }
        let elen = exponent.limbs.len();
        let mut li: usize = 0;
        while li < elen
            invariant
                li <= elen,
                elen == exponent.limbs@.len(),
                self.wf(),
                exponent.wf(),
                modulus.wf(),
                mont.wf(),
                mont.modulus() == m,
                mont.words() == n as nat,
                n == modulus.limbs@.len(),
                m == modulus@,
                bv == self@,
                rr == pb(n as nat),
                m >= 1,
                m % 2 == 1,
                acc.wf(),
                basep.wf(),
                acc@ < m,
                basep@ < m,
                acc.word_count() <= n as nat,
                basep.word_count() <= n as nat,
                acc@ == (npow(bv, exponent@ % pow2((64 * li) as nat)) * rr) % m,
                basep@ == (npow(bv, pow2((64 * li) as nat)) * rr) % m,
            decreases elen - li,
        {
            let limb: u64 = exponent.limbs[li];
            let mut pwbit: u64 = 1;
            let mut bi: usize = 0;
            proof {
                lemma2_to64();
            }
            while bi < 64
                invariant
                    bi <= 64,
                    li < elen,
                    elen == exponent.limbs@.len(),
                    limb == exponent.limbs@[li as int],
                    self.wf(),
                    exponent.wf(),
                    modulus.wf(),
                    mont.wf(),
                    mont.modulus() == m,
                    mont.words() == n as nat,
                    n == modulus.limbs@.len(),
                    m == modulus@,
                    bv == self@,
                    rr == pb(n as nat),
                    m >= 1,
                    m % 2 == 1,
                    acc.wf(),
                    basep.wf(),
                    acc@ < m,
                    basep@ < m,
                    acc.word_count() <= n as nat,
                    basep.word_count() <= n as nat,
                    bi < 64 ==> pwbit == pow2(bi as nat),
                    acc@ == (npow(bv, exponent@ % pow2((64 * li + bi) as nat)) * rr) % m,
                    basep@ == (npow(bv, pow2((64 * li + bi) as nat)) * rr) % m,
                decreases 64 - bi,
            {
                let ghost t = (64 * li + bi) as nat;
                let ghost ev = exponent@;
                proof {
                    lemma_pow2_pos(bi as nat);
                    lemma_pow2_pos(t);
                    lemma_lv_bit(exponent.limbs@, li as nat, bi as nat);
                    lemma_mod_bit_split(ev, t);
                    lemma_mod_bound(ev as int, pow2(t) as int);
                }
                let bit: bool = (limb / pwbit) % 2 == 1;
                if bit {
                    let next = mont.mul(&acc, &basep);
                    proof {
                        let x = ev % pow2(t);
                        let y = pow2(t);
                        lemma_montgomery_product(m, rr, bv, x, y, acc@, basep@, next@);
                        assert((ev / pow2(t)) % 2 == 1);
                        assert(pow2(t) * ((ev / pow2(t)) % 2) == pow2(t)) by (nonlinear_arith)
                            requires
                                (ev / pow2(t)) % 2 == 1,
                        ;
                        assert(ev % pow2(t + 1) == ev % pow2(t) + pow2(t));
                    }
                    acc = next;
                } else {
                    proof {
                        assert((ev / pow2(t)) % 2 == 0);
                        assert(pow2(t) * ((ev / pow2(t)) % 2) == 0) by (nonlinear_arith)
                            requires
                                (ev / pow2(t)) % 2 == 0,
                        ;
                        assert(ev % pow2(t + 1) == ev % pow2(t));
                    }
                }
                let bsq = mont.mul(&basep, &basep);
                proof {
                    lemma_montgomery_product(m, rr, bv, pow2(t), pow2(t), basep@, basep@, bsq@);
                    lemma_pow2_unfold(t + 1);
                    assert(pow2(t) + pow2(t) == pow2(t + 1));
                }
                basep = bsq;
                proof {
                    if bi + 1 < 64 {
                        lemma_pow2_unfold((bi + 1) as nat);
                        lemma_pow2_strictly_increases((bi + 1) as nat, 64);
                        lemma2_to64();
                    }
                    assert(64 * li + bi + 1 == 64 * li + (bi + 1));
                }
                if bi + 1 < 64 {
                    pwbit = pwbit * 2;
                }
                bi = bi + 1;
            }
            proof {
                assert(64 * li + 64 == 64 * (li + 1));
            }
            li = li + 1;
        }
        proof {
            lemma_lv_bound(exponent.limbs@);
            if exponent@ < pow2((64 * elen) as nat) {
                lemma_small_mod(exponent@, pow2((64 * elen) as nat));
            }
        }
        proof {
            lemma_pb_pos(n as nat);
            assert(acc@ < pb(n as nat) * m) by (nonlinear_arith)
                requires
                    acc@ < m,
                    pb(n as nat) >= 1,
                    m >= 1,
            ;
        }
        let out = mont.reduce(&acc);
        proof {
            // out * R == acc == npow(b, e) * R (mod m), so out == npow(b, e) % m
            lemma_small_mod(acc@, m);
            lemma_cancel_r(m, n as nat, out@, npow(bv, exponent@));
            lemma_small_mod(out@, m);
        }
        out
    }
}

/// In the Montgomery domain the product of two carried values stands for
/// the product of the values they carry.
proof fn lemma_montgomery_product(m: nat, rr: nat, bv: nat, x: nat, y: nat, av: nat, bvv: nat,
    nv: nat)
    requires
        m >= 1,
        m % 2 == 1,
        exists|n0: nat| rr == pb(n0),
        av == (npow(bv, x) * rr) % m,
        bvv == (npow(bv, y) * rr) % m,
        (nv * rr) % m == (av * bvv) % m,
        nv < m,
    ensures
        nv == (npow(bv, x + y) * rr) % m,
{
    let n0 = choose|n0: nat| rr == pb(n0);
    let px = npow(bv, x);
    let py = npow(bv, y);
    // (av * bvv) % m == (px * rr * py * rr) % m
    vstd::arithmetic::div_mod::lemma_mul_mod_noop_general((px * rr) as int, (py * rr) as int,
        m as int);
    assert((av * bvv) % m == ((px * rr) * (py * rr)) % m) by {
        assert(((px * rr) % m) * ((py * rr) % m) == av * bvv);
    }
    lemma_npow_adds(bv, x, y);
    assert((px * rr) * (py * rr) == ((npow(bv, x + y) * rr) * rr)) by (nonlinear_arith)
        requires
            npow(bv, x + y) == px * py,
    ;
    lemma_cancel_r(m, n0, nv, npow(bv, x + y) * rr);
    lemma_small_mod(nv, m);
}

} // verus!
