//! Number-theoretic specifications: natural powers, the greatest common
//! divisor, divisibility, and modular-inverse facts.

use vstd::prelude::*;
use vstd::arithmetic::power2::{pow2, lemma_pow2_pos};
use vstd::arithmetic::div_mod::{lemma_fundamental_div_mod, lemma_small_mod, lemma_mod_bound, lemma_mod_multiples_vanish,
    lemma_mul_mod_noop_general, lemma_mul_mod_noop_right, lemma_mod_self_0, lemma_mod_twice,
    lemma_sub_mod_noop, lemma_add_mod_noop, lemma_mod_breakdown};
use vstd::arithmetic::mul::{lemma_mul_is_commutative, lemma_mul_is_associative,
    lemma_mul_is_distributive_add, lemma_mul_is_distributive_sub, lemma_mul_nonnegative};

verus! {

/// `b` to the `e`-th power over the naturals.
pub open spec fn npow(b: nat, e: nat) -> nat
    decreases e,
{
    if e == 0 {
        1
    } else {
        b * npow(b, (e - 1) as nat)
    }
}

/// The greatest common divisor, by Euclid's recursion.
pub open spec fn gcd(a: nat, b: nat) -> nat
    decreases b,
{
    if b == 0 {
        a
    } else {
        gcd(b, a % b)
    }
}

/// Whether `d` divides `x`.
pub open spec fn divides(d: nat, x: nat) -> bool {
    exists|k: nat| x == #[trigger] (k * d)
}

/// Exponents add: `b^(e1 + e2) == b^e1 * b^e2`.
pub proof fn lemma_npow_adds(b: nat, e1: nat, e2: nat)
    ensures
        npow(b, e1 + e2) == npow(b, e1) * npow(b, e2),
    decreases e1,
{
    if e1 == 0 {
        assert(npow(b, e1) == 1);
        assert(npow(b, e1 + e2) == npow(b, e2));
        assert(1 * npow(b, e2) == npow(b, e2)) by (nonlinear_arith);
    } else {
        lemma_npow_adds(b, (e1 - 1) as nat, e2);
        assert(npow(b, e1 + e2) == b * npow(b, ((e1 - 1) + e2) as nat));
        assert(npow(b, e1) == b * npow(b, (e1 - 1) as nat));
        assert(npow(b, e1 + e2) == npow(b, e1) * npow(b, e2)) by (nonlinear_arith)
            requires
                npow(b, e1 + e2) == b * npow(b, ((e1 - 1) + e2) as nat),
                npow(b, ((e1 - 1) + e2) as nat) == npow(b, (e1 - 1) as nat) * npow(b, e2),
                npow(b, e1) == b * npow(b, (e1 - 1) as nat),
        ;
    }
}

/// Reducing the base mod `m` leaves the power unchanged mod `m`.
pub proof fn lemma_npow_mod_base(b: nat, e: nat, m: nat)
    requires
        m >= 1,
    ensures
        npow(b % m, e) % m == npow(b, e) % m,
    decreases e,
{
    if e == 0 {
    } else {
        lemma_npow_mod_base(b, (e - 1) as nat, m);
        let p1 = npow(b % m, (e - 1) as nat);
        let p2 = npow(b, (e - 1) as nat);
        lemma_mul_mod_noop_general((b % m) as int, p1 as int, m as int);
        lemma_mod_twice(b as int, m as int);
        lemma_mul_mod_noop_general(b as int, p2 as int, m as int);
        assert(((b % m) % m) as int == (b % m) as int);
        assert(npow(b % m, e) % m == (((b % m) % m) * (p1 % m)) % m);
        assert(npow(b, e) % m == ((b % m) * (p2 % m)) % m);
    }
}

/// A product of reduced powers is the reduced power of the sum.
pub proof fn lemma_npow_mul_mod(b: nat, e1: nat, e2: nat, m: nat)
    requires
        m >= 1,
    ensures
        ((npow(b, e1) % m) * (npow(b, e2) % m)) % m == npow(b, e1 + e2) % m,
{
    lemma_npow_adds(b, e1, e2);
    lemma_mul_mod_noop_general(npow(b, e1) as int, npow(b, e2) as int, m as int);
}

/// `gcd` ignores the order of its arguments.
pub proof fn lemma_gcd_comm(a: nat, b: nat)
    ensures
        gcd(a, b) == gcd(b, a),
{
    if a == 0 && b == 0 {
    } else if b == 0 {
        // gcd(0, a) unfolds once through a % a ... == gcd(a, 0)
        lemma_mod_self_0(a as int);
        assert(gcd(0, a) == gcd(a, 0nat % a));
        lemma_small_mod(0, a);
    } else if a == 0 {
        lemma_mod_self_0(b as int);
        lemma_small_mod(0, b);
        assert(gcd(a, b) == gcd(b, 0nat % b));
    } else if a < b {
        lemma_small_mod(a, b);
        assert(gcd(a, b) == gcd(b, a % b));
    } else if b < a {
        lemma_small_mod(b, a);
        assert(gcd(b, a) == gcd(a, b % a));
    } else {
        lemma_mod_self_0(a as int);
        assert(gcd(a, b) == gcd(b, a % b));
        assert(gcd(b, a) == gcd(a, b % a));
    }
}

/// The gcd divides both of its arguments.
pub proof fn lemma_gcd_divides(a: nat, b: nat)
    ensures
        divides(gcd(a, b), a),
        divides(gcd(a, b), b),
    decreases b,
{
    if b == 0 {
        assert(a == 1 * a) by (nonlinear_arith);
        assert(0 == 0 * a) by (nonlinear_arith);
    } else {
        lemma_gcd_divides(b, a % b);
        let d = gcd(b, a % b);
        let k1 = choose|k: nat| b == #[trigger] (k * d);
        let k2 = choose|k: nat| a % b == #[trigger] (k * d);
        lemma_fundamental_div_mod(a as int, b as int);
        lemma_mod_bound(a as int, b as int);
        let q = a / b;
        assert(a == q * b + a % b) by {
            lemma_mul_is_commutative(b as int, q as int);
        }
        assert(a == (q * k1 + k2) * d) by (nonlinear_arith)
            requires
                a == q * (k1 * d) + k2 * d,
        ;
        assert(q * k1 + k2 >= 0) by (nonlinear_arith)
            requires
                q >= 0,
                k1 >= 0,
                k2 >= 0,
        ;
        let kk = (q * k1 + k2) as nat;
        assert(a == kk * d);
    }
}

/// One unfolding step of Euclid's recursion, for callers.
pub proof fn lemma_gcd_step(a: nat, b: nat)
    requires
        b > 0,
    ensures
        gcd(a, b) == gcd(b, a % b),
{
}

/// A modular inverse is unique below the modulus.
pub proof fn lemma_inverse_unique(a: nat, m: nat, w1: nat, w2: nat)
    requires
        m >= 1,
        w1 < m,
        w2 < m,
        (a * w1) % m == 1nat % m,
        (a * w2) % m == 1nat % m,
    ensures
        w1 == w2,
{
    // w1 == w1 * (a * w2) == (w1 * a) * w2 == w2 (mod m)
    let ai = a as int;
    let mi = m as int;
    let w1i = w1 as int;
    let w2i = w2 as int;
    lemma_mul_mod_noop_right(w2i, ai * w1i, mi);
    lemma_mul_mod_noop_right(w2i, 1, mi);
    assert((ai * w1i) % mi == 1int % mi);
    assert(w2i * ((ai * w1i) % mi) == w2i * (1int % mi)) by (nonlinear_arith)
        requires
            (ai * w1i) % mi == 1int % mi,
    ;
    assert((w2i * (ai * w1i)) % mi == (w2i * 1) % mi);
    lemma_mul_mod_noop_right(w1i, ai * w2i, mi);
    lemma_mul_mod_noop_right(w1i, 1, mi);
    assert((ai * w2i) % mi == 1int % mi);
    assert(w1i * ((ai * w2i) % mi) == w1i * (1int % mi)) by (nonlinear_arith)
        requires
            (ai * w2i) % mi == 1int % mi,
    ;
    assert((w1i * (ai * w2i)) % mi == (w1i * 1) % mi);
    assert(w2i * (ai * w1i) == w1i * (ai * w2i)) by (nonlinear_arith);
    lemma_small_mod(w1, m);
    lemma_small_mod(w2, m);
    assert(w1i * 1 == w1i) by (nonlinear_arith);
    assert(w2i * 1 == w2i) by (nonlinear_arith);
    assert(w1i % mi == w2i % mi);
}

/// Whoever has an inverse is coprime to the modulus.
pub proof fn lemma_coprime_of_inverse(a: nat, m: nat, w: nat)
    requires
        m >= 2,
        (a * w) % m == 1nat % m,
    ensures
        gcd(a, m) == 1,
{
    lemma_small_mod(1, m);
    lemma_gcd_divides(a, m);
    let d = gcd(a, m);
    let k1 = choose|k: nat| a == #[trigger] (k * d);
    let k2 = choose|k: nat| m == #[trigger] (k * d);
    lemma_fundamental_div_mod((a * w) as int, m as int);
    let q = ((a * w) as int) / (m as int);
    assert(a * w == q * m + 1);
    assert(1 == (k1 * w - q * k2) * d) by (nonlinear_arith)
        requires
            (k1 * d) * w == q * (k2 * d) + 1,
    ;
    let z = k1 * w - q * k2;
    assert(z * d == 1);
    if d == 0 {
        assert(z * d == 0) by (nonlinear_arith)
            requires
                d == 0,
        ;
        assert(false);
    }
    if d >= 2 {
        if z >= 1 {
            assert(z * d >= 2) by (nonlinear_arith)
                requires
                    z >= 1,
                    d >= 2,
            ;
            assert(false);
        } else {
            assert(z * d <= 0) by (nonlinear_arith)
                requires
                    z <= 0,
                    d >= 0,
            ;
            assert(false);
        }
    }
}

/// `pow2` agrees with the natural power of two.
pub proof fn lemma_pow2_is_npow2(e: nat)
    ensures
        pow2(e) == npow(2, e),
    decreases e,
{
    if e == 0 {
        vstd::arithmetic::power2::lemma2_to64();
    } else {
        lemma_pow2_is_npow2((e - 1) as nat);
        vstd::arithmetic::power2::lemma_pow2_unfold(e);
    }
}

/// Against an odd modulus, the powers of two and of `(m + 1) / 2` are
/// mutually inverse.
pub proof fn lemma_half_pow_inverse(m: nat, k: nat)
    requires
        m >= 1,
        m % 2 == 1,
    ensures
        (npow(2, k) * npow((m + 1) / 2, k)) % m == 1nat % m,
    decreases k,
{
    let h = (m + 1) / 2;
    if k == 0 {
        assert(npow(2, 0) * npow(h, 0) == 1) by (nonlinear_arith)
            requires
                npow(2, 0) == 1,
                npow(h, 0) == 1,
        ;
    } else {
        lemma_half_pow_inverse(m, (k - 1) as nat);
        let x = npow(2, (k - 1) as nat) * npow(h, (k - 1) as nat);
        lemma_fundamental_div_mod((m + 1) as int, 2);
        vstd::arithmetic::div_mod::lemma_mod_bound((m + 1) as int, 2);
        assert((m + 1) % 2 == 0) by {
            lemma_mod_breakdown((m + 1) as int, 1, 2);
            assert((m + 1) as int % 2int == ((m as int) + 1) % 2);
            vstd::arithmetic::div_mod::lemma_add_mod_noop(m as int, 1, 2);
        }
        assert(2 * h == m + 1);
        assert(npow(2, k) * npow(h, k) == (2 * h) * x) by (nonlinear_arith)
            requires
                npow(2, k) == 2 * npow(2, (k - 1) as nat),
                npow(h, k) == h * npow(h, (k - 1) as nat),
                x == npow(2, (k - 1) as nat) * npow(h, (k - 1) as nat),
        ;
        assert((m + 1) * x == m * x + x) by (nonlinear_arith);
        lemma_mod_multiples_vanish(x as int, x as int, m as int);
        assert((m as int) * (x as int) + (x as int) == ((m * x + x) as int));
    }
}

/// Cancel a common factor that has an inverse modulo `m`.
pub proof fn lemma_mod_mul_cancel(m: nat, r: nat, v: nat, a: nat, b: nat)
    requires
        m >= 1,
        (r * v) % m == 1nat % m,
        (a * r) % m == (b * r) % m,
    ensures
        a % m == b % m,
{
    let mi = m as int;
    let ri = r as int;
    let vi = v as int;
    let ai = a as int;
    let bi = b as int;
    // a == a * (r v) == (a r) v (mod m), and likewise for b
    lemma_mul_mod_noop_right(ai, ri * vi, mi);
    lemma_mul_mod_noop_right(ai, 1, mi);
    assert(ai * ((ri * vi) % mi) == ai * (1int % mi)) by (nonlinear_arith)
        requires
            (ri * vi) % mi == 1int % mi,
    ;
    assert((ai * (ri * vi)) % mi == (ai * 1) % mi);
    assert(ai * 1 == ai) by (nonlinear_arith);
    vstd::arithmetic::div_mod::lemma_mod_twice(1, mi);
    lemma_mul_mod_noop_right(bi, ri * vi, mi);
    lemma_mul_mod_noop_right(bi, 1, mi);
    assert(bi * ((ri * vi) % mi) == bi * (1int % mi)) by (nonlinear_arith)
        requires
            (ri * vi) % mi == 1int % mi,
    ;
    assert((bi * (ri * vi)) % mi == (bi * 1) % mi);
    assert(bi * 1 == bi) by (nonlinear_arith);
    // (a r) v == (b r) v (mod m)
    vstd::arithmetic::div_mod::lemma_mul_mod_noop_left(ai * ri, vi, mi);
    vstd::arithmetic::div_mod::lemma_mul_mod_noop_left(bi * ri, vi, mi);
    assert(((ai * ri) % mi) * vi == ((bi * ri) % mi) * vi) by (nonlinear_arith)
        requires
            (ai * ri) % mi == (bi * ri) % mi,
    ;
    assert(((ai * ri) * vi) % mi == ((bi * ri) * vi) % mi);
    assert(ai * (ri * vi) == (ai * ri) * vi) by (nonlinear_arith);
    assert(bi * (ri * vi) == (bi * ri) * vi) by (nonlinear_arith);
}

/// Primality, as the absence of proper divisors.
pub open spec fn is_prime(n: nat) -> bool {
    n >= 2 && forall|d: nat| 2 <= d < n ==> #[trigger] (n % d) != 0
}

/// `b^(m * n) == (b^m)^n`.
pub proof fn lemma_npow_multiplies(b: nat, m: nat, n: nat)
    ensures
        npow(b, m * n) == npow(npow(b, m), n),
    decreases n,
{
    if n == 0 {
        assert(m * 0 == 0) by (nonlinear_arith);
    } else {
        lemma_npow_multiplies(b, m, (n - 1) as nat);
        assert(m * n == m * (n - 1) + m) by (nonlinear_arith);
        lemma_npow_adds(b, m * (n - 1) as nat, m);
        assert(npow(npow(b, m), n) == npow(b, m) * npow(npow(b, m), (n - 1) as nat));
        assert(npow(b, m * (n - 1) as nat) * npow(b, m)
            == npow(b, m) * npow(b, m * (n - 1) as nat)) by (nonlinear_arith);
    }
}

/// One is fixed by every power.
pub proof fn lemma_npow_one(e: nat)
    ensures
        npow(1, e) == 1,
    decreases e,
{
    if e > 0 {
        lemma_npow_one((e - 1) as nat);
    }
}

/// Bezout: some integer combination of `a` and `b` reaches their gcd.
pub proof fn lemma_bezout(a: nat, b: nat)
    ensures
        exists|u: int, v: int| #[trigger] (u * a + v * b) == gcd(a, b),
    decreases b,
{
    if b == 0 {
        assert(1int * a + 0int * b == gcd(a, 0)) by (nonlinear_arith)
            requires
                gcd(a, 0) == a,
        ;
    } else {
        lemma_bezout(b, a % b);
        let (u2, v2) = choose|u2: int, v2: int| #[trigger] (u2 * b + v2 * (a % b))
            == gcd(b, a % b);
        lemma_fundamental_div_mod(a as int, b as int);
        let q = a as int / b as int;
        assert(a % b == a - b * q);
        let u = v2;
        let v = u2 - v2 * q;
        assert(u * a + v * b == u2 * b + v2 * (a - b * q)) by (nonlinear_arith)
            requires
                u == v2,
                v == u2 - v2 * q,
        ;
        assert(u * a + v * b == gcd(a, b));
    }
}

/// An element coprime to the modulus has an inverse below it.
pub proof fn lemma_inverse_exists(a: nat, m: nat)
    requires
        m >= 2,
        gcd(a, m) == 1,
    ensures
        exists|w: nat| w < m && #[trigger] ((a * w) % m) == 1nat % m,
{
    lemma_bezout(a, m);
    let (u, v) = choose|u: int, v: int| #[trigger] (u * a + v * m) == gcd(a, m);
    assert(u * a + v * m == 1);
    let mi = m as int;
    let w = ((u % mi) + mi) % mi;
    lemma_mod_bound(u % mi + mi, mi);
    vstd::arithmetic::div_mod::lemma_mod_bound(u, mi);
    assert(0 <= w < mi);
    // (a * w) == (a * u) mod m, and a * u == 1 - v * m
    vstd::arithmetic::div_mod::lemma_mod_add_multiples_vanish(u % mi, mi);
    lemma_mod_twice(u, mi);
    assert(w % mi == u % mi);
    lemma_mul_mod_noop_right(a as int, w, mi);
    lemma_mul_mod_noop_right(a as int, u, mi);
    assert((a as int) * (w % mi) == (a as int) * (u % mi));
    assert(((a as int) * w) % mi == ((a as int) * u) % mi);
    assert((a as int) * u == mi * (-v) + 1) by (nonlinear_arith)
        requires
            u * (a as int) + v * mi == 1,
    ;
    lemma_mod_multiples_vanish(-v, 1, mi);
    let wn = w as nat;
    assert(((a * wn) as int) % mi == 1int % mi);
    assert(wn < m && (a * wn) % m == 1nat % m);
}

/// Every residue in `(0, q)` is coprime to a prime `q`.
pub proof fn lemma_prime_coprime(q: nat, s: nat)
    requires
        is_prime(q),
        0 < s < q,
    ensures
        gcd(s, q) == 1,
{
    lemma_gcd_divides(s, q);
    let d = gcd(s, q);
    let k1 = choose|k: nat| s == #[trigger] (k * d);
    let k2 = choose|k: nat| q == #[trigger] (k * d);
    if d == 0 {
        assert(s == k1 * 0);
        assert(k1 * 0 == 0) by (nonlinear_arith);
        assert(false);
    }
    if d >= 2 {
        // d divides q and d <= s < q, contradicting primality
        assert(d <= s) by {
            if d > s {
                if k1 == 0 {
                    assert(k1 * d == 0) by (nonlinear_arith)
                        requires
                            k1 == 0,
                    ;
                    assert(false);
                } else {
                    assert(k1 * d >= d) by (nonlinear_arith)
                        requires
                            k1 >= 1,
                            d >= 0,
                    ;
                    assert(false);
                }
            }
        }
        vstd::arithmetic::div_mod::lemma_mod_multiples_basic(k2 as int, d as int);
        assert((k2 * d) as int % (d as int) == 0);
        assert(q % d == 0);
        assert(false);
    }
}

/// Splitting a residue at one more bit of the modulus' power of two.
pub proof fn lemma_mod_bit_split(e: nat, i: nat)
    ensures
        e % pow2(i + 1) == e % pow2(i) + pow2(i) * ((e / pow2(i)) % 2),
{
    lemma_pow2_pos(i);
    vstd::arithmetic::power2::lemma_pow2_unfold(i + 1);
    lemma_mod_breakdown(e as int, pow2(i) as int, 2);
    assert(pow2(i + 1) == pow2(i) * 2);
}

} // verus!
