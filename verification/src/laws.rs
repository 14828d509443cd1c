//! The library's general laws, stated and proved against the same
//! specification functions its contracts use.

use vstd::prelude::*;
use vstd::arithmetic::div_mod::{lemma_fundamental_div_mod, lemma_fundamental_div_mod_converse,
    lemma_mod_bound, lemma_small_mod, lemma_mod_twice, lemma_mul_mod_noop_right,
    lemma_mul_mod_noop_general};
use crate::codec::be_bytes_value;
use crate::nt::{npow, gcd, is_prime, lemma_npow_adds, lemma_npow_multiplies, lemma_npow_one,
    lemma_npow_mod_base, lemma_npow_mul_mod, lemma_inverse_exists, lemma_prime_coprime};
use crate::dsa::{inv_mod, sign_outcome, verify_accepts, verify_equation};

verus! {

/// A fixed-width big-endian encoding of a value is the only one: decoding
/// returns the value, and no other buffer of that width decodes to it.
pub proof fn lemma_codec_round_trip(v: nat, w: nat, out: Seq<u8>)
    requires
        out.len() == w,
        be_bytes_value(out) == v,
    ensures
        forall|other: Seq<u8>|
            other.len() == w && be_bytes_value(other) == v ==> other =~= out,
{
    assert forall|other: Seq<u8>|
        other.len() == w && be_bytes_value(other) == v implies other =~= out by {
        crate::codec::lemma_be_unique(other, out);
    }
}

/// Subtracting an addend recovers the other; addition commutes and
/// associates. These hold of the values `add` and `sub` promise to return.
pub proof fn lemma_add_sub_round_trip(a: nat, b: nat, c: nat)
    ensures
        ((a + b) - b) as nat == a,
        a + b == b + a,
        (a + b) + c == a + (b + c),
{
}

/// The quotient-remainder pair with `a == q b + r` and `r < b` is the one
/// division returns.
pub proof fn lemma_div_rem_determined(a: nat, b: nat, qv: nat, rv: nat)
    requires
        b > 0,
        a == qv * b + rv,
        rv < b,
    ensures
        qv == a / b,
        rv == a % b,
{
    lemma_fundamental_div_mod_converse(a as int, b as int, qv as int, rv as int);
}

/// Two multiplication routines that both meet the product contract return
/// the same words: the Karatsuba recursion and the schoolbook routine each
/// promise the mathematical product, so their outputs agree input for input.
pub proof fn lemma_multiplications_agree(a: nat, b: nat, v1: nat, v2: nat)
    requires
        v1 == a * b,
        v2 == a * b,
    ensures
        v1 == v2,
{
}

/// Two exponentiation strategies that both meet the modular-power contract
/// return the same value; the Montgomery form and the plain fallback each
/// promise `npow(b, e) % m`, so their outputs agree input for input.
pub proof fn lemma_strategies_agree(b: nat, e: nat, m: nat, v1: nat, v2: nat)
    requires
        m >= 1,
        v1 == npow(b, e) % m,
        v2 == npow(b, e) % m,
    ensures
        v1 == v2,
{
}

/// A modular inverse certifies coprimality: when some `t` multiplies `a`
/// to one modulo `m`, the gcd of `a` and `m` is one; and conversely a unit
/// residue really is one for any modulus of at least two.
pub proof fn lemma_inverse_certifies_coprime(a: nat, m: nat, t: nat)
    requires
        m >= 2,
        (a * t) % m == 1nat % m,
    ensures
        gcd(a, m) == 1,
        (a * t) % m == 1,
{
    crate::nt::lemma_coprime_of_inverse(a, m, t);
    lemma_small_mod(1, m);
}

/// Exponents that agree modulo the order of `g` give the same power of `g`.
proof fn lemma_pow_reduce(g: nat, p: nat, q: nat, a: nat)
    requires
        p >= 2,
        q >= 1,
        npow(g, q) % p == 1nat % p,
    ensures
        npow(g, a) % p == npow(g, a % q) % p,
{
    lemma_fundamental_div_mod(a as int, q as int);
    lemma_mod_bound(a as int, q as int);
    let e = a / q;
    let t = a % q;
    assert(a == q * e + t);
    lemma_npow_adds(g, q * e, t);
    lemma_npow_multiplies(g, q, e);
    lemma_npow_mod_base(npow(g, q), e, p);
    // npow(g, q e) == 1 modulo p
    lemma_small_mod(1, p);
    assert(npow(g, q) % p == 1);
    lemma_npow_one(e);
    assert(npow(npow(g, q) % p, e) == 1);
    assert(npow(g, q * e) % p == 1nat % p);
    // fold the two factors back together
    lemma_mul_mod_noop_general(npow(g, q * e) as int, npow(g, t) as int, p as int);
    assert(npow(g, a) % p == ((npow(g, q * e) % p) * (npow(g, t) % p)) % p);
    let hi = npow(g, q * e) % p;
    let lo = npow(g, t) % p;
    assert(hi == 1);
    assert(hi * lo == lo) by (nonlinear_arith)
        requires
            hi == 1,
    ;
    lemma_mod_twice(npow(g, t) as int, p as int);
}

/// Congruent exponents give congruent powers.
proof fn lemma_pow_mod_order(g: nat, p: nat, q: nat, a: nat, b: nat)
    requires
        p >= 2,
        q >= 1,
        npow(g, q) % p == 1nat % p,
        a % q == b % q,
    ensures
        npow(g, a) % p == npow(g, b) % p,
{
    lemma_pow_reduce(g, p, q, a);
    lemma_pow_reduce(g, p, q, b);
}

/// The signing equation inverts: with `s == k^{-1}(z + x r) mod q` and `w`
/// the inverse of `s`, the verification exponents recombine to the nonce.
proof fn lemma_sign_exponent(q: nat, k: nat, kinv: nat, z: nat, x: nat, r: nat, s: nat, w: nat)
    requires
        q >= 2,
        (k * kinv) % q == 1nat % q,
        s == (kinv * (z + x * r)) % q,
        (s * w) % q == 1nat % q,
    ensures
        ((z * w) % q + x * ((r * w) % q)) % q == k % q,
{
    let qi = q as int;
    let ki = k as int;
    let kvi = kinv as int;
    let zi = z as int;
    let xi = x as int;
    let ri = r as int;
    let si = s as int;
    let wi = w as int;
    let ai = zi + xi * ri;
    lemma_small_mod(1, q);
    // w * a == (w * kinv * a) * k (mod q), since kinv * k == 1
    lemma_mul_mod_noop_right(wi * ai, ki * kvi, qi);
    lemma_mul_mod_noop_right(wi * ai, 1, qi);
    assert((wi * ai) * ((ki * kvi) % qi) == (wi * ai) * 1) by (nonlinear_arith)
        requires
            (ki * kvi) % qi == 1,
    ;
    assert(((wi * ai) * (ki * kvi)) % qi == ((wi * ai) * 1) % qi);
    assert((wi * ai) * 1 == wi * ai) by (nonlinear_arith);
    // (w a)(k kinv) == ((w (kinv a)) k)
    assert((wi * ai) * (ki * kvi) == (wi * (kvi * ai)) * ki) by (nonlinear_arith);
    // w (kinv a) == w s (mod q), since s == (kinv a) % q
    lemma_mul_mod_noop_general(wi * (kvi * ai), ki, qi);
    lemma_mul_mod_noop_general(wi, kvi * ai, qi);
    assert((wi * (kvi * ai)) % qi == (wi * ((kvi * ai) % qi)) % qi) by {
        lemma_mul_mod_noop_right(wi, kvi * ai, qi);
    }
    assert((kvi * ai) % qi == si);
    assert((wi * (kvi * ai)) % qi == (wi * si) % qi);
    assert((wi * si) % qi == (si * wi) % qi) by (nonlinear_arith);
    // so ((w (kinv a)) k) % q == ((w s) % q * k) % q == k % q
    lemma_mul_mod_noop_general(wi * (kvi * ai), ki, qi);
    assert(((wi * (kvi * ai)) * ki) % qi == (((wi * (kvi * ai)) % qi) * (ki % qi)) % qi);
    assert((((wi * si) % qi) * (ki % qi)) % qi == ((si * wi) % qi * (ki % qi)) % qi);
    let one_mod = 1int % qi;
    let k_mod = ki % qi;
    assert(one_mod == 1);
    assert(one_mod * k_mod == k_mod) by (nonlinear_arith)
        requires
            one_mod == 1,
    ;
    lemma_mod_twice(ki, qi);
    assert((((wi * (kvi * ai)) % qi) * (ki % qi)) % qi == ki % qi);
    assert((wi * ai) % qi == ki % qi);
    // finally the exponent sum is w a modulo q
    let u1 = (zi * wi) % qi;
    let u2 = (ri * wi) % qi;
    lemma_mod_bound(zi * wi, qi);
    lemma_mod_bound(ri * wi, qi);
    vstd::arithmetic::div_mod::lemma_add_mod_noop(zi * wi, xi * ((ri * wi) % qi), qi);
    lemma_mod_twice(zi * wi, qi);
    assert((u1 + xi * u2) % qi == ((zi * wi) % qi + (xi * u2) % qi) % qi) by {
        vstd::arithmetic::div_mod::lemma_add_mod_noop(u1, xi * u2, qi);
        lemma_mod_twice(zi * wi, qi);
        assert(u1 % qi == (zi * wi) % qi);
    }
    lemma_mul_mod_noop_right(xi, ri * wi, qi);
    assert((xi * u2) % qi == (xi * (ri * wi)) % qi);
    vstd::arithmetic::div_mod::lemma_add_mod_noop(zi * wi, xi * (ri * wi), qi);
    assert((u1 + xi * u2) % qi == (zi * wi + xi * (ri * wi)) % qi) by {
        vstd::arithmetic::div_mod::lemma_add_mod_noop(zi * wi, xi * (ri * wi), qi);
    }
    assert(zi * wi + xi * (ri * wi) == wi * ai) by (nonlinear_arith)
        requires
            ai == zi + xi * ri,
    ;
    assert(((zi * wi) % qi + xi * ((ri * wi) % qi)) % qi == ki % qi);
}

/// Signature completeness: whenever signing a digest value with a nonce in
/// `(0, q)` yields a pair at all, verifying that pair against the matching
/// public value accepts it. This needs `q` prime and `g` of order dividing
/// `q` in the multiplicative group modulo `p`.
pub proof fn lemma_signature_completeness(p: nat, q: nat, g: nat, x: nat, z: nat, k: nat)
    requires
        p >= 2,
        is_prime(q),
        npow(g, q) % p == 1nat % p,
        0 < k < q,
        sign_outcome(p, q, g, x, z, k) is Some,
    ensures
        ({
            let (r, s) = sign_outcome(p, q, g, x, z, k)->Some_0;
            verify_accepts(p, q, g, npow(g, x) % p, r, s, z)
        }),
{
    let r = (npow(g, k) % p) % q;
    let kinv = inv_mod(k, q);
    let s = (kinv * (z + x * r)) % q;
    assert(gcd(k, q) != 1 ==> sign_outcome(p, q, g, x, z, k) is None);
    assert(gcd(k, q) == 1);
    assert(r != 0 && s != 0);
    lemma_mod_bound((npow(g, k) % p) as int, q as int);
    lemma_mod_bound((kinv * (z + x * r)) as int, q as int);
    // the nonce's inverse is grounded by coprimality
    lemma_inverse_exists(k, q);
    assert(kinv < q && (k * kinv) % q == 1nat % q) by {
        assert(exists|w0: nat| w0 < q && #[trigger] ((k * w0) % q) == 1nat % q);
    }
    // s is invertible because q is prime
    lemma_prime_coprime(q, s);
    lemma_inverse_exists(s, q);
    let w = inv_mod(s, q);
    assert(w < q && (s * w) % q == 1nat % q) by {
        assert(exists|w0: nat| w0 < q && #[trigger] ((s * w0) % q) == 1nat % q);
    }
    // the exponents recombine to the nonce
    lemma_sign_exponent(q, k, kinv, z, x, r, s, w);
    let u1 = (z * w) % q;
    let u2 = (r * w) % q;
    let y = npow(g, x) % p;
    // y^u2 is g^(x u2) modulo p
    lemma_npow_mod_base(npow(g, x), u2, p);
    lemma_npow_multiplies(g, x, u2);
    assert(npow(y, u2) % p == npow(g, x * u2) % p);
    // the verification product is g to the combined exponent
    lemma_npow_mul_mod(g, u1, x * u2, p);
    assert(((npow(g, u1) % p) * (npow(y, u2) % p)) % p == npow(g, u1 + x * u2) % p);
    // and that exponent is congruent to the nonce modulo the order
    lemma_pow_mod_order(g, p, q, u1 + x * u2, k);
    assert(npow(g, u1 + x * u2) % p == npow(g, k) % p);
    assert(verify_equation(p, q, g, y, r, z, w));
}

} // verus!
