//! The signature protocol over a finite-field subgroup: signing with a
//! random nonce under a retry cap, and verification. Scalar-level
//! functions carry exact contracts; the digest enters them as a value.

use vstd::prelude::*;
use vstd::arithmetic::div_mod::lemma_mul_mod_noop_right;
use crate::limbs::lemma_lv_bound;
use crate::bigint::BigInt;
use crate::nt::{npow, gcd};
use crate::codec::be_bytes_value;
use crate::sha256::Sha256;
use crate::rng::random_bytes;
use crate::Error;

verus! {

/// How many nonces signing will try before giving up with `RetryExhausted`.
pub(crate) const SIGN_RETRY_CAP: usize = 128;

/// The modular inverse of `a` against `m`, as a value; meaningful when one
/// exists.
pub open spec fn inv_mod(a: nat, m: nat) -> nat {
    choose|w: nat| w < m && #[trigger] ((a * w) % m) == 1nat % m
}

/// The check at the heart of verification: with `w` the inverse of `s`,
/// whether `(g^(z w) * y^(r w) mod p) mod q` lands back on `r`.
pub open spec fn verify_equation(p: nat, q: nat, g: nat, y: nat, r: nat, z: nat, w: nat)
    -> bool {
    let u1 = (z * w) % q;
    let u2 = (r * w) % q;
    (((npow(g, u1) % p) * (npow(y, u2) % p)) % p) % q == r
}

/// Whether verification accepts the pair `(r, s)` for digest value `z`.
pub open spec fn verify_accepts(p: nat, q: nat, g: nat, y: nat, r: nat, s: nat, z: nat)
    -> bool {
    &&& 0 < r < q
    &&& 0 < s < q
    &&& gcd(s, q) == 1
    &&& verify_equation(p, q, g, y, r, z, inv_mod(s, q))
}

/// What signing makes of one candidate nonce: the pair, or nothing when the
/// nonce is rejected.
pub open spec fn sign_outcome(p: nat, q: nat, g: nat, x: nat, z: nat, k: nat) -> Option<
    (nat, nat),
> {
    let r = (npow(g, k) % p) % q;
    if gcd(k, q) != 1 {
        None
    } else {
        let s = (inv_mod(k, q) * (z + x * r)) % q;
        if r == 0 || s == 0 {
            None
        } else {
            Some((r, s))
        }
    }
}

/// Verification against a digest value: reject out-of-range scalars, invert
/// `s` (an uninvertible `s` is a plain rejection), and test the equation.
pub fn verify_digest(p: &BigInt, q: &BigInt, g: &BigInt, y: &BigInt, r: &BigInt, s: &BigInt,
    z: &BigInt) -> (out: Result<bool, Error>)
    requires
        p.wf(),
        q.wf(),
        g.wf(),
        y.wf(),
        r.wf(),
        s.wf(),
        z.wf(),
        p.word_count() <= usize::MAX / 1024,
        q.word_count() <= usize::MAX / 1024,
        g.word_count() <= usize::MAX / 1024,
        y.word_count() <= usize::MAX / 1024,
        r.word_count() <= usize::MAX / 1024,
        s.word_count() <= usize::MAX / 1024,
        z.word_count() <= usize::MAX / 1024,
    ensures
        !(0 < r@ < q@ && 0 < s@ < q@) ==> out == Ok::<bool, Error>(false),
        (0 < r@ < q@ && 0 < s@ < q@ && gcd(s@, q@) != 1) ==> out == Ok::<bool, Error>(false),
        (0 < r@ < q@ && 0 < s@ < q@ && gcd(s@, q@) == 1 && p@ == 0) ==> out == Err::<
            bool,
            Error,
        >(Error::ZeroModulus),
        (0 < r@ < q@ && 0 < s@ < q@ && gcd(s@, q@) == 1 && p@ >= 1) ==> out == Ok::<
            bool,
            Error,
        >(verify_accepts(p@, q@, g@, y@, r@, s@, z@)),
{
    let zero = BigInt::zero();
    if !(zero.less_than(r) && r.less_than(q)) {
        return Ok(false);
    }
    if !(zero.less_than(s) && s.less_than(q)) {
        return Ok(false);
    }
    let w = match s.mod_inverse(q) {
        Ok(w) => w,
        Err(_) => {
            return Ok(false);
        },
    };
    proof {
        // the computed inverse is the inverse the specification names
        assert(w@ < q@ && (s@ * w@) % q@ == 1nat % q@);
        let wc = inv_mod(s@, q@);
        assert(wc < q@ && (s@ * wc) % q@ == 1nat % q@) by {
            assert(exists|w0: nat| w0 < q@ && #[trigger] ((s@ * w0) % q@) == 1nat % q@) by {
                assert(w@ < q@ && (s@ * w@) % q@ == 1nat % q@);
            }
        }
        crate::nt::lemma_inverse_unique(s@, q@, w@, wc);
    }
    let u1 = z.mul(&w).div_rem_pos(q).1;
    let u2 = r.mul(&w).div_rem_pos(q).1;
    let gu1 = match g.mod_pow(&u1, p) {
        Ok(v) => v,
        Err(e) => {
            return Err(e);
        },
    };
    let yu2 = match y.mod_pow(&u2, p) {
        Ok(v) => v,
        Err(e) => {
            return Err(e);
        },
    };
    proof {
        lemma_lv_bound(q.limbs@);
        u1.lemma_wc_bound(q.word_count());
        u2.lemma_wc_bound(q.word_count());
        lemma_lv_bound(p.limbs@);
        gu1.lemma_wc_bound(p.word_count());
        yu2.lemma_wc_bound(p.word_count());
    }
    let v1 = gu1.mul(&yu2).div_rem_pos(p).1;
    let v = v1.div_rem_pos(q).1;
    Ok(v.equals(r))
}

/// One signing attempt with a supplied nonce: compute
/// `r = (g^k mod p) mod q` and `s = k^{-1}(z + x r) mod q`, rejecting the
/// nonce when either comes out zero or the nonce has no inverse.
pub fn sign_with_nonce(p: &BigInt, q: &BigInt, g: &BigInt, x: &BigInt, z: &BigInt, k: &BigInt)
    -> (out: Option<(BigInt, BigInt)>)
    requires
        p.wf(),
        q.wf(),
        g.wf(),
        x.wf(),
        z.wf(),
        k.wf(),
        p@ >= 1,
        q@ >= 1,
        p.word_count() <= usize::MAX / 1024,
        q.word_count() <= usize::MAX / 1024,
        g.word_count() <= usize::MAX / 1024,
        x.word_count() <= usize::MAX / 1024,
        z.word_count() <= usize::MAX / 1024,
        k.word_count() <= usize::MAX / 1024,
    ensures
        match sign_outcome(p@, q@, g@, x@, z@, k@) {
            Some((rv, sv)) => out matches Some(pair) && pair.0.wf() && pair.1.wf()
                && pair.0@ == rv && pair.1@ == sv,
            None => out is None,
        },
{
    let gk = match g.mod_pow(k, p) {
        Ok(v) => v,
        Err(_) => {
            proof {
                assert(false);
            }
            return None;
        },
    };
    proof {
        lemma_lv_bound(p.limbs@);
        gk.lemma_wc_bound(p.word_count());
    }
    let r = gk.div_rem_pos(q).1;
    let kinv = match k.mod_inverse(q) {
        Ok(v) => v,
        Err(_) => {
            return None;
        },
    };
    proof {
        // the computed inverse matches the named one
        let wc = inv_mod(k@, q@);
        assert(wc < q@ && (k@ * wc) % q@ == 1nat % q@) by {
            assert(exists|w0: nat| w0 < q@ && #[trigger] ((k@ * w0) % q@) == 1nat % q@) by {
                assert(kinv@ < q@ && (k@ * kinv@) % q@ == 1nat % q@);
            }
        }
        crate::nt::lemma_inverse_unique(k@, q@, kinv@, wc);
        lemma_lv_bound(q.limbs@);
        r.lemma_wc_bound(q.word_count());
        kinv.lemma_wc_bound(q.word_count());
    }
    if r.is_zero() {
        return None;
    }
    let xr = x.mul(&r);
    let zxr = z.add(&xr);
    let zxr_mod = zxr.div_rem_pos(q).1;
    proof {
        zxr_mod.lemma_wc_bound(q.word_count());
    }
    let s_pre = kinv.mul(&zxr_mod);
    let s = s_pre.div_rem_pos(q).1;
    proof {
        // reducing z + x r before the multiplication does not change s
        lemma_mul_mod_noop_right(kinv@ as int, (z@ + x@ * r@) as int, q@ as int);
        assert(s@ == (kinv@ * ((z@ + x@ * r@) % q@)) % q@);
        assert(s@ == (kinv@ * (z@ + x@ * r@)) % q@);
    }
    if s.is_zero() {
        return None;
    }
    Some((r, s))
}

/// Sign a message: hash it, then draw nonces until one yields a signature,
/// up to a fixed retry cap; the scalars leave as 32-byte buffers.
pub fn dsa_sign(p: &BigInt, q: &BigInt, g: &BigInt, x: &BigInt, message: &[u8]) -> (out: Result<
    (Vec<u8>, Vec<u8>),
    Error,
>)
    requires
        p.wf(),
        q.wf(),
        g.wf(),
        x.wf(),
        p@ >= 1,
        q@ >= 1,
        p.word_count() <= usize::MAX / 1024,
        q.word_count() <= usize::MAX / 1024,
        g.word_count() <= usize::MAX / 1024,
        x.word_count() <= usize::MAX / 1024,
        message@.len() * 8 <= u64::MAX,
    ensures
        out matches Ok(pair) ==> pair.0@.len() == 32 && pair.1@.len() == 32
            && exists|kv: nat, zv: nat| 0 < kv < q@ && sign_outcome(p@, q@, g@, x@, zv, kv)
            == Some((be_bytes_value(pair.0@), be_bytes_value(pair.1@))),
        out matches Err(e) ==> e == Error::RetryExhausted || e == Error::EncodingTooNarrow,
{
    let mut hasher = Sha256::new();
    hasher.update(message);
    let digest = hasher.finalize();
    let z = BigInt::from_bytes_be(digest.as_slice());
    proof {
        crate::codec::lemma_be_bound(digest@);
        vstd::arithmetic::power2::lemma_pow2_strictly_increases(8 * 32, 64 * 33);
        z.lemma_wc_bound(33);
    }
    let mut tries: usize = 0;
    while tries < SIGN_RETRY_CAP
        invariant
            p.wf(),
            q.wf(),
            g.wf(),
            x.wf(),
            z.wf(),
            p@ >= 1,
            q@ >= 1,
            p.word_count() <= usize::MAX / 1024,
            q.word_count() <= usize::MAX / 1024,
            g.word_count() <= usize::MAX / 1024,
            x.word_count() <= usize::MAX / 1024,
            z.word_count() <= usize::MAX / 1024,
        decreases SIGN_RETRY_CAP - tries,
    {
        let draw = random_bytes(q.limbs.len() * 8);
        let kr = BigInt::from_bytes_be(draw.as_slice());
        proof {
            crate::codec::lemma_be_bound(draw@);
            if 8 * draw@.len() < 64 * (q.word_count() + 1) {
                vstd::arithmetic::power2::lemma_pow2_strictly_increases(8 * draw@.len(),
                    64 * (q.word_count() + 1));
            }
            kr.lemma_wc_bound(q.word_count() + 1);
        }
        let k = kr.div_rem_pos(q).1;
        proof {
            lemma_lv_bound(q.limbs@);
            k.lemma_wc_bound(q.word_count());
        }
        if !k.is_zero() {
            match sign_with_nonce(p, q, g, x, &z, &k) {
                Some(pair) => {
                    proof {
                        vstd::arithmetic::div_mod::lemma_mod_bound(
                            ((npow(g@, k@) % p@) as int), q@ as int);
                        vstd::arithmetic::div_mod::lemma_mod_bound(
                            ((inv_mod(k@, q@) * (z@ + x@ * (npow(g@, k@) % p@) % q@)) as int),
                            q@ as int);
                        lemma_lv_bound(q.limbs@);
                        assert(pair.0@ < q@);
                        pair.0.lemma_wc_bound(q.word_count());
                        pair.1.lemma_wc_bound(q.word_count());
                    }
                    let rb = match pair.0.to_bytes_be_pad(32) {
                        Ok(b) => b,
                        Err(_) => {
                            return Err(Error::EncodingTooNarrow);
                        },
                    };
                    let sb = match pair.1.to_bytes_be_pad(32) {
                        Ok(b) => b,
                        Err(_) => {
                            return Err(Error::EncodingTooNarrow);
                        },
                    };
                    proof {
                        let kv = k@;
                        let zv = z@;
                        assert(0 < kv < q@);
                        assert(sign_outcome(p@, q@, g@, x@, zv, kv)
                            == Some((be_bytes_value(rb@), be_bytes_value(sb@))));
                    }
                    return Ok((rb, sb));
                },
                None => {
                },
            }
        }
        tries = tries + 1;
    }
    Err(Error::RetryExhausted)
}

/// Verify a signed message: reject out-of-range scalars at once, hash the
/// message, and test the verification equation; an uninvertible `s` is a
/// plain `false`, never a fault.
pub fn dsa_verify(p: &BigInt, q: &BigInt, g: &BigInt, y: &BigInt, r: &BigInt, s: &BigInt,
    message: &[u8]) -> (out: Result<bool, Error>)
    requires
        p.wf(),
        q.wf(),
        g.wf(),
        y.wf(),
        r.wf(),
        s.wf(),
        p.word_count() <= usize::MAX / 1024,
        q.word_count() <= usize::MAX / 1024,
        g.word_count() <= usize::MAX / 1024,
        y.word_count() <= usize::MAX / 1024,
        r.word_count() <= usize::MAX / 1024,
        s.word_count() <= usize::MAX / 1024,
        message@.len() * 8 <= u64::MAX,
    ensures
        !(0 < r@ < q@ && 0 < s@ < q@) ==> out == Ok::<bool, Error>(false),
        (0 < r@ < q@ && 0 < s@ < q@ && gcd(s@, q@) != 1) ==> out == Ok::<bool, Error>(false),
        (0 < r@ < q@ && 0 < s@ < q@ && gcd(s@, q@) == 1 && p@ == 0) ==> out == Err::<
            bool,
            Error,
        >(Error::ZeroModulus),
        (0 < r@ < q@ && 0 < s@ < q@ && gcd(s@, q@) == 1 && p@ >= 1) ==> (out matches Ok(b)
            && exists|zv: nat| b == verify_accepts(p@, q@, g@, y@, r@, s@, zv)),
{
    let mut hasher = Sha256::new();
    hasher.update(message);
    let digest = hasher.finalize();
    let z = BigInt::from_bytes_be(digest.as_slice());
    proof {
        crate::codec::lemma_be_bound(digest@);
        vstd::arithmetic::power2::lemma_pow2_strictly_increases(8 * 32, 64 * 33);
        z.lemma_wc_bound(33);
    }
    let res = verify_digest(p, q, g, y, r, s, &z);
    proof {
        if 0 < r@ < q@ && 0 < s@ < q@ && gcd(s@, q@) == 1 && p@ >= 1 {
            assert(res == Ok::<bool, Error>(verify_accepts(p@, q@, g@, y@, r@, s@, z@)));
        }
    }
    res
}

} // verus!
