//! The signature protocol and the hash collaborator.

use bignum_dsa::{dsa_sign, dsa_verify, sign_with_nonce, verify_digest, BigInt, Error, Sha256};

fn n(v: u64) -> BigInt {
    BigInt::from_u64(v)
}

fn hex(bytes: &[u8]) -> String {
    let mut s = String::new();
    for b in bytes {
        s.push_str(&format!("{:02x}", b));
    }
    s
}

#[test]
fn sha256_known_vectors() {
    let mut h = Sha256::new();
    h.update(b"abc");
    assert_eq!(
        hex(&h.finalize()),
        "ba7816bf8f01cfea414140de5dae2223b00361a396177a9cb410ff61f20015ad"
    );
    let empty = Sha256::new();
    assert_eq!(
        hex(&empty.finalize()),
        "e3b0c44298fc1c149afbf4c8996fb92427ae41e4649b934ca495991b7852b855"
    );
    // a two-block message: 448 bits of input forces a second padding block
    let mut long = Sha256::new();
    long.update(b"abcdbcdecdefdefgefghfghighijhijkijkljklmklmnlmnomnopnopq");
    assert_eq!(
        hex(&long.finalize()),
        "248d6a61d20638b8e5c026930c3e6039a33ce45964ff2167f6ecedd419db06c1"
    );
}

#[test]
fn sha256_streaming_matches_one_shot() {
    let mut a = Sha256::new();
    a.update(b"hello ");
    a.update(b"world");
    let mut b = Sha256::new();
    b.update(b"hello world");
    assert_eq!(a.finalize(), b.finalize());
}

#[test]
fn toy_group_sign_with_fixed_nonce() {
    // p = 23, q = 11, g = 4, x = 3, digest value z = 5, nonce k = 7:
    // r = (4^7 mod 23) mod 11 = 8 mod 11 = 8
    // k^-1 mod 11 = 8, s = 8 * (5 + 3 * 8) mod 11 = 8 * 29 mod 11 = 1
    let (p, q, g, x, z, k) = (n(23), n(11), n(4), n(3), n(5), n(7));
    let (r, s) = sign_with_nonce(&p, &q, &g, &x, &z, &k).unwrap();
    assert!(r.equals(&n(8)));
    assert!(s.equals(&n(1)));
}

#[test]
fn toy_group_verify_accepts_and_rejects() {
    // y = 4^3 mod 23 = 18; the fixed-nonce signature from the toy group
    let (p, q, g, y) = (n(23), n(11), n(4), n(18));
    let z = n(5);
    assert_eq!(verify_digest(&p, &q, &g, &y, &n(8), &n(1), &z).unwrap(), true);
    // soundness: disturb s, r, or the digest
    assert_eq!(verify_digest(&p, &q, &g, &y, &n(8), &n(2), &z).unwrap(), false);
    assert_eq!(verify_digest(&p, &q, &g, &y, &n(9), &n(1), &z).unwrap(), false);
    assert_eq!(verify_digest(&p, &q, &g, &y, &n(8), &n(1), &n(4)).unwrap(), false);
}

#[test]
fn verify_rejects_out_of_range_scalars() {
    let (p, q, g, y) = (n(23), n(11), n(4), n(18));
    let z = n(5);
    assert_eq!(verify_digest(&p, &q, &g, &y, &BigInt::zero(), &n(1), &z).unwrap(), false);
    assert_eq!(verify_digest(&p, &q, &g, &y, &n(11), &n(1), &z).unwrap(), false);
    assert_eq!(verify_digest(&p, &q, &g, &y, &n(8), &BigInt::zero(), &z).unwrap(), false);
    assert_eq!(verify_digest(&p, &q, &g, &y, &n(8), &n(12), &z).unwrap(), false);
}

#[test]
fn verify_zero_prime_modulus_is_reported() {
    let err = verify_digest(&BigInt::zero(), &n(11), &n(4), &n(18), &n(8), &n(1), &n(5));
    assert_eq!(err.unwrap_err(), Error::ZeroModulus);
}

#[test]
fn nonce_rejection_cases() {
    let (p, q, g, x) = (n(23), n(11), n(4), n(3));
    // k = 11 shares everything with q = 11: not in (0, q), but even a
    // multiple of q is rejected through its missing inverse
    assert!(sign_with_nonce(&p, &q, &g, &x, &n(5), &n(22)).is_none());
}

#[test]
fn sign_then_verify_round_trip() {
    // toy domain parameters: q = 11 prime, p = 23 = 2 q + 1, g = 4 of order 11
    let (p, q, g, x) = (n(23), n(11), n(4), n(3));
    let y = g.mod_pow(&x, &p).unwrap();
    assert!(y.equals(&n(18)));
    let message = b"a fixed message for the toy group";
    let (rb, sb) = dsa_sign(&p, &q, &g, &x, message).unwrap();
    assert_eq!(rb.len(), 32);
    assert_eq!(sb.len(), 32);
    let r = BigInt::from_bytes_be(&rb);
    let s = BigInt::from_bytes_be(&sb);
    assert_eq!(dsa_verify(&p, &q, &g, &y, &r, &s, message).unwrap(), true);
}

#[test]
fn deterministic_vector_soundness() {
    // the toy group again, with the nonce fixed at k = 2, so the signature
    // of this message is the deterministic pair (r, s) = (5, 1)
    let (p, q, g, y) = (n(23), n(11), n(4), n(18));
    let message = b"a fixed message for the toy group";
    assert_eq!(dsa_verify(&p, &q, &g, &y, &n(5), &n(1), message).unwrap(), true);
    // s replaced by s + 1 mod q fails
    assert_eq!(dsa_verify(&p, &q, &g, &y, &n(5), &n(2), message).unwrap(), false);
    // a changed r fails
    assert_eq!(dsa_verify(&p, &q, &g, &y, &n(6), &n(1), message).unwrap(), false);
    // a flipped message bit fails
    let mut tampered = message.to_vec();
    tampered[0] ^= 2;
    assert_eq!(dsa_verify(&p, &q, &g, &y, &n(5), &n(1), &tampered).unwrap(), false);
}

#[test]
fn sign_larger_group_round_trip() {
    // q = 47 prime, p = 283 = 6 q + 1 prime, g = 2^6 mod p of order q
    let q = n(47);
    let p = n(283);
    let g = n(2).mod_pow(&n(6), &p).unwrap();
    // g has order q: g^q mod p == 1
    let gq = g.mod_pow(&q, &p).unwrap();
    assert!(gq.equals(&n(1)));
    let x = n(29);
    let y = g.mod_pow(&x, &p).unwrap();
    let message = b"wider toy parameters";
    let (rb, sb) = dsa_sign(&p, &q, &g, &x, message).unwrap();
    let r = BigInt::from_bytes_be(&rb);
    let s = BigInt::from_bytes_be(&sb);
    assert_eq!(dsa_verify(&p, &q, &g, &y, &r, &s, message).unwrap(), true);
}
