//! Byte encoding and the modular layer: exponentiation (both strategies)
//! and inversion.

use bignum_dsa::{BigInt, Error};

fn n(v: u64) -> BigInt {
    BigInt::from_u64(v)
}

fn big(bytes: &[u8]) -> BigInt {
    BigInt::from_bytes_be(bytes)
}

fn pattern2(len: usize, seed: u8) -> Vec<u8> {
    let mut out = Vec::new();
    let mut state: u8 = seed;
    for i in 0..len {
        state = state.wrapping_mul(37).wrapping_add(i as u8).wrapping_add(11);
        out.push(state);
    }
    out
}

#[test]
fn decode_encode_round_trip() {
    let bytes = pattern2(77, 4);
    let v = big(&bytes);
    let w = 96;
    let out = v.to_bytes_be_pad(w).unwrap();
    assert_eq!(out.len(), w);
    // left padding is zero down to the first significant byte
    for i in 0..(w - 77) {
        assert_eq!(out[i], 0);
    }
    assert!(big(&out).equals(&v));
}

#[test]
fn encode_zero() {
    assert_eq!(BigInt::zero().to_bytes_be(), vec![0u8]);
    assert_eq!(BigInt::zero().to_bytes_be_pad(4).unwrap(), vec![0u8, 0, 0, 0]);
    assert_eq!(BigInt::zero().to_bytes_be_pad(0).unwrap(), Vec::<u8>::new());
}

#[test]
fn encode_minimal_bytes() {
    assert_eq!(n(1).to_bytes_be(), vec![1u8]);
    assert_eq!(n(256).to_bytes_be(), vec![1u8, 0]);
    assert_eq!(n(0xabcd).to_bytes_be(), vec![0xabu8, 0xcd]);
}

#[test]
fn encode_too_narrow_is_reported() {
    assert_eq!(n(256).to_bytes_be_pad(1).unwrap_err(), Error::EncodingTooNarrow);
    assert_eq!(n(255).to_bytes_be_pad(1).unwrap(), vec![255u8]);
}

#[test]
fn decode_ignores_leading_zeros() {
    assert!(big(&[0, 0, 1, 2]).equals(&big(&[1, 2])));
    assert!(big(&[]).is_zero());
}

#[test]
fn message_field_le_and_be() {
    // little-endian length: 3 + 256 * 0
    let buf = [3u8, 0, 0xaa, 0xbb, 0xcc, 0xdd];
    let m = bignum_dsa::parse_message_field_le(&buf).unwrap();
    assert_eq!(m, vec![0xaau8, 0xbb, 0xcc]);
    // big-endian length: 0 * 256 + 3
    let m2 = bignum_dsa::parse_message_field_be(&[0u8, 3, 0xaa, 0xbb, 0xcc, 0xdd]).unwrap();
    assert_eq!(m2, vec![0xaau8, 0xbb, 0xcc]);
    // the two length orders really differ
    let swapped = bignum_dsa::parse_message_field_be(&buf);
    assert_eq!(swapped.unwrap_err(), Error::MalformedInput);
}

#[test]
fn message_field_short_buffer() {
    assert_eq!(bignum_dsa::parse_message_field_le(&[7u8]).unwrap_err(), Error::MalformedInput);
    assert_eq!(
        bignum_dsa::parse_message_field_le(&[5u8, 0, 1, 2]).unwrap_err(),
        Error::MalformedInput
    );
}

#[test]
fn mod_pow_known_value() {
    // 4^13 mod 497 == 445; 497 is odd, so this takes the Montgomery path
    let r = n(4).mod_pow(&n(13), &n(497)).unwrap();
    assert!(r.equals(&n(445)));
    // and the plain strategy agrees
    let r2 = n(4).mod_pow_plain(&n(13), &n(497)).unwrap();
    assert!(r2.equals(&n(445)));
}

#[test]
fn mod_pow_even_modulus() {
    // even modulus takes the division-based fallback
    let r = n(7).mod_pow(&n(5), &n(100)).unwrap();
    // 7^5 = 16807, 16807 mod 100 = 7
    assert!(r.equals(&n(7)));
}

#[test]
fn mod_pow_edge_exponents() {
    assert!(n(9).mod_pow(&BigInt::zero(), &n(7)).unwrap().equals(&n(1)));
    assert!(n(9).mod_pow(&n(1), &n(7)).unwrap().equals(&n(2)));
    assert!(n(9).mod_pow(&n(5), &n(1)).unwrap().is_zero());
}

#[test]
fn mod_pow_zero_modulus_is_reported() {
    assert_eq!(n(2).mod_pow(&n(3), &BigInt::zero()).unwrap_err(), Error::ZeroModulus);
    assert_eq!(n(2).mod_pow_plain(&n(3), &BigInt::zero()).unwrap_err(), Error::ZeroModulus);
}

#[test]
fn montgomery_equals_plain_on_random_odd_moduli() {
    // a deterministic walk over word-sized odd moduli
    let mut state: u64 = 0x9e3779b97f4a7c15;
    for _ in 0..24 {
        state = state.wrapping_mul(6364136223846793005).wrapping_add(1442695040888963407);
        let m = state | 1;
        state = state.wrapping_mul(6364136223846793005).wrapping_add(1442695040888963407);
        let a = state % m;
        state = state.wrapping_mul(6364136223846793005).wrapping_add(1442695040888963407);
        let e = state % 1000;
        let fast = n(a).mod_pow(&n(e), &n(m)).unwrap();
        let slow = n(a).mod_pow_plain(&n(e), &n(m)).unwrap();
        assert!(fast.equals(&slow));
    }
}

#[test]
fn montgomery_equals_plain_on_wide_odd_modulus() {
    let mut mb = pattern2(48, 23);
    let last = mb.len() - 1;
    mb[last] |= 1;
    let m = big(&mb);
    let a = big(&pattern2(40, 29));
    let e = big(&pattern2(6, 31));
    let fast = a.mod_pow(&e, &m).unwrap();
    let slow = a.mod_pow_plain(&e, &m).unwrap();
    assert!(fast.equals(&slow));
}

#[test]
fn mod_inverse_small_cases() {
    // 3 * 7 == 21 == 2 * 10 + 1
    let inv = n(3).mod_inverse(&n(10)).unwrap();
    assert!(inv.equals(&n(7)));
    let prod = n(3).mul(&inv).div_rem(&n(10)).unwrap().1;
    assert!(prod.equals(&n(1)));
}

#[test]
fn mod_inverse_product_is_one() {
    let m = big(&pattern2(20, 41));
    // pick an element coprime to m by construction: try small odd values
    for cand in [3u64, 7, 11, 13, 17, 19] {
        if let Ok(inv) = n(cand).mod_inverse(&m) {
            let prod = n(cand).mul(&inv).div_rem(&m).unwrap().1;
            assert!(prod.equals(&n(1)));
            return;
        }
    }
    panic!("no invertible candidate found");
}

#[test]
fn mod_inverse_not_invertible() {
    assert_eq!(n(4).mod_inverse(&n(10)).unwrap_err(), Error::NotInvertible);
    assert_eq!(n(6).mod_inverse(&n(9)).unwrap_err(), Error::NotInvertible);
}

#[test]
fn mod_inverse_modulus_one() {
    // everything is congruent modulo 1; the inverse is the zero residue
    let inv = n(5).mod_inverse(&n(1)).unwrap();
    assert!(inv.is_zero());
}

#[test]
fn fermat_inverse_agrees_for_prime_modulus() {
    // for prime q, a^(q-2) mod q is the inverse the extended Euclid finds
    let q = n(1_000_003);
    for a in [2u64, 3, 999_999, 123_456] {
        let e1 = n(a).mod_inverse(&q).unwrap();
        let e2 = n(a).mod_pow(&n(1_000_001), &q).unwrap();
        assert!(e1.equals(&e2));
    }
}
