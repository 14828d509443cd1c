//! Arithmetic behavior of the multi-precision integer engine.

use bignum_dsa::{BigInt, Error};

fn n(v: u64) -> BigInt {
    BigInt::from_u64(v)
}

fn big(bytes: &[u8]) -> BigInt {
    BigInt::from_bytes_be(bytes)
}

/// A repeatable byte pattern long enough to straddle the Karatsuba threshold.
fn pattern(len: usize, seed: u8) -> Vec<u8> {
    let mut out = Vec::new();
    let mut state: u8 = seed;
    for i in 0..len {
        state = state.wrapping_mul(31).wrapping_add(i as u8).wrapping_add(7);
        out.push(state);
    }
    out
}

#[test]
fn add_then_sub_round_trips() {
    let a = big(&pattern(100, 3));
    let b = big(&pattern(60, 9));
    let sum = a.add(&b);
    let back = sum.sub(&b).unwrap();
    assert!(back.equals(&a));
}

#[test]
fn add_commutes_and_associates() {
    let a = big(&pattern(50, 1));
    let b = big(&pattern(33, 2));
    let c = n(0xdead_beef);
    assert!(a.add(&b).equals(&b.add(&a)));
    assert!(a.add(&b).add(&c).equals(&a.add(&b.add(&c))));
}

#[test]
fn add_small_values() {
    assert!(n(2).add(&n(3)).equals(&n(5)));
    assert!(n(u64::MAX).add(&n(1)).equals(&n(1).shl(64)));
}

#[test]
fn sub_underflow_is_reported() {
    assert_eq!(n(3).sub(&n(5)).unwrap_err(), Error::Underflow);
}

#[test]
fn sub_to_zero() {
    let a = big(&pattern(40, 5));
    assert!(a.sub(&a).unwrap().is_zero());
}

#[test]
fn mul_matches_known_product() {
    let p = n(1_000_003).mul(&n(999_999));
    let expected: u64 = 1_000_003u64 * 999_999u64;
    assert!(p.equals(&n(expected)));
}

#[test]
fn karatsuba_agrees_with_schoolbook_across_threshold() {
    // word counts 1, 31, 32, 33, 40, 70 straddle the recursion threshold of 32
    for &(la, lb) in &[(8usize, 8usize), (248, 8), (256, 256), (264, 248), (320, 312), (560, 31)] {
        let a = big(&pattern(la, 11));
        let b = big(&pattern(lb, 13));
        let fast = a.karatsuba_mul(&b);
        let slow = a.standard_mul(&b);
        assert!(fast.equals(&slow));
    }
}

#[test]
fn mul_by_zero_and_one() {
    let a = big(&pattern(90, 21));
    assert!(a.mul(&BigInt::zero()).is_zero());
    assert!(a.mul(&n(1)).equals(&a));
}

#[test]
fn div_rem_reconstructs_dividend() {
    let a = big(&pattern(70, 17));
    let b = big(&pattern(23, 5));
    let (q, r) = a.div_rem(&b).unwrap();
    assert!(r.less_than(&b));
    assert!(q.mul(&b).add(&r).equals(&a));
}

#[test]
fn div_rem_small_values() {
    let (q, r) = n(1000).div_rem(&n(7)).unwrap();
    assert!(q.equals(&n(142)));
    assert!(r.equals(&n(6)));
}

#[test]
fn div_rem_u64_word_path() {
    let a = big(&pattern(40, 19));
    let (q, r) = a.div_rem_u64(255).unwrap();
    let (q2, r2) = a.div_rem(&n(255)).unwrap();
    assert!(q.equals(&q2));
    assert!(r.equals(&r2));
}

#[test]
fn division_by_zero_is_reported() {
    assert_eq!(n(5).div_rem(&BigInt::zero()).unwrap_err(), Error::DivisionByZero);
    assert_eq!(n(5).div_rem_u64(0).unwrap_err(), Error::DivisionByZero);
}

#[test]
fn shifts_round_trip() {
    let a = n(5);
    let up = a.shl(70);
    assert!(up.shr(70).equals(&a));
    assert!(n(5).shl(3).equals(&n(40)));
    assert!(n(40).shr(3).equals(&n(5)));
    assert!(n(41).shr(3).equals(&n(5)));
}

#[test]
fn shift_all_the_way_out() {
    assert!(n(12345).shr(64).is_zero());
    assert!(BigInt::zero().shl(100).is_zero());
}

#[test]
fn bit_len_values() {
    assert_eq!(BigInt::zero().bit_len(), 0);
    assert_eq!(n(1).bit_len(), 1);
    assert_eq!(n(255).bit_len(), 8);
    assert_eq!(n(256).bit_len(), 9);
    assert_eq!(n(1).shl(200).bit_len(), 201);
}

#[test]
fn test_bit_and_set_bit() {
    let mut a = BigInt::zero();
    a.set_bit(100);
    assert!(a.test_bit(100));
    assert!(!a.test_bit(99));
    assert!(!a.test_bit(101));
    assert_eq!(a.bit_len(), 101);
    assert!(a.equals(&n(1).shl(100)));
    // setting an already-set bit changes nothing
    a.set_bit(100);
    assert!(a.equals(&n(1).shl(100)));
    assert!(n(5).test_bit(0));
    assert!(!n(5).test_bit(1));
    assert!(n(5).test_bit(2));
}

#[test]
fn comparisons() {
    assert!(n(3).less_than(&n(4)));
    assert!(!n(4).less_than(&n(4)));
    assert!(n(4).equals(&n(4)));
    let a = big(&pattern(30, 2));
    let b = a.add(&n(1));
    assert!(a.less_than(&b));
    assert!(!b.less_than(&a));
}

#[test]
fn zero_and_new_agree() {
    assert!(BigInt::new().equals(&BigInt::zero()));
    assert!(BigInt::new().is_zero());
    assert!(!n(1).is_zero());
}
