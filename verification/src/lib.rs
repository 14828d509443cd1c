//! Multi-precision unsigned integer arithmetic with modular exponentiation
//! and modular inversion, and a discrete-log signature scheme built on top.

use vstd::prelude::*;

mod limbs;
mod bigint;
mod arith;
mod bits;
mod mul;
mod div;
mod codec;
mod nt;
mod modpow;
mod modinv;
mod mont;
mod sha256;
mod rng;
mod dsa;
mod laws;

pub use bigint::BigInt;
pub use mont::Montgomery;
pub use sha256::Sha256;
pub use dsa::{dsa_sign, dsa_verify, sign_with_nonce, verify_digest};
pub use codec::{parse_message_field_le, parse_message_field_be};

verus! {

/// The error kinds that library operations report instead of aborting.
#[derive(Clone, Copy, Debug, PartialEq, Eq, Structural)]
pub enum Error {
    /// Division or remainder with a zero divisor.
    DivisionByZero,
    /// Modular exponentiation against a zero modulus.
    ZeroModulus,
    /// The element has no inverse: its gcd with the modulus is not one.
    NotInvertible,
    /// A subtraction whose minuend is smaller than its subtrahend; a caller
    /// bug rather than a malformed protocol input.
    Underflow,
    /// A value does not fit the requested fixed encoding width.
    EncodingTooNarrow,
    /// A buffer is shorter than its declared length field claims.
    MalformedInput,
    /// The nonce sampling loop in signing hit its iteration cap.
    RetryExhausted,
}

} // verus!
