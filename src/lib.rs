//! Textbook public-key cryptography on 128-bit integers: modular arithmetic,
//! primality testing, RSA, ElGamal, and attacks on undersized keys.

use vstd::prelude::*;

pub mod elgamal;
pub mod modular;
pub mod number_theory;
pub mod primality;
mod random;
pub mod rsa;

verus! {

/// Failures of the toolkit's operations.
#[derive(Debug, Clone, Copy, PartialEq, Eq, Structural)]
pub enum CryptoError {
    /// An argument lies outside the operation's domain (an empty range, a
    /// modulus out of bounds, a value with no inverse).
    InvalidInput,
    /// A bounded search ended without finding what it looked for.
    SearchExhausted,
}

} // verus!
