//! Quadratic residues modulo prime powers.
//!
//! The library computes, for a prime power `n`, the full ascending set of
//! nonzero quadratic residues modulo `n`, and independently the size of that
//! set by closed-form arithmetic.  Residue sets for powers of two and for odd
//! prime powers are built by structural lifting recurrences rather than by
//! testing every candidate.

use vstd::prelude::*;

pub mod laws;
pub mod nt;
pub mod prime;
pub mod ord;
pub mod qr;

verus! {

/// The ways a computation in this library can fail.  Every failure is a
/// function of the input alone.
#[derive(Clone, Copy, Debug, PartialEq, Eq, Structural)]
pub enum QrError {
    /// Zero was given where a positive integer is required.
    InvalidInput,
    /// A modulus less than 1 was given to modular exponentiation.
    InvalidModulus,
    /// A prime was required but the input is not prime.
    NotPrime,
    /// The input has more than one distinct prime factor, or none.
    NotPrimePower,
    /// A power of two was required but the prime base is not 2.
    NotPowerOfTwo,
}

} // verus!
