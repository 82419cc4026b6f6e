//! ML-DSA-44 (security category 2).
use vstd::prelude::*;

verus! {

/// Ring dimension.
pub const N: usize = 256;

/// Prime modulus `q = 2^23 - 2^13 + 1`.
pub const Q: u32 = 8380417;

/// Number of rows of the matrix `A`.
pub const K: usize = 4;

/// Number of columns of the matrix `A`.
pub const L: usize = 4;

/// Range of the private key coefficients.
pub const ETA: u32 = 2;

/// Coefficient range of `y`: `2^17`.
pub const GAMMA1: u32 = 131072;

/// Low-order rounding range: `(q - 1) / 88`.
pub const GAMMA2: u32 = 95232;

/// Collision strength in bytes.
pub const LAMBDA: usize = 32;

/// Largest number of ones in the hint.
pub const OMEGA: usize = 80;

/// Number of nonzero coefficients of the challenge polynomial.
pub const TAU: usize = 39;

/// `TAU * ETA`.
pub const BETA: u32 = 78;

} // verus!
