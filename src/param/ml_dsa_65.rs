//! ML-DSA-65 (security category 3).
use vstd::prelude::*;

verus! {

/// Ring dimension.
pub const N: usize = 256;

/// Prime modulus `q = 2^23 - 2^13 + 1`.
pub const Q: u32 = 8380417;

/// Number of rows of the matrix `A`.
pub const K: usize = 6;

/// Number of columns of the matrix `A`.
pub const L: usize = 5;

/// Range of the private key coefficients.
pub const ETA: u32 = 4;

/// Coefficient range of `y`: `2^19`.
pub const GAMMA1: u32 = 524288;

/// Low-order rounding range: `(q - 1) / 32`.
pub const GAMMA2: u32 = 261888;

/// Collision strength in bytes.
pub const LAMBDA: usize = 48;

/// Largest number of ones in the hint.
pub const OMEGA: usize = 55;

/// Number of nonzero coefficients of the challenge polynomial.
pub const TAU: usize = 49;

/// `TAU * ETA`.
pub const BETA: u32 = 196;

} // verus!
