//! Arithmetic shared by ML-KEM and ML-DSA: linear algebra over a prime field,
//! packing of polynomials into bytes, and small array utilities.
pub mod algebra;
pub mod util;
pub mod encode;
