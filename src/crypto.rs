//! Cryptographic functions for ML-DSA.
pub mod hash;
