//! Parameter sets of ML-DSA.
pub mod ml_dsa_44;
pub mod ml_dsa_65;
pub mod ml_dsa_87;
