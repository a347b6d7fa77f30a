//! Radix digit decomposition of integers held in GLWE ciphertexts over the
//! native 64-bit torus.
//!
//! An encrypted integer is cut into its digits in radix `2^B` without being
//! decrypted. Each digit costs one programmable bootstrap, whose lookup
//! table can hold several payloads at once.
//!
//! * [`torus`] holds the arithmetic modulo 2^64, [`polynomial`] the
//!   polynomials modulo `X^N + 1`, and [`ciphertext`] the ciphertexts as
//!   plain coefficient vectors.
//! * [`linear_algebra`] hands the linear operations on ciphertexts to
//!   `tfhe`.
//! * [`algorithms::tools`] defines the payloads,
//!   [`algorithms::pbs_many_lut`] the multi-output bootstrap, and
//!   [`algorithms::digit_decompose`] the decomposition itself.
//! * [`algorithms::noiseless`] proves what the decomposition returns on
//!   inputs without noise.

pub mod algorithms;
pub mod ciphertext;
pub mod error;
pub mod linear_algebra;
pub mod polynomial;
pub mod torus;
