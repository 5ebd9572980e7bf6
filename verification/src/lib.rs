//! A ring-learning-with-errors (RLWE) public-key encryption core.
//!
//! Polynomials are coefficient vectors over signed 64-bit integers; the
//! ciphertext ring is `Z_q[x]/(x^n + 1)`.
pub mod arith;
pub mod bits;
pub mod codec;
pub mod decrypt;
pub mod encrypt;
pub mod keygen;
pub mod models;
pub mod nttmul;
pub mod params;
pub mod sample;
