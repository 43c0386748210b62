//! Lattice-based homomorphic encryption primitives in the TFHE family.
//!
//! Plaintexts are 4-bit messages carried in the top bits of a 32-bit word
//! (ciphertext modulus `q = 2^32`). The crate provides LWE and GLWE
//! encryption, homomorphic addition and subtraction, the external product of
//! a GGSW ciphertext with a GLWE ciphertext, modulus switching and key
//! switching, all built on negacyclic polynomial arithmetic over
//! `Z_q[X]/(X^N + 1)`.

use vstd::prelude::*;

pub mod ggsw;
pub mod gsw;
pub mod glwe;
pub mod lwe;
pub mod modular;
pub mod poly;
mod sampling;
pub mod utils;

verus! {

/// Number of gadget decomposition layers for the external product.
pub const ELL: usize = 2;

/// GLWE dimension: number of mask polynomials in a GLWE ciphertext.
#[allow(non_upper_case_globals)]
pub const k: usize = 1;

/// Degree `N` of the irreducible polynomial `X^N + 1`.
pub const N: usize = 1024;

/// Dimension `n` of LWE ciphertexts.
pub const LWE_DIM: usize = 1024;

/// Plaintext modulus.
pub const P: usize = 16;

} // verus!
