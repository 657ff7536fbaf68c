//! Computational kernel of a Falcon-style lattice signature scheme:
//! arithmetic over Z[x]/(x^n + 1) and its quotient mod q = 12289, a
//! discrete Gaussian sampler core, a sign-magnitude signature codec,
//! and hashing of messages to ring points.

pub mod common;
pub mod encoding;
pub mod falcon;
pub mod hash;
pub mod ntt;
pub mod samplerz;

use vstd::prelude::*;

verus! {

/// The NTT-friendly prime modulus of the integer quotient ring.
pub const Q: u32 = 12 * 1024 + 1;

} // verus!
