//! Verified core of a zero-knowledge circuit toolkit: a proof-system-neutral
//! circuit composer with PLONKish and rank-1 backends, and the encoding and
//! reduction layers of a Groth16 prover.

pub mod gate;
pub mod groth16;
pub mod identities;
pub mod lowering;
pub mod plonk;
pub mod plonkish;
pub mod plonkwasm;
pub mod point;
pub mod composer;
pub mod constraint;
pub mod error;
pub mod field;
pub mod r1cs;
pub mod scalar;
pub mod test_support;
pub mod text;
pub mod witness;
