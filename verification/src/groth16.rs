//! Groth16 over rank-1 circuits: keys and proofs with their canonical byte
//! encodings, FFT domains, multi-scalar multiplication, the R1CS-to-QAP
//! reduction, setup, proving and verification.

pub mod cli;
pub mod error;
pub mod points;
pub mod codec;
pub mod proofs;
pub mod keys;
pub mod group;
pub mod msm;
pub mod fft;
pub mod dft;
pub mod qap;
pub mod compiler;
pub mod divisibility;
