//! Circuit-construction errors.

use vstd::prelude::*;

use crate::text::{decimal, push_decimal, push_str};

verus! {

/// Errors produced while constructing or decoding a circuit.
#[derive(Debug, Clone, Copy, PartialEq, Eq, Structural)]
#[non_exhaustive]
pub enum Error {
    /// The built circuit has a different gate count from its description.
    InvalidCircuitSize(usize, usize),
    /// A BLS scalar encoding is malformed.
    BlsScalarMalformed,
    /// A JubJub scalar cannot be represented canonically.
    JubJubScalarMalformed,
    /// A fixed-base generator is not a nonidentity prime-order point.
    JubJubGeneratorNotPrimeOrder,
    /// A JubJub point is not an on-curve prime-order subgroup member.
    JubJubPointNotTorsionFree,
    /// A JubJub extended point has no affine image because `Z` is zero.
    JubJubPointDegenerate,
    /// A width-two non-adjacent-form digit is outside `[-1, 0, 1]`.
    UnsupportedWNAF2k,
    /// A compressed circuit description is malformed.
    InvalidCompressedCircuit,
}

/// The human-readable description of an error.
pub open spec fn error_message(e: Error) -> Seq<char> {
    match e {
        Error::InvalidCircuitSize(description, circuit) => "circuit gate count differs from its description: description = "@
            + decimal(description as nat) + ", circuit = "@ + decimal(circuit as nat),
        Error::BlsScalarMalformed => "BLS scalar bytes malformed"@,
        Error::JubJubScalarMalformed => "JubJub scalar bytes malformed"@,
        Error::JubJubGeneratorNotPrimeOrder => "JubJub generator is not a prime-order point"@,
        Error::JubJubPointNotTorsionFree => "JubJub point is not in the prime-order subgroup"@,
        Error::JubJubPointDegenerate => "JubJub point has a zero Z coordinate"@,
        Error::UnsupportedWNAF2k => "WNAF2k digit is outside [-1, 0, 1]"@,
        Error::InvalidCompressedCircuit => "invalid compressed circuit"@,
    }
}

impl Error {
    /// The human-readable description of this error.
    pub fn to_string(&self) -> (r: String)
        ensures
            r@ == error_message(*self),
    {
        match self {
            Error::InvalidCircuitSize(description, circuit) => {
                let mut text = String::from_str(
                    "circuit gate count differs from its description: description = ",
                );
                push_decimal(&mut text, *description);
                push_str(&mut text, ", circuit = ");
                push_decimal(&mut text, *circuit);
                text
            },
            Error::BlsScalarMalformed => String::from_str("BLS scalar bytes malformed"),
            Error::JubJubScalarMalformed => String::from_str("JubJub scalar bytes malformed"),
            Error::JubJubGeneratorNotPrimeOrder => String::from_str(
                "JubJub generator is not a prime-order point",
            ),
            Error::JubJubPointNotTorsionFree => String::from_str(
                "JubJub point is not in the prime-order subgroup",
            ),
            Error::JubJubPointDegenerate => String::from_str("JubJub point has a zero Z coordinate"),
            Error::UnsupportedWNAF2k => String::from_str("WNAF2k digit is outside [-1, 0, 1]"),
            Error::InvalidCompressedCircuit => String::from_str("invalid compressed circuit"),
        }
    }
}

} // verus!
