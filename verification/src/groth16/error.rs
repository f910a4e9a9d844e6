//! Groth16 errors.

use vstd::prelude::*;

use crate::error::Error as CircuitError;
use crate::text::{decimal, push_decimal, push_str};

verus! {

/// Errors returned by setup, proving, verification, or decoding.
#[derive(Debug, Clone, Copy, PartialEq, Eq, Structural)]
#[non_exhaustive]
pub enum Error {
    /// Circuit construction failed.
    Circuit,
    /// The scalar field cannot provide the requested FFT domain.
    InvalidEvaluationDomain,
    /// The proving circuit differs from the setup circuit.
    InvalidCircuitShape,
    /// The supplied witness does not satisfy the circuit.
    CircuitUnsatisfied,
    /// Public-input length differs from the verification key.
    InvalidPublicInputCount {
        /// Expected number of public inputs.
        expected: usize,
        /// Supplied number of public inputs.
        provided: usize,
    },
    /// A query and scalar vector have inconsistent lengths.
    InvalidQueryLength,
    /// The proof equation does not hold.
    ProofVerification,
    /// Encoded data is malformed or truncated.
    InvalidEncoding,
}

/// The human-readable description of an error.
pub open spec fn error_message(e: Error) -> Seq<char> {
    match e {
        Error::Circuit => "circuit construction failed"@,
        Error::InvalidEvaluationDomain => "invalid FFT evaluation domain"@,
        Error::InvalidCircuitShape => "circuit shape differs from the setup circuit"@,
        Error::CircuitUnsatisfied => "circuit assignment is unsatisfied"@,
        Error::InvalidPublicInputCount { expected, provided } => "invalid public-input count: expected "@
            + decimal(expected as nat) + ", provided "@ + decimal(provided as nat),
        Error::InvalidQueryLength => "query and scalar lengths differ"@,
        Error::ProofVerification => "Groth16 proof verification failed"@,
        Error::InvalidEncoding => "invalid encoded data"@,
    }
}

impl Error {
    /// The human-readable description of this error.
    pub fn to_string(&self) -> (r: String)
        ensures
            r@ == error_message(*self),
    {
        match self {
            Error::Circuit => String::from_str("circuit construction failed"),
            Error::InvalidEvaluationDomain => String::from_str("invalid FFT evaluation domain"),
            Error::InvalidCircuitShape => String::from_str(
                "circuit shape differs from the setup circuit",
            ),
            Error::CircuitUnsatisfied => String::from_str("circuit assignment is unsatisfied"),
            Error::InvalidPublicInputCount { expected, provided } => {
                let mut text = String::from_str("invalid public-input count: expected ");
                push_decimal(&mut text, *expected);
                push_str(&mut text, ", provided ");
                push_decimal(&mut text, *provided);
                text
            },
            Error::InvalidQueryLength => String::from_str("query and scalar lengths differ"),
            Error::ProofVerification => String::from_str("Groth16 proof verification failed"),
            Error::InvalidEncoding => String::from_str("invalid encoded data"),
        }
    }
}

impl From<CircuitError> for Error {
    /// Every circuit-construction error is a circuit failure.
    fn from(error: CircuitError) -> (r: Error) {
        Error::Circuit
    }
}

impl vstd::std_specs::convert::FromSpecImpl<CircuitError> for Error {
    open spec fn obeys_from_spec() -> bool {
        true
    }

    open spec fn from_spec(v: CircuitError) -> Error {
        Error::Circuit
    }
}

} // verus!
