//! Errors of the PLONK proof system and their descriptions.

use std::fmt::Write;

use vstd::prelude::*;

use crate::error::{error_message as circuit_message, Error as CircuitError};
use crate::text::{decimal, push_char, push_decimal, push_str};

verus! {

/// The byte-decoding errors of `dusk_bytes::Error`, by their plain contents.
#[derive(Debug, Clone, Copy, PartialEq, Eq)]
pub enum BytesError {
    /// Generic invalid data.
    InvalidData,
    /// A slice of the wrong length.
    BadLength {
        /// The slice's length.
        found: usize,
        /// The expected length.
        expected: usize,
    },
    /// An invalid character in a hexadecimal string.
    InvalidChar {
        /// The character found.
        ch: char,
        /// Its position.
        index: usize,
    },
}

/// A collection of all possible errors encountered in PLONK.
#[derive(Debug, Clone, PartialEq)]
#[non_exhaustive]
pub enum Error {
    /// The requested evaluation domain exceeds the field's two-adicity.
    InvalidEvalDomainSize {
        /// Log size of the group.
        log_size_of_group: u32,
        /// Two-adicity of the field.
        adacity: u32,
    },
    /// The proof did not verify.
    ProofVerificationError,
    /// Circuit inputs were not found.
    CircuitInputsNotFound,
    /// The public-input generator is uninitialized.
    UninitializedPIGenerator,
    /// Public-input bytes are invalid.
    InvalidPublicInputBytes,
    /// The circuit was already preprocessed.
    CircuitAlreadyPreprocessed,
    /// The witness assignment does not satisfy the circuit.
    CircuitUnsatisfied,
    /// Wire polynomials have different lengths.
    MismatchedPolyLen,
    /// Public parameters of degree zero were requested.
    DegreeIsZero,
    /// Trimming beyond the maximum degree was requested.
    TruncatedDegreeTooLarge,
    /// Trimming to size zero was requested.
    TruncatedDegreeIsZero,
    /// The committer key is too small for the polynomial.
    PolynomialDegreeTooLarge,
    /// A polynomial of degree zero was committed.
    PolynomialDegreeIsZero,
    /// The pairing check failed.
    PairingCheckFailure,
    /// A byte-decoding error.
    BytesError(BytesError),
    /// Not enough bytes were left to read.
    NotEnoughBytes,
    /// A BLS point encoding is malformed.
    PointMalformed,
    /// A public input declared by the circuit was not provided.
    PublicInputNotFound {
        /// Index of the missing input.
        index: usize,
    },
    /// The number of public inputs differs from the verifier's.
    InconsistentPublicInputsLen {
        /// Expected count.
        expected: usize,
        /// Provided count.
        provided: usize,
    },
    /// A circuit-construction error.
    Circuit(CircuitError),
    /// Legacy proving is disabled in this build.
    LegacyProvingDisabled,
    /// The requested proving version is unsupported.
    UnsupportedProvingVersion,
}

/// A character that `Debug` prints between single quotes as itself:
/// printable ASCII other than the quote and the backslash.
pub open spec fn plain_char(c: char) -> bool {
    0x20 <= c as u32 <= 0x7e && c != '\'' && c != '\\'
}

/// The `Debug` rendering of a byte-decoding error, as `derive(Debug)`
/// writes it; a character is rendered as `Debug` renders a plain one.
pub open spec fn bytes_error_debug(e: BytesError) -> Seq<char> {
    match e {
        BytesError::InvalidData => "InvalidData"@,
        BytesError::BadLength { found, expected } => "BadLength { found: "@ + decimal(found as nat)
            + ", expected: "@ + decimal(expected as nat) + " }"@,
        BytesError::InvalidChar { ch, index } => "InvalidChar { ch: "@ + seq!['\'', ch, '\'']
            + ", index: "@ + decimal(index as nat) + " }"@,
    }
}

/// The description of an error is determined by its contents: every error
/// but an invalid character that `Debug` escapes.
pub open spec fn message_determined(e: Error) -> bool {
    !(e matches Error::BytesError(BytesError::InvalidChar { ch, .. }) && !plain_char(ch))
}

/// The human-readable description of an error.
pub open spec fn error_message(e: Error) -> Seq<char> {
    match e {
        Error::InvalidEvalDomainSize { log_size_of_group, adacity } =>
            "Log-size of the EvaluationDomain group > TWO_ADACITYSize: "@ + decimal(
            log_size_of_group as nat,
        ) + " > TWO_ADACITY = "@ + decimal(adacity as nat),
        Error::ProofVerificationError => "proof verification failed"@,
        Error::CircuitInputsNotFound => "circuit inputs not found"@,
        Error::UninitializedPIGenerator => "PI generator uninitialized"@,
        Error::InvalidPublicInputBytes => "invalid public input bytes"@,
        Error::CircuitAlreadyPreprocessed => "circuit has already been preprocessed"@,
        Error::CircuitUnsatisfied =>
            "the circuit is not satisfied: the witness assignment or the appended constants do not match the compiled circuit description"@,
        Error::MismatchedPolyLen => "the length of the wires is not the same"@,
        Error::DegreeIsZero => "cannot create PublicParameters with max degree 0"@,
        Error::TruncatedDegreeTooLarge => "cannot trim more than the maximum degree"@,
        Error::TruncatedDegreeIsZero => "cannot trim PublicParameters to a maximum size of zero"@,
        Error::PolynomialDegreeTooLarge =>
            "proving key is not large enough to commit to said polynomial"@,
        Error::PolynomialDegreeIsZero => "cannot commit to polynomial of zero degree"@,
        Error::PairingCheckFailure => "pairing check failed"@,
        Error::BytesError(e) => bytes_error_debug(e),
        Error::NotEnoughBytes => "not enough bytes left to read"@,
        Error::PointMalformed => "BLS point bytes malformed"@,
        Error::PublicInputNotFound { index } => "The public input of index "@ + decimal(
            index as nat,
        ) + " is defined in the circuit description, but wasn't declared in the prove instance"@,
        Error::InconsistentPublicInputsLen { expected, provided } =>
            "The provided public inputs set of length "@ + decimal(provided as nat)
            + " doesn't match the processed verifier: "@ + decimal(expected as nat),
        Error::Circuit(e) => "circuit error: "@ + circuit_message(e),
        Error::LegacyProvingDisabled => "legacy proving is disabled in this build"@,
        Error::UnsupportedProvingVersion => "requested proving version is unsupported"@,
    }
}

/// `write!(s, "{c:?}")`: append the `Debug` rendering of a character, which
/// for a plain character is the character between single quotes. The
/// escapes of other characters are not stated.
#[verifier::external_body]
fn push_char_debug(s: &mut String, c: char)
    ensures
        old(s)@.is_prefix_of(final(s)@),
        plain_char(c) ==> final(s)@ == old(s)@ + seq!['\'', c, '\''],
{
    let _ = write!(s, "{c:?}");
}

impl BytesError {
    /// The `Debug` rendering, as `derive(Debug)` writes it.
    pub fn debug_text(&self) -> (r: String)
        ensures
            !(*self matches BytesError::InvalidChar { ch, .. } && !plain_char(ch)) ==> r@
                == bytes_error_debug(*self),
    {
        match self {
            BytesError::InvalidData => String::from_str("InvalidData"),
            BytesError::BadLength { found, expected } => {
                let mut text = String::from_str("BadLength { found: ");
                push_decimal(&mut text, *found);
                push_str(&mut text, ", expected: ");
                push_decimal(&mut text, *expected);
                push_str(&mut text, " }");
                text
            },
            BytesError::InvalidChar { ch, index } => {
                let mut text = String::from_str("InvalidChar { ch: ");
                push_char_debug(&mut text, *ch);
                push_str(&mut text, ", index: ");
                push_decimal(&mut text, *index);
                push_str(&mut text, " }");
                text
            },
        }
    }
}

impl Error {
    /// The human-readable description of this error.
    pub fn to_string(&self) -> (r: String)
        ensures
            message_determined(*self) ==> r@ == error_message(*self),
    {
        match self {
            Error::InvalidEvalDomainSize { log_size_of_group, adacity } => {
                let mut text = String::from_str(
                    "Log-size of the EvaluationDomain group > TWO_ADACITYSize: ",
                );
                push_decimal(&mut text, *log_size_of_group as usize);
                push_str(&mut text, " > TWO_ADACITY = ");
                push_decimal(&mut text, *adacity as usize);
                text
            },
            Error::ProofVerificationError => String::from_str("proof verification failed"),
            Error::CircuitInputsNotFound => String::from_str("circuit inputs not found"),
            Error::UninitializedPIGenerator => String::from_str("PI generator uninitialized"),
            Error::InvalidPublicInputBytes => String::from_str("invalid public input bytes"),
            Error::CircuitAlreadyPreprocessed => String::from_str(
                "circuit has already been preprocessed",
            ),
            Error::CircuitUnsatisfied => String::from_str(
                "the circuit is not satisfied: the witness assignment or the appended constants do not match the compiled circuit description",
            ),
            Error::MismatchedPolyLen => String::from_str("the length of the wires is not the same"),
            Error::DegreeIsZero => String::from_str(
                "cannot create PublicParameters with max degree 0",
            ),
            Error::TruncatedDegreeTooLarge => String::from_str(
                "cannot trim more than the maximum degree",
            ),
            Error::TruncatedDegreeIsZero => String::from_str(
                "cannot trim PublicParameters to a maximum size of zero",
            ),
            Error::PolynomialDegreeTooLarge => String::from_str(
                "proving key is not large enough to commit to said polynomial",
            ),
            Error::PolynomialDegreeIsZero => String::from_str(
                "cannot commit to polynomial of zero degree",
            ),
            Error::PairingCheckFailure => String::from_str("pairing check failed"),
            Error::BytesError(e) => e.debug_text(),
            Error::NotEnoughBytes => String::from_str("not enough bytes left to read"),
            Error::PointMalformed => String::from_str("BLS point bytes malformed"),
            Error::PublicInputNotFound { index } => {
                let mut text = String::from_str("The public input of index ");
                push_decimal(&mut text, *index);
                push_str(
                    &mut text,
                    " is defined in the circuit description, but wasn't declared in the prove instance",
                );
                text
            },
            Error::InconsistentPublicInputsLen { expected, provided } => {
                let mut text = String::from_str("The provided public inputs set of length ");
                push_decimal(&mut text, *provided);
                push_str(&mut text, " doesn't match the processed verifier: ");
                push_decimal(&mut text, *expected);
                text
            },
            Error::Circuit(e) => {
                let mut text = String::from_str("circuit error: ");
                let inner = e.to_string();
                push_str(&mut text, inner.as_str());
                text
            },
            Error::LegacyProvingDisabled => String::from_str(
                "legacy proving is disabled in this build",
            ),
            Error::UnsupportedProvingVersion => String::from_str(
                "requested proving version is unsupported",
            ),
        }
    }
}

impl From<BytesError> for Error {
    /// A byte-decoding error.
    fn from(error: BytesError) -> (r: Error) {
        Error::BytesError(error)
    }
}

impl vstd::std_specs::convert::FromSpecImpl<BytesError> for Error {
    open spec fn obeys_from_spec() -> bool {
        true
    }

    open spec fn from_spec(v: BytesError) -> Error {
        Error::BytesError(v)
    }
}

impl From<CircuitError> for Error {
    /// A circuit-construction error.
    fn from(error: CircuitError) -> (r: Error) {
        Error::Circuit(error)
    }
}

impl vstd::std_specs::convert::FromSpecImpl<CircuitError> for Error {
    open spec fn obeys_from_spec() -> bool {
        true
    }

    open spec fn from_spec(v: CircuitError) -> Error {
        Error::Circuit(v)
    }
}

} // verus!
