use dusk_bytes::DeserializableSlice;
use dusk_curves::bls12_381::BlsScalar;
use zk_tools::error::Error as CircuitError;
use zk_tools::groth16::error::Error as Groth16Error;
use zk_tools::plonk::{BytesError, Error};

fn plain_bytes_error(error: dusk_bytes::Error) -> BytesError {
    match error {
        dusk_bytes::Error::InvalidData => BytesError::InvalidData,
        dusk_bytes::Error::BadLength { found, expected } => BytesError::BadLength { found, expected },
        dusk_bytes::Error::InvalidChar { ch, index } => BytesError::InvalidChar { ch, index },
    }
}

#[test]
fn display_arms_are_exercised() {
    let bogus = [0u8; 31];
    let dusk_err = BlsScalar::from_slice(&bogus).expect_err("decoding from a short slice must fail");
    let bytes_error: Error = plain_bytes_error(dusk_err).into();
    assert!(matches!(bytes_error, Error::BytesError(_)));

    let all_errors: [Error; 19] = [
        Error::InvalidEvalDomainSize {
            log_size_of_group: 32,
            adacity: 28,
        },
        Error::ProofVerificationError,
        Error::CircuitInputsNotFound,
        Error::UninitializedPIGenerator,
        Error::InvalidPublicInputBytes,
        Error::CircuitAlreadyPreprocessed,
        Error::Circuit(CircuitError::InvalidCircuitSize(1, 2)),
        Error::CircuitUnsatisfied,
        Error::MismatchedPolyLen,
        Error::DegreeIsZero,
        Error::TruncatedDegreeTooLarge,
        Error::TruncatedDegreeIsZero,
        Error::PolynomialDegreeTooLarge,
        Error::PolynomialDegreeIsZero,
        Error::PairingCheckFailure,
        Error::NotEnoughBytes,
        Error::PointMalformed,
        Error::LegacyProvingDisabled,
        Error::UnsupportedProvingVersion,
    ];

    for e in all_errors {
        let s = e.to_string();
        assert!(!s.is_empty());
    }

    assert!(Error::PublicInputNotFound { index: 7 }.to_string().contains("index"));
    assert!(Error::InconsistentPublicInputsLen {
        expected: 1,
        provided: 2
    }
    .to_string()
    .contains("provided"));

    assert!(!bytes_error.to_string().is_empty());
}

#[test]
fn plonk_error_texts_are_exact() {
    assert_eq!(
        Error::InvalidEvalDomainSize {
            log_size_of_group: 32,
            adacity: 28,
        }
        .to_string(),
        "Log-size of the EvaluationDomain group > TWO_ADACITYSize: 32 > TWO_ADACITY = 28"
    );
    assert_eq!(
        Error::PublicInputNotFound { index: 7 }.to_string(),
        "The public input of index 7 is defined in the circuit description, but wasn't declared in the prove instance"
    );
    assert_eq!(
        Error::InconsistentPublicInputsLen {
            expected: 1,
            provided: 2
        }
        .to_string(),
        "The provided public inputs set of length 2 doesn't match the processed verifier: 1"
    );
    assert_eq!(
        Error::Circuit(CircuitError::InvalidCircuitSize(1, 2)).to_string(),
        "circuit error: circuit gate count differs from its description: description = 1, circuit = 2"
    );
    let dusk_err = BlsScalar::from_slice(&[0u8; 31]).unwrap_err();
    assert_eq!(
        Error::from(plain_bytes_error(dusk_err)).to_string(),
        format!("{:?}", dusk_err)
    );
    assert_eq!(
        Error::BytesError(BytesError::InvalidChar { ch: 'z', index: 3 }).to_string(),
        format!("{:?}", dusk_bytes::Error::InvalidChar { ch: 'z', index: 3 })
    );
    assert_eq!(
        Error::BytesError(BytesError::InvalidChar { ch: '\n', index: 0 }).to_string(),
        format!("{:?}", dusk_bytes::Error::InvalidChar { ch: '\n', index: 0 })
    );
    assert_eq!(Error::BytesError(BytesError::InvalidData).to_string(), "InvalidData");
}

#[test]
fn circuit_and_groth16_error_texts_are_exact() {
    assert_eq!(
        CircuitError::InvalidCircuitSize(3, 4).to_string(),
        "circuit gate count differs from its description: description = 3, circuit = 4"
    );
    assert_eq!(
        CircuitError::UnsupportedWNAF2k.to_string(),
        "WNAF2k digit is outside [-1, 0, 1]"
    );
    assert_eq!(
        Groth16Error::InvalidPublicInputCount {
            expected: 1,
            provided: 0
        }
        .to_string(),
        "invalid public-input count: expected 1, provided 0"
    );
    assert_eq!(
        Groth16Error::ProofVerification.to_string(),
        "Groth16 proof verification failed"
    );
    assert_eq!(Groth16Error::from(CircuitError::BlsScalarMalformed), Groth16Error::Circuit);
}
