use dusk_bytes::{DeserializableSlice, Serializable};
use dusk_curves::bls12_381::{BlsScalar, G1Affine, G1Projective, G2Affine, G2Projective};
use zk_tools::composer::{Circuit, Composer, ComposerBackend};
use zk_tools::constraint::Constraint;
use zk_tools::error::Error as CircuitError;
use zk_tools::groth16::compiler::{Compiler, Prover, Verifier};
use zk_tools::groth16::error::Error;
use zk_tools::groth16::fft::EvaluationDomain;
use zk_tools::groth16::keys::{ProvingKey, VerifyingKey};
use zk_tools::groth16::msm;
use zk_tools::groth16::points::{G1Point, G2Point};
use zk_tools::groth16::proofs::{Proof, PROOF_SIZE};
use zk_tools::groth16::qap::{evaluate_shape_at_tau, quotient};
use zk_tools::lowering::R1cs;
use zk_tools::plonk::BytesError;
use zk_tools::scalar::Scalar;

/// A deterministic generator for reproducible setups and proofs.
struct TestRng(u64);

impl rand_core::RngCore for TestRng {
    fn next_u32(&mut self) -> u32 {
        self.next_u64() as u32
    }

    fn next_u64(&mut self) -> u64 {
        self.0 = self.0.wrapping_add(0x9e37_79b9_7f4a_7c15);
        let mut z = self.0;
        z = (z ^ (z >> 30)).wrapping_mul(0xbf58_476d_1ce4_e5b9);
        z = (z ^ (z >> 27)).wrapping_mul(0x94d0_49bb_1331_11eb);
        z ^ (z >> 31)
    }

    fn fill_bytes(&mut self, dest: &mut [u8]) {
        rand_core::impls::fill_bytes_via_next(self, dest)
    }

    fn try_fill_bytes(&mut self, dest: &mut [u8]) -> Result<(), rand_core::Error> {
        self.fill_bytes(dest);
        Ok(())
    }
}

impl rand_core::CryptoRng for TestRng {}

fn s(value: u64) -> Scalar {
    Scalar::from_u64(value)
}

fn g1_times(value: u64) -> G1Point {
    let point = G1Affine::from(G1Affine::generator() * BlsScalar::from(value));
    G1Point::from_bytes(&point.to_bytes()).unwrap()
}

fn g2_times(value: u64) -> G2Point {
    let point = G2Affine::from(G2Affine::generator() * BlsScalar::from(value));
    G2Point::from_bytes(&point.to_bytes()).unwrap()
}

fn to_bls(value: &Scalar) -> BlsScalar {
    BlsScalar::from_bytes(&value.to_bytes()).unwrap()
}

#[derive(Default)]
struct ProductCircuit {
    left: Scalar,
    right: Scalar,
    result: Scalar,
}

impl Circuit for ProductCircuit {
    fn circuit<B: ComposerBackend>(&self, composer: &mut Composer<B>) -> Result<(), CircuitError> {
        let left = composer.append_witness(self.left);
        let right = composer.append_witness(self.right);
        let product = composer.gate_mul(Constraint::new().mult(s(1)).a(left).b(right));
        let result = composer.append_public(self.result);
        composer.assert_equal(product, result);
        Ok(())
    }
}

#[derive(Default)]
struct SumCircuit {
    left: Scalar,
    right: Scalar,
    result: Scalar,
}

impl Circuit for SumCircuit {
    fn circuit<B: ComposerBackend>(&self, composer: &mut Composer<B>) -> Result<(), CircuitError> {
        let left = composer.append_witness(self.left);
        let right = composer.append_witness(self.right);
        let sum = composer.gate_add(Constraint::new().left(s(1)).right(s(1)).a(left).b(right));
        let result = composer.append_public(self.result);
        composer.assert_equal(sum, result);
        Ok(())
    }
}

#[derive(Default)]
struct NoPublicCircuit {
    secret: Scalar,
}

impl Circuit for NoPublicCircuit {
    fn circuit<B: ComposerBackend>(&self, composer: &mut Composer<B>) -> Result<(), CircuitError> {
        let secret = composer.append_witness(self.secret);
        let square = composer.gate_mul(Constraint::new().mult(s(1)).a(secret).b(secret));
        composer.assert_equal_constant(square, s(49), None);
        Ok(())
    }
}

#[derive(Default)]
struct PublicOrderCircuit {
    first: Scalar,
    second: Scalar,
}

impl Circuit for PublicOrderCircuit {
    fn circuit<B: ComposerBackend>(&self, composer: &mut Composer<B>) -> Result<(), CircuitError> {
        composer.append_public(self.first);
        composer.append_public(self.second);
        Ok(())
    }
}

fn setup<C: Circuit>(rng: &mut TestRng) -> (Prover, Verifier) {
    match Compiler::trusted_setup::<C, _>(rng) {
        Ok(keys) => keys,
        Err(error) => panic!("setup failed: {:?}", error),
    }
}

#[test]
fn setup_prove_verify_round_trip() {
    let mut rng = TestRng(7);
    let (prover, verifier) = setup::<ProductCircuit>(&mut rng);
    let circuit = ProductCircuit {
        left: s(3),
        right: s(4),
        result: s(12),
    };
    let (proof, public_inputs) = prover.prove(&mut rng, &circuit).unwrap();
    verifier.verify(&proof, &public_inputs).unwrap();
    let (second_proof, second_inputs) = prover.prove(&mut rng, &circuit).unwrap();
    assert_ne!(proof, second_proof);
    assert_eq!(public_inputs, second_inputs);
    verifier.verify(&second_proof, &second_inputs).unwrap();
    assert_eq!(public_inputs, vec![s(12)]);
    assert_eq!(
        verifier.verify(&proof, &[s(13)]),
        Err(Error::ProofVerification)
    );
    assert_eq!(
        verifier.verify(&proof, &[]),
        Err(Error::InvalidPublicInputCount {
            expected: 1,
            provided: 0,
        })
    );

    let mut bytes = proof.to_bytes();
    let a = G1Affine::from_slice(&bytes[..48]).unwrap();
    let shifted = G1Affine::from(G1Projective::from(a) + G1Affine::generator());
    bytes[..48].copy_from_slice(&shifted.to_bytes());
    let tampered = Proof::from_bytes(&bytes).unwrap();
    assert_eq!(
        verifier.verify(&tampered, &public_inputs),
        Err(Error::ProofVerification)
    );
}

#[test]
fn zero_and_multiple_public_input_edges_verify() {
    let mut rng = TestRng(8);
    let (prover, verifier) = setup::<NoPublicCircuit>(&mut rng);
    let (proof, public_inputs) = prover
        .prove(&mut rng, &NoPublicCircuit { secret: s(7) })
        .unwrap();
    assert!(public_inputs.is_empty());
    verifier.verify(&proof, &public_inputs).unwrap();

    let (prover, verifier) = setup::<PublicOrderCircuit>(&mut rng);
    let circuit = PublicOrderCircuit {
        first: s(17),
        second: s(23),
    };
    let (proof, public_inputs) = prover.prove(&mut rng, &circuit).unwrap();
    assert_eq!(public_inputs, vec![s(17), s(23)]);
    verifier.verify(&proof, &public_inputs).unwrap();
    let mut swapped = public_inputs;
    swapped.swap(0, 1);
    assert_eq!(
        verifier.verify(&proof, &swapped),
        Err(Error::ProofVerification)
    );
}

#[test]
fn unsatisfied_circuit_is_rejected_before_proving() {
    let mut rng = TestRng(9);
    let (prover, _) = setup::<ProductCircuit>(&mut rng);
    let circuit = ProductCircuit {
        left: s(3),
        right: s(4),
        result: s(13),
    };
    assert_eq!(
        prover.prove(&mut rng, &circuit).err(),
        Some(Error::CircuitUnsatisfied)
    );
}

#[test]
fn a_different_shape_is_rejected_before_proving() {
    let mut rng = TestRng(10);
    let (prover, _) = setup::<ProductCircuit>(&mut rng);
    let circuit = SumCircuit {
        left: s(3),
        right: s(4),
        result: s(7),
    };
    assert_eq!(
        prover.prove(&mut rng, &circuit).err(),
        Some(Error::InvalidCircuitShape)
    );
}

#[test]
fn an_inconsistent_key_domain_is_rejected_without_panicking() {
    let mut rng = TestRng(12);
    let (prover, _) = setup::<ProductCircuit>(&mut rng);
    let mut bytes = prover.into_key().to_bytes();
    // Double the domain size and extend the trailing quotient query to match.
    let domain_size = u64::from_le_bytes(bytes[58..66].try_into().unwrap());
    let doubled = domain_size * 2;
    bytes[58..66].copy_from_slice(&doubled.to_le_bytes());
    let h_length = (domain_size - 1) as usize;
    let prefix = bytes.len() - 8 - 48 * h_length;
    bytes[prefix..prefix + 8].copy_from_slice(&(doubled - 1).to_le_bytes());
    for _ in 0..domain_size {
        bytes.extend_from_slice(&G1Affine::generator().to_bytes());
    }
    let key = ProvingKey::try_from_bytes(&bytes).unwrap();
    let prover = Prover::from_key(key);
    let circuit = ProductCircuit {
        left: s(3),
        right: s(4),
        result: s(12),
    };
    assert_eq!(
        prover.prove(&mut rng, &circuit).err(),
        Some(Error::InvalidCircuitShape)
    );
}

#[test]
fn serialized_keys_can_prove_and_verify() {
    let mut rng = TestRng(11);
    let (prover, verifier) = setup::<ProductCircuit>(&mut rng);
    let proving_bytes = prover.key().to_bytes();
    let verifying_bytes = verifier.key().to_bytes();
    let proving_key = ProvingKey::try_from_bytes(&proving_bytes).unwrap();
    let verifying_key = VerifyingKey::try_from_bytes(&verifying_bytes).unwrap();
    assert_eq!(&proving_key, prover.key());
    assert_eq!(&verifying_key, verifier.key());
    let prover = Prover::from_key(proving_key);
    let verifier = Verifier::from_key(verifying_key);
    let circuit = ProductCircuit {
        left: s(5),
        right: s(6),
        result: s(30),
    };
    let (proof, public_inputs) = prover.prove(&mut rng, &circuit).unwrap();
    let proof = Proof::from_bytes(&proof.to_bytes()).unwrap();
    verifier.verify(&proof, &public_inputs).unwrap();

    assert_eq!(
        ProvingKey::try_from_bytes(&proving_bytes[..proving_bytes.len() - 1]).err(),
        Some(Error::InvalidEncoding)
    );
    let mut malformed = verifying_bytes;
    malformed[8] = 2;
    assert_eq!(
        VerifyingKey::try_from_bytes(&malformed).err(),
        Some(Error::InvalidEncoding)
    );
}

#[test]
fn verifying_key_decoding_rejects_trailing_and_kind_errors() {
    let mut rng = TestRng(21);
    let (prover, verifier) = setup::<ProductCircuit>(&mut rng);
    let bytes = verifier.key().to_bytes();
    assert_eq!(&bytes[..8], b"DUSKG16K");
    assert_eq!(bytes[8], 1);
    assert_eq!(bytes[9], 2);
    assert_eq!(verifier.key().public_inputs(), 1);
    assert_eq!(verifier.key().public_query().len(), 2);
    let mut trailing = bytes.clone();
    trailing.push(0);
    assert_eq!(
        VerifyingKey::try_from_bytes(&trailing).err(),
        Some(Error::InvalidEncoding)
    );
    let mut identity = bytes.clone();
    identity[10..58].copy_from_slice(&G1Affine::identity().to_bytes());
    assert_eq!(
        VerifyingKey::try_from_bytes(&identity).err(),
        Some(Error::InvalidEncoding)
    );
    let proving = prover.key().to_bytes();
    assert_eq!(proving[9], 1);
    let mut wrong_kind = proving.clone();
    wrong_kind[9] = 2;
    assert_eq!(
        ProvingKey::try_from_bytes(&wrong_kind).err(),
        Some(Error::InvalidEncoding)
    );
    let mut length_overflow = proving;
    length_overflow[402..410].fill(0xff);
    assert_eq!(
        ProvingKey::try_from_bytes(&length_overflow).err(),
        Some(Error::InvalidEncoding)
    );
}

fn evaluate(coefficients: &[Scalar], point: &Scalar) -> Scalar {
    coefficients
        .iter()
        .rev()
        .fold(Scalar::zero(), |value, coefficient| value.mul(point).add(coefficient))
}

#[test]
fn fft_round_trip() {
    let domain = EvaluationDomain::new(4).unwrap();
    let polynomial = vec![s(1), s(2), s(3), s(4)];
    assert_eq!(domain.ifft(&domain.fft(&polynomial)), polynomial);
    assert_eq!(domain.coset_ifft(&domain.coset_fft(&polynomial)), polynomial);
}

#[test]
fn fft_matches_direct_polynomial_evaluation() {
    for size in [1usize, 2, 4, 8, 16] {
        let domain = EvaluationDomain::new(size).unwrap();
        assert_eq!(domain.size(), size);
        let mut omega = Scalar::root_of_unity();
        let mut k = size;
        while k < (1usize << 32) {
            omega = omega.square();
            k *= 2;
        }
        let coefficients: Vec<Scalar> = (0..size).map(|i| s((i * i + 3) as u64)).collect();
        let evaluations = domain.fft(&coefficients);
        let mut point = Scalar::one();
        for evaluation in evaluations {
            assert_eq!(evaluation, evaluate(&coefficients, &point));
            point = point.mul(&omega);
        }
    }
}

#[test]
fn lagrange_coefficients_reconstruct_an_out_of_domain_evaluation() {
    let domain = EvaluationDomain::new(8).unwrap();
    let coefficients: Vec<Scalar> = (1..=8).map(s).collect();
    let evaluations = domain.fft(&coefficients);
    let point = Scalar::multiplicative_generator();
    assert_ne!(domain.vanishing(&point), Scalar::zero());
    let lagrange = domain.lagrange_at(&point).unwrap();
    let reconstructed = evaluations
        .iter()
        .zip(lagrange.iter())
        .fold(Scalar::zero(), |sum, (evaluation, basis)| sum.add(&evaluation.mul(basis)));
    assert_eq!(reconstructed, evaluate(&coefficients, &point));
}

#[test]
fn evaluation_domains_round_up_and_refuse_oversized_requests() {
    assert_eq!(EvaluationDomain::new(0).unwrap().size(), 1);
    assert_eq!(EvaluationDomain::new(5).unwrap().size(), 8);
    assert_eq!(EvaluationDomain::new(1 << 31).unwrap().size(), 1 << 31);
    assert_eq!(
        EvaluationDomain::new((1 << 31) + 1).err(),
        Some(Error::InvalidEvaluationDomain)
    );
    let domain = EvaluationDomain::new(4).unwrap();
    assert_eq!(domain.vanishing(&s(2)), s(15));
    assert_eq!(domain.vanishing(&Scalar::one()), Scalar::zero());
    assert_eq!(
        domain.lagrange_at(&Scalar::one()).err(),
        Some(Error::InvalidEvaluationDomain)
    );
}

#[test]
fn field_constants_have_their_documented_values() {
    assert_eq!(Scalar::multiplicative_generator(), s(7));
    let root = Scalar::root_of_unity();
    let mut expected = [0u8; 32];
    let hex = "16a2a19edfe81f20d09b681922c813b4b63683508c2280b93829971f439f0d2b";
    for i in 0..32 {
        expected[31 - i] = u8::from_str_radix(&hex[2 * i..2 * i + 2], 16).unwrap();
    }
    assert_eq!(root.to_bytes(), expected);
    let mut order = root;
    for _ in 0..31 {
        order = order.square();
    }
    assert_ne!(order, Scalar::one());
    assert_eq!(order.square(), Scalar::one());
    assert_eq!(s(3).pow_u64(4), s(81));
}

#[test]
fn generator_encodings_have_their_documented_values() {
    let hex = |bytes: &[u8]| bytes.iter().map(|b| format!("{:02x}", b)).collect::<String>();
    let g1 = G1Affine::generator().to_bytes();
    assert_eq!(
        hex(&g1),
        "97f1d3a73197d7942695638c4fa9ac0fc3688c4f9774b905a14e3a3f171bac586c55e83ff97a1aeffb3af00adb22c6bb"
    );
    let g2 = G2Affine::generator().to_bytes();
    assert_eq!(
        hex(&g2),
        "93e02b6052719f607dacd3a088274f65596bd0d09920b61ab5da61bbdc7f5049334cf11213945d57e5ac7d055d042b7e024aa2b2f08f0a91260805272dc51051c6e47ad4fa403b02b4510b647ae3d1770bac0326a805bbefd48056c8c121bdb8"
    );
    assert_eq!(g1_times(1).to_bytes(), g1);
    assert_eq!(g2_times(1).to_bytes(), g2);
}

fn check_g2_msm(length: usize) {
    // Every base is a small multiple of the generator, so the naive sum
    // `Σ scalar_i·(m_i·G)` equals `(Σ scalar_i·m_i)·G`.
    let multiples: Vec<G2Point> = (1..=17u64).map(g2_times).collect();
    let points: Vec<G2Point> = (0..length).map(|index| multiples[index % 17]).collect();
    let scalars: Vec<Scalar> = (0..length)
        .map(|index| {
            if index % 3 == 0 {
                Scalar::one().neg()
            } else if index % 3 == 1 {
                Scalar::zero()
            } else {
                s((index + 20) as u64)
            }
        })
        .collect();
    let exponent = scalars
        .iter()
        .enumerate()
        .fold(Scalar::zero(), |sum, (index, scalar)| {
            sum.add(&scalar.mul(&s((index % 17 + 1) as u64)))
        });
    let expected = G2Affine::from(G2Projective::generator() * to_bls(&exponent));
    let result = msm::g2(&points, &scalars).unwrap();
    assert_eq!(result.to_bytes(), expected.to_bytes());
}

#[test]
fn g2_bucket_msm_matches_naive_sum_at_every_window_threshold() {
    for length in [0, 1, 4, 5, 32, 33, 256, 257] {
        check_g2_msm(length);
    }
}

#[test]
fn msm_rejects_inconsistent_lengths() {
    assert_eq!(msm::g1(&[g1_times(1)], &[]).err(), Some(Error::InvalidQueryLength));
    assert_eq!(msm::g2(&[g2_times(1)], &[]).err(), Some(Error::InvalidQueryLength));
}

#[test]
fn g1_msm_matches_naive_sum() {
    let points: Vec<G1Point> = (1..=5).map(g1_times).collect();
    let scalars: Vec<Scalar> = (10..15).map(s).collect();
    let expected = points
        .iter()
        .zip(&scalars)
        .fold(G1Projective::identity(), |sum, (point, scalar)| {
            sum + G1Affine::from_slice(&point.to_bytes()).unwrap() * to_bls(scalar)
        });
    let result = msm::g1(&points, &scalars).unwrap();
    assert_eq!(result.to_bytes(), G1Affine::from(expected).to_bytes());
}

#[test]
fn proof_encoding_round_trip() {
    assert_eq!(PROOF_SIZE, 192);
    let mut bytes = [0u8; 192];
    bytes[..48].copy_from_slice(&g1_times(2).to_bytes());
    bytes[48..144].copy_from_slice(&g2_times(3).to_bytes());
    bytes[144..].copy_from_slice(&g1_times(4).to_bytes());
    let proof = Proof::from_bytes(&bytes).unwrap();
    assert_eq!(proof.to_bytes(), bytes);
    assert_eq!(proof.a().to_bytes(), g1_times(2).to_bytes());
    assert_eq!(proof.b().to_bytes(), g2_times(3).to_bytes());
    assert_eq!(proof.c().to_bytes(), g1_times(4).to_bytes());
}

#[test]
fn identity_and_malformed_proof_encodings_are_rejected() {
    let mut valid = [0u8; 192];
    valid[..48].copy_from_slice(&G1Affine::generator().to_bytes());
    valid[48..144].copy_from_slice(&G2Affine::generator().to_bytes());
    valid[144..].copy_from_slice(&G1Affine::generator().to_bytes());
    assert!(Proof::from_bytes(&valid).is_ok());

    let mut identity_a = valid;
    identity_a[..48].copy_from_slice(&G1Affine::identity().to_bytes());
    assert_eq!(Proof::from_bytes(&identity_a).err(), Some(BytesError::InvalidData));
    let mut identity_b = valid;
    identity_b[48..144].copy_from_slice(&G2Affine::identity().to_bytes());
    assert_eq!(Proof::from_bytes(&identity_b).err(), Some(BytesError::InvalidData));
    let mut identity_c = valid;
    identity_c[144..].copy_from_slice(&G1Affine::identity().to_bytes());
    assert_eq!(Proof::from_bytes(&identity_c).err(), Some(BytesError::InvalidData));

    let mut malformed = valid;
    malformed[..48].fill(0);
    assert_eq!(Proof::from_bytes(&malformed).err(), Some(BytesError::InvalidData));
}

fn inner_product(values: &[Scalar], assignment: &[Scalar]) -> Scalar {
    values
        .iter()
        .zip(assignment)
        .fold(Scalar::zero(), |sum, (value, assigned)| sum.add(&value.mul(assigned)))
}

#[test]
fn qap_witness_polynomial_satisfies_the_divisibility_identity() {
    let circuit = ProductCircuit {
        left: s(9),
        right: s(11),
        result: s(99),
    };
    let mut composer = Composer::<R1cs>::initialized();
    circuit.circuit(&mut composer).unwrap();
    let circuit = composer.into_r1cs();
    assert!(circuit.is_satisfied());

    let domain = EvaluationDomain::new(circuit.shape().constraints().len()).unwrap();
    let tau = Scalar::multiplicative_generator();
    assert_ne!(domain.vanishing(&tau), Scalar::zero());
    let instance = match evaluate_shape_at_tau(circuit.shape(), domain, &tau) {
        Ok(instance) => instance,
        Err(error) => panic!("evaluation failed: {:?}", error),
    };
    let quotient = quotient(&circuit, domain).unwrap();
    assert_eq!(quotient.len(), domain.size());
    assert_eq!(quotient.last(), Some(&Scalar::zero()));

    let assignment = circuit.assignment().values();
    let a = inner_product(&instance.u, assignment);
    let b = inner_product(&instance.v, assignment);
    let c = inner_product(&instance.w, assignment);
    let h = evaluate(&quotient, &tau);
    assert_eq!(a.mul(&b).sub(&c), instance.vanishing.mul(&h));
}

#[test]
fn the_coset_generator_is_never_a_domain_root() {
    let generator = Scalar::multiplicative_generator();
    for log_size in 0..12u32 {
        let domain = EvaluationDomain::new(1usize << log_size).unwrap();
        assert_eq!(domain.size(), 1usize << log_size);
        assert_ne!(domain.vanishing(&generator), Scalar::zero());
    }
}

#[test]
fn the_quotient_of_a_satisfied_circuit_has_no_top_term_at_every_size() {
    for count in 1..6u64 {
        let mut composer = Composer::<R1cs>::initialized();
        let mut value = s(3);
        for _ in 0..count {
            let left = composer.append_witness(value);
            let square = composer.gate_mul(Constraint::new().mult(s(1)).a(left).b(left));
            value = value.mul(&value);
            composer.assert_equal_constant(square, value, None);
        }
        let circuit = composer.into_r1cs();
        assert!(circuit.is_satisfied());
        let domain = EvaluationDomain::new(circuit.shape().constraints().len()).unwrap();
        let quotient = quotient(&circuit, domain).unwrap();
        assert_eq!(quotient.len(), domain.size());
        assert_eq!(quotient.last(), Some(&Scalar::zero()));
    }
}

#[derive(Default)]
struct SquareCircuit {
    secret: Scalar,
    square: Scalar,
}

impl Circuit for SquareCircuit {
    fn circuit<B: ComposerBackend>(&self, composer: &mut Composer<B>) -> Result<(), CircuitError> {
        let secret = composer.append_witness(self.secret);
        let square = composer.gate_mul(Constraint::new().mult(s(1)).a(secret).b(secret));
        let public = composer.append_public(self.square);
        composer.assert_equal(square, public);
        Ok(())
    }
}

#[test]
fn exported_keys_and_proof_round_trip() {
    let mut rng = TestRng(21);
    let (prover, verifier) = setup::<SquareCircuit>(&mut rng);
    let prover = Prover::from_key(ProvingKey::try_from_bytes(&prover.into_key().to_bytes()).unwrap());
    let verifier =
        Verifier::from_key(VerifyingKey::try_from_bytes(&verifier.into_key().to_bytes()).unwrap());
    let circuit = SquareCircuit {
        secret: s(9),
        square: s(81),
    };
    let (proof, public_inputs) = prover.prove(&mut rng, &circuit).unwrap();
    let decoded = Proof::from_bytes(&proof.to_bytes()).unwrap();
    verifier.verify(&decoded, &public_inputs).unwrap();
}

#[test]
fn g2_term_sum_adds_each_multiple() {
    let points = vec![g2_times(1), g2_times(2), g2_times(5)];
    let scalars = vec![s(3), s(4), Scalar::zero()];
    let result = msm::g2_term_sum(&points, &scalars).unwrap();
    assert_eq!(result.to_bytes(), g2_times(11).to_bytes());
    assert_eq!(msm::g2_term_sum(&points, &scalars[..2]).err(), Some(Error::InvalidQueryLength));
    assert_eq!(msm::g2_term_sum(&[], &[]).unwrap().to_bytes(), G2Affine::identity().to_bytes());
}
