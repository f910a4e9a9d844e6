use zk_tools::composer::{check_size, Circuit, Composer, ComposerBackend};
use zk_tools::constraint::Constraint;
use zk_tools::error::Error;
use zk_tools::lowering::R1cs;
use zk_tools::plonkish::Plonkish;
use zk_tools::r1cs::R1csCircuit;
use zk_tools::scalar::Scalar;
use zk_tools::test_support::{backend_mut, witnesses_mut};
use zk_tools::witness::Witness;

fn s(value: u64) -> Scalar {
    Scalar::from_u64(value)
}

#[derive(Clone, Debug)]
struct ExternalBackend {
    marker: u8,
    constraints: usize,
    last_wires: [Witness; 4],
    last_q_m: Scalar,
    last_public_input: Option<Scalar>,
}

impl Default for ExternalBackend {
    fn default() -> Self {
        ExternalBackend {
            marker: 0,
            constraints: 0,
            last_wires: [Witness::zero(); 4],
            last_q_m: Scalar::zero(),
            last_public_input: None,
        }
    }
}

impl ComposerBackend for ExternalBackend {
    fn emitted(&self) -> vstd::seq::Seq<Constraint> {
        panic!("the emitted sequence is a verification-time view")
    }

    fn new() -> Self {
        Self::default()
    }

    fn constraints(&self) -> usize {
        self.constraints
    }

    fn append_constraint(&mut self, constraint: &Constraint) {
        self.constraints += 1;
        self.last_wires = constraint.wires();
        self.last_q_m = *constraint.q_m();
        self.last_public_input = constraint.public_input().copied();
        let _ = (
            constraint.q_l(),
            constraint.q_r(),
            constraint.q_o(),
            constraint.q_f(),
            constraint.q_c(),
            constraint.q_arith(),
            constraint.q_range(),
            constraint.q_logic(),
            constraint.q_fixed_group_add(),
            constraint.q_variable_group_add(),
        );
    }

    fn initialization(_before: Composer<Self>, _after: Composer<Self>) -> bool {
        panic!("the initialization relation is a verification-time view")
    }

    fn initialize(_composer: &mut Composer<Self>) {}
}

#[test]
fn external_backend_can_inspect_emitted_constraints() {
    let backend = ExternalBackend {
        marker: 42,
        ..ExternalBackend::default()
    };
    let mut composer = Composer::with_backend(backend);
    assert_eq!(composer.backend().marker, 42);
    let left = composer.append_witness(s(2));
    let right = composer.append_witness(s(3));
    let output = composer.gate_mul(Constraint::new().mult(s(1)).a(left).b(right));

    let public = s(6);
    let public_witness = composer.append_public(public);
    composer.assert_equal(output, public_witness);

    let backend = composer.into_backend();
    assert_eq!(backend.last_wires[0], output);
    assert_eq!(backend.last_wires[1], public_witness);
    assert_eq!(backend.last_q_m, Scalar::zero());
    assert_eq!(backend.last_public_input, None);
}

#[test]
fn external_backend_observes_zero_public_inputs() {
    let mut composer = Composer::<ExternalBackend>::initialized();
    let public = composer.append_public(Scalar::zero());

    let backend = composer.into_backend();
    assert_eq!(backend.last_wires[0], public);
    assert_eq!(backend.last_public_input, Some(Scalar::zero()));
}

#[derive(Clone, Debug, Default)]
struct RecordingBackend {
    constraints: usize,
    initialized: bool,
}

impl ComposerBackend for RecordingBackend {
    fn emitted(&self) -> vstd::seq::Seq<Constraint> {
        panic!("the emitted sequence is a verification-time view")
    }

    fn new() -> Self {
        Self::default()
    }

    fn constraints(&self) -> usize {
        self.constraints
    }

    fn append_constraint(&mut self, _constraint: &Constraint) {
        self.constraints += 1;
    }

    fn initialization(_before: Composer<Self>, _after: Composer<Self>) -> bool {
        panic!("the initialization relation is a verification-time view")
    }

    fn initialize(composer: &mut Composer<Self>) {
        backend_mut(composer).initialized = true;
    }
}

#[test]
fn generic_composer_dispatches_to_the_selected_backend() {
    let mut composer = Composer::<RecordingBackend>::initialized();
    assert_eq!(composer.constraints(), 2);

    let left = composer.append_witness(s(2));
    let right = composer.append_witness(s(3));
    composer.gate_mul(Constraint::new().mult(s(1)).a(left).b(right));

    let constraints = composer.constraints();
    let backend = composer.into_backend();
    assert!(backend.initialized);
    assert_eq!(backend.constraints, constraints);
}

#[derive(Default)]
struct ShapeCircuit {
    public: Scalar,
    left: Scalar,
    right: Scalar,
}

impl Circuit for ShapeCircuit {
    fn circuit<B: ComposerBackend>(&self, composer: &mut Composer<B>) -> Result<(), Error> {
        composer.append_public(self.public);
        let left = composer.append_witness(self.left);
        let right = composer.append_witness(self.right);
        composer.gate_mul(Constraint::new().mult(s(1)).a(left).b(right));
        Ok(())
    }
}

fn compose_plonkish<C: Circuit>(circuit: &C) -> Composer<Plonkish> {
    let mut composer = Composer::<Plonkish>::initialized();
    circuit.circuit(&mut composer).expect("circuit must build");
    composer
}

#[test]
fn shape_excludes_assignments_but_tracks_public_rows() {
    let first = compose_plonkish(&ShapeCircuit {
        public: Scalar::zero(),
        left: s(2),
        right: s(3),
    });
    let second = compose_plonkish(&ShapeCircuit {
        public: s(9),
        left: s(11),
        right: s(13),
    });

    assert_eq!(first.shape(), second.shape());
    assert_eq!(first.public_input_indexes(), second.public_input_indexes());
    assert_ne!(first.public_inputs(), second.public_inputs());
    assert!(first.is_satisfied());
    assert!(second.is_satisfied());
}

#[test]
fn identity_evaluator_detects_a_corrupted_assignment() {
    let mut composer = Composer::<Plonkish>::initialized();
    let witness = composer.append_witness(s(7));
    composer.assert_equal_constant(witness, s(7), None);
    assert!(composer.is_satisfied());

    witnesses_mut(&mut composer)[witness.index()] = s(8);
    assert!(!composer.is_satisfied());
}

#[test]
fn build_rejects_a_different_gate_count() {
    let circuit = ShapeCircuit::default();
    let actual = circuit.size::<Plonkish>();

    match Composer::<Plonkish>::build(actual + 1, &circuit) {
        Err(error) => assert_eq!(error, Error::InvalidCircuitSize(actual, actual + 1)),
        Ok(_) => panic!("a different gate count must be rejected"),
    }
}

#[test]
fn build_accepts_the_reported_gate_count() {
    let circuit = ShapeCircuit::default();
    let actual = circuit.size::<Plonkish>();
    let composer = Composer::<Plonkish>::build(actual, &circuit).ok().expect("must build");
    assert_eq!(composer.constraints(), actual);
    assert_eq!(check_size(actual, actual), Ok(()));
    assert_eq!(check_size(3, 4), Err(Error::InvalidCircuitSize(3, 4)));
}

#[derive(Default)]
struct ProductCircuit {
    left: Scalar,
    right: Scalar,
    result: Scalar,
}

impl Circuit for ProductCircuit {
    fn circuit<B: ComposerBackend>(&self, composer: &mut Composer<B>) -> Result<(), Error> {
        let left = composer.append_witness(self.left);
        let right = composer.append_witness(self.right);
        let product = composer.gate_mul(Constraint::new().mult(s(1)).a(left).b(right));
        let result = composer.append_public(self.result);
        composer.assert_equal(product, result);
        Ok(())
    }
}

fn compose_r1cs(circuit: &ProductCircuit) -> R1csCircuit {
    let mut composer = Composer::<R1cs>::initialized();
    circuit.circuit(&mut composer).unwrap();
    assert!(composer.lowerable());
    composer.into_r1cs()
}

#[test]
fn arithmetic_assignment_is_satisfied() {
    let r1cs = compose_r1cs(&ProductCircuit {
        left: s(3),
        right: s(4),
        result: s(12),
    });
    assert!(r1cs.is_satisfied());
    assert_eq!(r1cs.shape().public_inputs(), 1);
    assert_eq!(r1cs.assignment().values()[0], Scalar::one());
    assert_eq!(r1cs.assignment().values()[1], s(12));
}

#[test]
fn invalid_public_result_is_rejected() {
    let r1cs = compose_r1cs(&ProductCircuit {
        left: s(3),
        right: s(4),
        result: s(13),
    });
    assert!(!r1cs.is_satisfied());
}

#[test]
fn public_values_do_not_change_shape() {
    let zero = compose_r1cs(&ProductCircuit::default());
    let populated = compose_r1cs(&ProductCircuit {
        left: s(3),
        right: s(4),
        result: s(12),
    });
    assert_eq!(zero.shape(), populated.shape());
    assert_eq!(zero.shape().digest(), populated.shape().digest());
    assert_eq!(
        zero.shape().digest(),
        [
            8, 185, 1, 1, 104, 46, 204, 122, 67, 53, 84, 68, 96, 54, 120, 244, 229, 78, 129, 71,
            254, 75, 207, 141, 151, 249, 245, 179, 255, 172, 207, 112,
        ]
    );
    assert_ne!(zero.assignment(), populated.assignment());
}

#[test]
fn plonkish_and_rank_one_backends_agree_on_a_product() {
    let honest = ProductCircuit {
        left: s(5),
        right: s(6),
        result: s(30),
    };
    let dishonest = ProductCircuit {
        left: s(5),
        right: s(6),
        result: s(31),
    };
    assert!(compose_plonkish(&honest).is_satisfied());
    assert!(compose_r1cs(&honest).is_satisfied());
    assert!(!compose_plonkish(&dishonest).is_satisfied());
    assert!(!compose_r1cs(&dishonest).is_satisfied());
}

#[test]
fn fresh_plonkish_composer_holds_its_compatibility_rows() {
    let composer = Composer::<Plonkish>::initialized();
    assert_eq!(composer.constraints(), 4);
    assert_eq!(composer.witness_count(), 6);
    assert_eq!(composer.witnesses()[2..6].to_vec(), vec![s(6), s(1), s(7), s(20).neg()]);
    assert!(composer.is_satisfied());
    let r1cs = Composer::<R1cs>::initialized();
    assert_eq!(r1cs.witness_count(), 2);
}
