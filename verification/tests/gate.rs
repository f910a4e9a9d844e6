use zk_tools::constraint::Constraint;
use zk_tools::gate::Gate;
use zk_tools::identities::{evaluate, WireValues};
use zk_tools::scalar::Scalar;
use zk_tools::witness::Witness;

fn s(value: u64) -> Scalar {
    Scalar::from_u64(value)
}

/// An arithmetic gate over the first four wires whose constant selector is
/// `constant`.
fn sample_gate(constant: u64) -> Gate {
    let constraint = Constraint::arithmetic(
        &Constraint::new()
            .mult(s(1))
            .left(s(2))
            .right(s(3))
            .output(s(4))
            .fourth(s(5))
            .constant(s(constant))
            .a(Witness::zero())
            .b(Witness::one())
            .c(Witness::new(2))
            .d(Witness::new(3)),
    );
    Gate::from_constraint(&constraint)
}

#[test]
fn gate_is_copy_clone_and_eq() {
    let gate = sample_gate(6);

    let gate_copy = gate;
    assert_eq!(gate, gate_copy);

    let gate_clone = gate_copy.clone();
    assert_eq!(gate_copy, gate_clone);

    let _ = format!("{gate_clone:?}");
}

#[test]
fn gate_partial_eq_compares_fields() {
    let a = sample_gate(6);
    let b = a;
    assert_eq!(a, b);

    let b = sample_gate(7);
    assert_ne!(a, b);
}

#[test]
fn arithmetic_identity_uses_public_input_outside_selector() {
    let constraint = Constraint::arithmetic(
        &Constraint::new()
            .mult(s(1))
            .left(s(2))
            .right(s(3))
            .output(s(1).neg())
            .a(Witness::zero())
            .b(Witness::one()),
    );
    let gate = Gate::from_constraint(&constraint);
    let current = WireValues::new(s(2), s(3), s(19), Scalar::zero());
    let next = WireValues::new(Scalar::zero(), Scalar::zero(), Scalar::zero(), Scalar::zero());
    let identities = evaluate(&gate, current, next, Scalar::zero());

    assert!(identities.into_iter().all(|value| value == Scalar::zero()));
}

#[test]
fn range_identities_vanish_exactly_on_base_four_steps() {
    let gate = Gate::from_constraint(&Constraint::range(&Constraint::new()));
    // steps c - 4d = 3, b - 4c = 2, a - 4b = 1, d_next - 4a = 0
    let current = WireValues::new(s(57), s(14), s(3), Scalar::zero());
    let next = WireValues::new(Scalar::zero(), Scalar::zero(), Scalar::zero(), s(228));
    let identities = evaluate(&gate, current, next, Scalar::zero());
    assert!(identities[1..5].iter().all(|value| *value == Scalar::zero()));

    // the step c - 4d = 4 is no digit
    let current = WireValues::new(s(57), s(14), s(4), Scalar::zero());
    let next = WireValues::new(Scalar::zero(), Scalar::zero(), Scalar::zero(), s(228));
    let identities = evaluate(&gate, current, next, Scalar::zero());
    assert!(identities[1] != Scalar::zero());
}
