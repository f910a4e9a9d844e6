//! Unstable seams for adversarial proof-system regression tests: raw wires,
//! raw witness handles, raw gate construction and raw assignment access.
//! This is not part of the supported circuit-building API.

use vstd::prelude::*;

use crate::composer::{Circuit, Composer, ComposerBackend};
use crate::constraint::{Constraint, WiredWitness};
use crate::error::Error;
use crate::gate::{constraint_gate, Gate};
use crate::plonkish::Plonkish;
use crate::point::WitnessPoint;
use crate::scalar::Scalar;
use crate::witness::Witness;

verus! {

/// A raw Plonkish wire used by adversarial tests.
#[derive(Debug, Clone, Copy, PartialEq, Eq)]
pub enum Wire {
    /// Left wire.
    A,
    /// Right wire.
    B,
    /// Output wire.
    C,
    /// Fourth wire.
    D,
}

/// The position of a raw wire.
pub open spec fn wire_position(w: Wire) -> nat {
    match w {
        Wire::A => 0,
        Wire::B => 1,
        Wire::C => 2,
        Wire::D => 3,
    }
}

fn wire(selected: Wire) -> (r: WiredWitness)
    ensures
        r.spec_position() == wire_position(selected),
{
    match selected {
        Wire::A => WiredWitness::A,
        Wire::B => WiredWitness::B,
        Wire::C => WiredWitness::C,
        Wire::D => WiredWitness::D,
    }
}

/// Read a raw constraint wire.
pub fn constraint_witness(constraint: &Constraint, selected: Wire) -> (r: Witness)
    ensures
        r == constraint.wired()[wire_position(selected) as int],
{
    constraint.witness(wire(selected))
}

/// Construct an unallocated witness handle.
pub fn witness(index: usize) -> (r: Witness)
    ensures
        r.index() == index,
{
    Witness::new(index)
}

/// Read all gates from a Plonkish.
pub fn gates(composer: &Composer<Plonkish>) -> (r: &[Gate])
    ensures
        r@.len() == composer.emitted().len(),
        forall|i: int|
            0 <= i < r@.len() ==> (#[trigger] r@[i]).model() == constraint_gate(composer.emitted()[i]),
{
    composer.gates()
}

/// Read the raw witness assignment.
pub fn witnesses(composer: &Composer<Plonkish>) -> (r: &[Scalar])
    ensures
        r@ == composer.assignment(),
{
    composer.witnesses()
}

/// Mutably access the raw witness assignment.
pub fn witnesses_mut(composer: &mut Composer<Plonkish>) -> (r: &mut Vec<Scalar>)
    ensures
        r@ == old(composer).assignment(),
        final(composer).assignment() == final(r)@,
        final(composer).backend_state() == old(composer).backend_state(),
        final(composer).public_values() == old(composer).public_values(),
{
    composer.assignment_mut()
}

/// Mutably access a composer's backend, touching nothing else.
pub fn backend_mut<B: ComposerBackend>(composer: &mut Composer<B>) -> (r: &mut B)
    ensures
        *r == old(composer).backend_state(),
        final(composer).backend_state() == *final(r),
        final(composer).assignment() == old(composer).assignment(),
        final(composer).public_values() == old(composer).public_values(),
{
    composer.backend_mut()
}

/// Build a raw range constraint.
pub fn range(constraint: &Constraint) -> (r: Constraint)
    ensures
        Constraint::with_component(*constraint, r, 8, 1),
{
    Constraint::range(constraint)
}

/// Build a raw AND constraint.
pub fn logic(constraint: &Constraint) -> (r: Constraint)
    ensures
        forall|i: int| 0 <= i < 5 || i == 6 ==> r.coeffs()[i] == constraint.coeffs()[i],
        forall|i: int| 7 <= i < 12 && i != 9 ==> (#[trigger] r.coeffs()[i])@ == 0,
        r.coeffs()[5]@ == 1,
        r.coeffs()[9]@ == 1,
        r.wired() == constraint.wired(),
        r.public_flag() == constraint.public_flag(),
{
    Constraint::logic(constraint)
}

/// Build a raw XOR constraint.
pub fn logic_xor(constraint: &Constraint) -> (r: Constraint)
    ensures
        forall|i: int| 0 <= i < 5 || i == 6 ==> r.coeffs()[i] == constraint.coeffs()[i],
        forall|i: int| 7 <= i < 12 && i != 9 ==> (#[trigger] r.coeffs()[i])@ == 0,
        r.coeffs()[5]@ == crate::scalar::fneg(1),
        r.coeffs()[9]@ == crate::scalar::fneg(1),
        r.wired() == constraint.wired(),
        r.public_flag() == constraint.public_flag(),
{
    Constraint::logic_xor(constraint)
}

/// Build a raw variable-base group-addition constraint.
pub fn group_add_variable_base(constraint: &Constraint) -> (r: Constraint)
    ensures
        Constraint::with_component(*constraint, r, 11, 1),
{
    Constraint::group_add_variable_base(constraint)
}

/// Construct a raw point from coordinate witnesses.
pub fn witness_point(x: Witness, y: Witness) -> (r: WitnessPoint)
    ensures
        r.spec_x() == x,
        r.spec_y() == y,
{
    WitnessPoint::new(x, y)
}

/// Build a Plonkish directly for a test circuit.
pub fn compose<C: Circuit>(circuit: &C) -> (r: Result<Composer<Plonkish>, Error>)
    ensures
        r matches Ok(composer) ==> Composer::<Plonkish>::canonical(composer, 0),
{
    let mut composer = Composer::<Plonkish>::initialized();
    let ghost start = composer;
    match circuit.circuit(&mut composer) {
        Ok(_) => {},
        Err(e) => {
            return Err(e);
        },
    }
    proof {
        assert(composer.emitted()[0] == start.emitted()[0]);
        assert(composer.emitted()[1] == start.emitted()[1]);
        assert(composer.assignment()[0] == start.assignment()[0]);
        assert(composer.assignment()[1] == start.assignment()[1]);
    }
    Ok(composer)
}

/// Extension methods used by adversarial Plonkish tests.
pub trait ComposerTestExt {
    /// Append a raw component constraint.
    fn append_custom_gate(&mut self, constraint: Constraint);
}

impl<B: ComposerBackend> ComposerTestExt for Composer<B> {
    fn append_custom_gate(&mut self, constraint: Constraint)
        ensures
            Composer::<B>::emits(*old(self), *final(self), constraint),
    {
        Composer::<B>::append_custom_gate(self, constraint);
    }
}

/// Extension methods for raw custom-gate construction in tests.
pub trait ConstraintTestExt: Sized {
    /// The witness on wire `selected`.
    spec fn selected_witness(&self, selected: Wire) -> Witness;

    /// Read a raw wire.
    fn witness(&self, selected: Wire) -> (r: Witness)
        ensures
            r == self.selected_witness(selected),
    ;

    /// Select a raw range gate.
    fn range(constraint: &Self) -> Self;

    /// Select a raw AND gate.
    fn logic(constraint: &Self) -> Self;

    /// Select a raw XOR gate.
    fn logic_xor(constraint: &Self) -> Self;
}

impl ConstraintTestExt for Constraint {
    open spec fn selected_witness(&self, selected: Wire) -> Witness {
        self.wired()[wire_position(selected) as int]
    }

    fn witness(&self, selected: Wire) -> Witness {
        constraint_witness(self, selected)
    }

    fn range(constraint: &Constraint) -> (r: Constraint)
        ensures
            Constraint::with_component(*constraint, r, 8, 1),
    {
        Constraint::range(constraint)
    }

    fn logic(constraint: &Constraint) -> (r: Constraint)
        ensures
            forall|i: int| 0 <= i < 5 || i == 6 ==> r.coeffs()[i] == constraint.coeffs()[i],
            forall|i: int| 7 <= i < 12 && i != 9 ==> (#[trigger] r.coeffs()[i])@ == 0,
            r.coeffs()[5]@ == 1,
            r.coeffs()[9]@ == 1,
            r.wired() == constraint.wired(),
            r.public_flag() == constraint.public_flag(),
    {
        Constraint::logic(constraint)
    }

    fn logic_xor(constraint: &Constraint) -> (r: Constraint)
        ensures
            forall|i: int| 0 <= i < 5 || i == 6 ==> r.coeffs()[i] == constraint.coeffs()[i],
            forall|i: int| 7 <= i < 12 && i != 9 ==> (#[trigger] r.coeffs()[i])@ == 0,
            r.coeffs()[5]@ == crate::scalar::fneg(1),
            r.coeffs()[9]@ == crate::scalar::fneg(1),
            r.wired() == constraint.wired(),
            r.public_flag() == constraint.public_flag(),
    {
        Constraint::logic_xor(constraint)
    }
}

} // verus!
