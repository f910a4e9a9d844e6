//! Width-four PLONKish gates.

use vstd::prelude::*;

use crate::constraint::{Constraint, Selector, WiredWitness};
use crate::scalar::Scalar;
use crate::witness::Witness;

verus! {

/// The field values and wire indexes of a gate.
pub struct GateModel {
    /// Multiplication selector.
    pub q_m: nat,
    /// Left-wire selector.
    pub q_l: nat,
    /// Right-wire selector.
    pub q_r: nat,
    /// Output-wire selector.
    pub q_o: nat,
    /// Fourth-wire selector.
    pub q_f: nat,
    /// Constant selector.
    pub q_c: nat,
    /// Arithmetic-gate selector.
    pub q_arith: nat,
    /// Range-gate selector.
    pub q_range: nat,
    /// Logic-gate selector.
    pub q_logic: nat,
    /// Fixed-base group-addition selector.
    pub q_fixed_group_add: nat,
    /// Variable-base group-addition selector.
    pub q_variable_group_add: nat,
    /// Left-wire witness index.
    pub a: nat,
    /// Right-wire witness index.
    pub b: nat,
    /// Output-wire witness index.
    pub c: nat,
    /// Fourth-wire witness index.
    pub d: nat,
}

/// The selectors and wires a constraint lowers to: every selector but the public input, and
/// the four wires.
pub open spec fn constraint_gate(c: Constraint) -> GateModel {
    GateModel {
        q_m: c.coeff_value(Selector::Multiplication),
        q_l: c.coeff_value(Selector::Left),
        q_r: c.coeff_value(Selector::Right),
        q_o: c.coeff_value(Selector::Output),
        q_f: c.coeff_value(Selector::Fourth),
        q_c: c.coeff_value(Selector::Constant),
        q_arith: c.coeff_value(Selector::Arithmetic),
        q_range: c.coeff_value(Selector::Range),
        q_logic: c.coeff_value(Selector::Logic),
        q_fixed_group_add: c.coeff_value(Selector::GroupAddFixedBase),
        q_variable_group_add: c.coeff_value(Selector::GroupAddVariableBase),
        a: c.wire_index(WiredWitness::A) as nat,
        b: c.wire_index(WiredWitness::B) as nat,
        c: c.wire_index(WiredWitness::C) as nat,
        d: c.wire_index(WiredWitness::D) as nat,
    }
}

/// Represents a gate with its associated wire data.
#[derive(Debug, Clone, Copy, PartialEq, Eq)]
pub struct Gate {
    q_m: Scalar,
    q_l: Scalar,
    q_r: Scalar,
    q_o: Scalar,
    q_f: Scalar,
    q_c: Scalar,
    q_arith: Scalar,
    q_range: Scalar,
    q_logic: Scalar,
    q_fixed_group_add: Scalar,
    q_variable_group_add: Scalar,
    a: Witness,
    b: Witness,
    c: Witness,
    d: Witness,
}

impl Gate {
    /// The field values and wire indexes of this gate.
    pub closed spec fn model(&self) -> GateModel {
        GateModel {
            q_m: self.q_m@,
            q_l: self.q_l@,
            q_r: self.q_r@,
            q_o: self.q_o@,
            q_f: self.q_f@,
            q_c: self.q_c@,
            q_arith: self.q_arith@,
            q_range: self.q_range@,
            q_logic: self.q_logic@,
            q_fixed_group_add: self.q_fixed_group_add@,
            q_variable_group_add: self.q_variable_group_add@,
            a: self.a.index() as nat,
            b: self.b.index() as nat,
            c: self.c.index() as nat,
            d: self.d.index() as nat,
        }
    }

    /// A constraint's selectors and wires.
    pub fn from_constraint(constraint: &Constraint) -> (r: Gate)
        ensures
            r.model() == constraint_gate(*constraint),
    {
        Gate {
            q_m: *constraint.coeff(Selector::Multiplication),
            q_l: *constraint.coeff(Selector::Left),
            q_r: *constraint.coeff(Selector::Right),
            q_o: *constraint.coeff(Selector::Output),
            q_f: *constraint.coeff(Selector::Fourth),
            q_c: *constraint.coeff(Selector::Constant),
            q_arith: *constraint.coeff(Selector::Arithmetic),
            q_range: *constraint.coeff(Selector::Range),
            q_logic: *constraint.coeff(Selector::Logic),
            q_fixed_group_add: *constraint.coeff(Selector::GroupAddFixedBase),
            q_variable_group_add: *constraint.coeff(Selector::GroupAddVariableBase),
            a: constraint.witness(WiredWitness::A),
            b: constraint.witness(WiredWitness::B),
            c: constraint.witness(WiredWitness::C),
            d: constraint.witness(WiredWitness::D),
        }
    }

    /// Multiplication selector.
    pub fn q_m(&self) -> (r: &Scalar)
        ensures
            r@ == self.model().q_m,
    {
        &self.q_m
    }

    /// Left-wire selector.
    pub fn q_l(&self) -> (r: &Scalar)
        ensures
            r@ == self.model().q_l,
    {
        &self.q_l
    }

    /// Right-wire selector.
    pub fn q_r(&self) -> (r: &Scalar)
        ensures
            r@ == self.model().q_r,
    {
        &self.q_r
    }

    /// Output-wire selector.
    pub fn q_o(&self) -> (r: &Scalar)
        ensures
            r@ == self.model().q_o,
    {
        &self.q_o
    }

    /// Fourth-wire selector.
    pub fn q_f(&self) -> (r: &Scalar)
        ensures
            r@ == self.model().q_f,
    {
        &self.q_f
    }

    /// Constant selector.
    pub fn q_c(&self) -> (r: &Scalar)
        ensures
            r@ == self.model().q_c,
    {
        &self.q_c
    }

    /// Arithmetic-gate selector.
    pub fn q_arith(&self) -> (r: &Scalar)
        ensures
            r@ == self.model().q_arith,
    {
        &self.q_arith
    }

    /// Range-gate selector.
    pub fn q_range(&self) -> (r: &Scalar)
        ensures
            r@ == self.model().q_range,
    {
        &self.q_range
    }

    /// Logic-gate selector.
    pub fn q_logic(&self) -> (r: &Scalar)
        ensures
            r@ == self.model().q_logic,
    {
        &self.q_logic
    }

    /// Fixed-base group-addition selector.
    pub fn q_fixed_group_add(&self) -> (r: &Scalar)
        ensures
            r@ == self.model().q_fixed_group_add,
    {
        &self.q_fixed_group_add
    }

    /// Variable-base group-addition selector.
    pub fn q_variable_group_add(&self) -> (r: &Scalar)
        ensures
            r@ == self.model().q_variable_group_add,
    {
        &self.q_variable_group_add
    }

    /// Left-wire witness.
    pub fn a(&self) -> (r: Witness)
        ensures
            r.index() == self.model().a,
    {
        self.a
    }

    /// Right-wire witness.
    pub fn b(&self) -> (r: Witness)
        ensures
            r.index() == self.model().b,
    {
        self.b
    }

    /// Output-wire witness.
    pub fn c(&self) -> (r: Witness)
        ensures
            r.index() == self.model().c,
    {
        self.c
    }

    /// Fourth-wire witness.
    pub fn d(&self) -> (r: Witness)
        ensures
            r.index() == self.model().d,
    {
        self.d
    }

    /// All four wire witnesses in `(a, b, c, d)` order.
    pub fn wires(&self) -> (r: [Witness; 4])
        ensures
            r@[0].index() == self.model().a,
            r@[1].index() == self.model().b,
            r@[2].index() == self.model().c,
            r@[3].index() == self.model().d,
    {
        [self.a, self.b, self.c, self.d]
    }
}

} // verus!
