//! Four-wire polynomial constraints emitted by the composer.

use vstd::prelude::*;

use crate::scalar::Scalar;
use crate::witness::Witness;

verus! {

/// Selectors used to address a coefficient inside of a [`Constraint`].
#[derive(Debug, Clone, Copy, PartialEq, Eq)]
pub enum Selector {
    /// Multiplication coefficient `q_M`.
    Multiplication,
    /// Left coefficient `q_L`.
    Left,
    /// Right coefficient `q_R`.
    Right,
    /// Output coefficient `q_O`.
    Output,
    /// Fourth advice coefficient `q_F`.
    Fourth,
    /// Constant expression `q_C`.
    Constant,
    /// Public input `PI`.
    PublicInput,
    /// Arithmetic component selector.
    Arithmetic,
    /// Range component selector.
    Range,
    /// Logic component selector.
    Logic,
    /// Fixed-base curve addition selector.
    GroupAddFixedBase,
    /// Variable-base curve addition selector.
    GroupAddVariableBase,
}

impl Selector {
    /// Position of the selector's coefficient.
    pub open spec fn spec_position(self) -> nat {
        match self {
            Selector::Multiplication => 0,
            Selector::Left => 1,
            Selector::Right => 2,
            Selector::Output => 3,
            Selector::Fourth => 4,
            Selector::Constant => 5,
            Selector::PublicInput => 6,
            Selector::Arithmetic => 7,
            Selector::Range => 8,
            Selector::Logic => 9,
            Selector::GroupAddFixedBase => 10,
            Selector::GroupAddVariableBase => 11,
        }
    }

    /// Position of the selector's coefficient.
    pub fn position(self) -> (r: usize)
        ensures
            r == self.spec_position(),
    {
        match self {
            Selector::Multiplication => 0,
            Selector::Left => 1,
            Selector::Right => 2,
            Selector::Output => 3,
            Selector::Fourth => 4,
            Selector::Constant => 5,
            Selector::PublicInput => 6,
            Selector::Arithmetic => 7,
            Selector::Range => 8,
            Selector::Logic => 9,
            Selector::GroupAddFixedBase => 10,
            Selector::GroupAddVariableBase => 11,
        }
    }
}

/// Wire used to address a witness inside of a [`Constraint`].
#[derive(Debug, Clone, Copy, PartialEq, Eq)]
pub enum WiredWitness {
    /// `A` witness.
    A,
    /// `B` witness.
    B,
    /// `C` witness.
    C,
    /// `D` witness.
    D,
}

impl WiredWitness {
    /// Position of the wire.
    pub open spec fn spec_position(self) -> nat {
        match self {
            WiredWitness::A => 0,
            WiredWitness::B => 1,
            WiredWitness::C => 2,
            WiredWitness::D => 3,
        }
    }

    /// Position of the wire.
    pub fn position(self) -> (r: usize)
        ensures
            r == self.spec_position(),
    {
        match self {
            WiredWitness::A => 0,
            WiredWitness::B => 1,
            WiredWitness::C => 2,
            WiredWitness::D => 3,
        }
    }
}

/// Number of coefficients of a constraint.
pub const COEFFICIENTS: usize = 12;

/// Number of wires of a constraint.
pub const WITNESSES: usize = 4;

/// Four-wire polynomial constraint emitted by the composer API.
#[derive(Debug, Clone, Copy, PartialEq, Eq)]
pub struct Constraint {
    coefficients: [Scalar; 12],
    witnesses: [Witness; 4],
    has_public_input: bool,
}

impl Constraint {
    /// The twelve coefficients, indexed by [`Selector::spec_position`].
    pub closed spec fn coeffs(&self) -> Seq<Scalar> {
        self.coefficients@
    }

    /// The four wires in `(a, b, c, d)` order.
    pub closed spec fn wired(&self) -> Seq<Witness> {
        self.witnesses@
    }

    /// Whether a public input was attached, even a zero-valued one.
    pub closed spec fn public_flag(&self) -> bool {
        self.has_public_input
    }

    /// The field value of one coefficient.
    pub open spec fn coeff_value(&self, s: Selector) -> nat {
        self.coeffs()[s.spec_position() as int]@
    }

    /// The witness index on one wire.
    pub open spec fn wire_index(&self, w: WiredWitness) -> usize {
        self.wired()[w.spec_position() as int].index()
    }

    /// Coefficient and wire counts are fixed.
    pub broadcast proof fn lemma_sizes(c: Constraint)
        ensures
            #[trigger] c.coeffs().len() == 12,
            c.wired().len() == 4,
    {
    }

    /// Constraints with the same coefficients, wires and public flag are equal.
    pub proof fn lemma_ext(c: Constraint, d: Constraint)
        requires
            c.coeffs() == d.coeffs(),
            c.wired() == d.wired(),
            c.public_flag() == d.public_flag(),
        ensures
            c == d,
    {
        assert(c.coefficients =~= d.coefficients);
        assert(c.witnesses =~= d.witnesses);
    }

    /// A constraint with every coefficient zero, every wire on the zero
    /// witness, and no public input.
    pub open spec fn is_blank(&self) -> bool {
        &&& forall|i: int| 0 <= i < 12 ==> (#[trigger] self.coeffs()[i])@ == 0
        &&& forall|i: int| 0 <= i < 4 ==> (#[trigger] self.wired()[i]).index() == 0
        &&& !self.public_flag()
    }

    /// Initiate the composition of a new selector description of a circuit.
    pub fn new() -> (r: Constraint)
        ensures
            r.is_blank(),
    {
        let zero = Scalar::zero();
        let w = Witness::zero();
        Constraint {
            coefficients: [zero, zero, zero, zero, zero, zero, zero, zero, zero, zero, zero, zero],
            witnesses: [w, w, w, w],
            has_public_input: false,
        }
    }

    /// Copy the externally settable coefficients (those before
    /// [`Selector::Arithmetic`]), the wires and the public flag of `constraint`.
    fn from_external(constraint: &Constraint) -> (r: Constraint)
        ensures
            forall|i: int| 0 <= i < 7 ==> r.coeffs()[i] == constraint.coeffs()[i],
            forall|i: int| 7 <= i < 12 ==> (#[trigger] r.coeffs()[i])@ == 0,
            r.wired() == constraint.wired(),
            r.public_flag() == constraint.public_flag(),
    {
        let c = &constraint.coefficients;
        let zero = Scalar::zero();
        Constraint {
            coefficients: [c[0], c[1], c[2], c[3], c[4], c[5], c[6], zero, zero, zero, zero, zero],
            witnesses: constraint.witnesses,
            has_public_input: constraint.has_public_input,
        }
    }

    /// `out` is `before` with the coefficient at `position` replaced by `s`.
    pub open spec fn coefficient_set(before: Constraint, out: Constraint, position: int, s: Scalar) -> bool {
        &&& out.coeffs() == before.coeffs().update(position, s)
        &&& out.wired() == before.wired()
        &&& out.public_flag() == before.public_flag()
    }

    /// Replace the value of a polynomial selector.
    pub fn set(self, r: Selector, s: Scalar) -> (out: Constraint)
        ensures
            Constraint::coefficient_set(self, out, r.spec_position() as int, s),
    {
        let mut out = self;
        out.coefficients[r.position()] = s;
        out
    }

    /// Replace the value of an indexed witness.
    pub fn set_witness(&mut self, index: WiredWitness, w: Witness)
        ensures
            final(self).coeffs() == old(self).coeffs(),
            final(self).wired() == old(self).wired().update(index.spec_position() as int, w),
            final(self).public_flag() == old(self).public_flag(),
    {
        self.witnesses[index.position()] = w;
    }

    /// The specified selector of the constraint.
    pub fn coeff(&self, r: Selector) -> (out: &Scalar)
        ensures
            *out == self.coeffs()[r.spec_position() as int],
    {
        &self.coefficients[r.position()]
    }

    /// The witness wired at `w`.
    pub fn witness(&self, w: WiredWitness) -> (out: Witness)
        ensures
            out == self.wired()[w.spec_position() as int],
    {
        self.witnesses[w.position()]
    }

    /// Set `s` as the multiplication coefficient.
    pub fn mult(self, s: Scalar) -> (out: Constraint)
        ensures
            Constraint::coefficient_set(self, out, Selector::Multiplication.spec_position() as int, s),
    {
        self.set(Selector::Multiplication, s)
    }

    /// Set `s` as the left coefficient.
    pub fn left(self, s: Scalar) -> (out: Constraint)
        ensures
            Constraint::coefficient_set(self, out, Selector::Left.spec_position() as int, s),
    {
        self.set(Selector::Left, s)
    }

    /// Set `s` as the right coefficient.
    pub fn right(self, s: Scalar) -> (out: Constraint)
        ensures
            Constraint::coefficient_set(self, out, Selector::Right.spec_position() as int, s),
    {
        self.set(Selector::Right, s)
    }

    /// Set `s` as the output coefficient.
    pub fn output(self, s: Scalar) -> (out: Constraint)
        ensures
            Constraint::coefficient_set(self, out, Selector::Output.spec_position() as int, s),
    {
        self.set(Selector::Output, s)
    }

    /// Set `s` as the fourth (advice) coefficient.
    pub fn fourth(self, s: Scalar) -> (out: Constraint)
        ensures
            Constraint::coefficient_set(self, out, Selector::Fourth.spec_position() as int, s),
    {
        self.set(Selector::Fourth, s)
    }

    /// Set `s` as the constant of the constraint.
    pub fn constant(self, s: Scalar) -> (out: Constraint)
        ensures
            Constraint::coefficient_set(self, out, Selector::Constant.spec_position() as int, s),
    {
        self.set(Selector::Constant, s)
    }

    /// Set `s` as the public input of the constraint evaluation.
    pub fn public(self, s: Scalar) -> (out: Constraint)
        ensures
            out.coeffs() == self.coeffs().update(Selector::PublicInput.spec_position() as int, s),
            out.wired() == self.wired(),
            out.public_flag(),
    {
        let mut out = self;
        out.has_public_input = true;
        out.set(Selector::PublicInput, s)
    }

    /// Set witness `a`, wired to `q_M` and `q_L`.
    pub fn a(self, w: Witness) -> (out: Constraint)
        ensures
            out.coeffs() == self.coeffs(),
            out.wired() == self.wired().update(0, w),
            out.public_flag() == self.public_flag(),
    {
        let mut out = self;
        out.set_witness(WiredWitness::A, w);
        out
    }

    /// Set witness `b`, wired to `q_M` and `q_R`.
    pub fn b(self, w: Witness) -> (out: Constraint)
        ensures
            out.coeffs() == self.coeffs(),
            out.wired() == self.wired().update(1, w),
            out.public_flag() == self.public_flag(),
    {
        let mut out = self;
        out.set_witness(WiredWitness::B, w);
        out
    }

    /// Set witness `c`, wired to `q_O`.
    pub fn c(self, w: Witness) -> (out: Constraint)
        ensures
            out.coeffs() == self.coeffs(),
            out.wired() == self.wired().update(2, w),
            out.public_flag() == self.public_flag(),
    {
        let mut out = self;
        out.set_witness(WiredWitness::C, w);
        out
    }

    /// Set witness `d`, wired to the fourth coefficient `q_F`.
    pub fn d(self, w: Witness) -> (out: Constraint)
        ensures
            out.coeffs() == self.coeffs(),
            out.wired() == self.wired().update(3, w),
            out.public_flag() == self.public_flag(),
    {
        let mut out = self;
        out.set_witness(WiredWitness::D, w);
        out
    }

    /// The four wired witnesses in `(a, b, c, d)` order.
    pub fn wires(&self) -> (r: [Witness; 4])
        ensures
            r@ == self.wired(),
    {
        self.witnesses
    }

    /// The multiplication coefficient `q_M`.
    pub fn q_m(&self) -> (r: &Scalar)
        ensures
            *r == self.coeffs()[0],
    {
        self.coeff(Selector::Multiplication)
    }

    /// The left coefficient `q_L`.
    pub fn q_l(&self) -> (r: &Scalar)
        ensures
            *r == self.coeffs()[1],
    {
        self.coeff(Selector::Left)
    }

    /// The right coefficient `q_R`.
    pub fn q_r(&self) -> (r: &Scalar)
        ensures
            *r == self.coeffs()[2],
    {
        self.coeff(Selector::Right)
    }

    /// The output coefficient `q_O`.
    pub fn q_o(&self) -> (r: &Scalar)
        ensures
            *r == self.coeffs()[3],
    {
        self.coeff(Selector::Output)
    }

    /// The fourth-wire coefficient `q_F`.
    pub fn q_f(&self) -> (r: &Scalar)
        ensures
            *r == self.coeffs()[4],
    {
        self.coeff(Selector::Fourth)
    }

    /// The constant coefficient `q_C`.
    pub fn q_c(&self) -> (r: &Scalar)
        ensures
            *r == self.coeffs()[5],
    {
        self.coeff(Selector::Constant)
    }

    /// The arithmetic-component selector.
    pub fn q_arith(&self) -> (r: &Scalar)
        ensures
            *r == self.coeffs()[7],
    {
        self.coeff(Selector::Arithmetic)
    }

    /// The range-component selector.
    pub fn q_range(&self) -> (r: &Scalar)
        ensures
            *r == self.coeffs()[8],
    {
        self.coeff(Selector::Range)
    }

    /// The logic-component selector.
    pub fn q_logic(&self) -> (r: &Scalar)
        ensures
            *r == self.coeffs()[9],
    {
        self.coeff(Selector::Logic)
    }

    /// The fixed-base group-addition selector.
    pub fn q_fixed_group_add(&self) -> (r: &Scalar)
        ensures
            *r == self.coeffs()[10],
    {
        self.coeff(Selector::GroupAddFixedBase)
    }

    /// The variable-base group-addition selector.
    pub fn q_variable_group_add(&self) -> (r: &Scalar)
        ensures
            *r == self.coeffs()[11],
    {
        self.coeff(Selector::GroupAddVariableBase)
    }

    /// The public input attached to this constraint, if present; `Some` also
    /// for a zero-valued public input.
    pub fn public_input(&self) -> (r: Option<&Scalar>)
        ensures
            self.public_flag() ==> r == Some(&self.coeffs()[6]),
            !self.public_flag() ==> r is None,
    {
        if self.has_public_input {
            Some(self.coeff(Selector::PublicInput))
        } else {
            None
        }
    }

    /// Whether a public input was attached.
    pub fn has_public_input(&self) -> (r: bool)
        ensures
            r == self.public_flag(),
    {
        self.has_public_input
    }

    /// The external part of `s` with one component selector set.
    pub open spec fn with_component(s: Constraint, out: Constraint, position: int, value: nat) -> bool {
        &&& forall|i: int| 0 <= i < 7 ==> out.coeffs()[i] == s.coeffs()[i]
        &&& forall|i: int|
            7 <= i < 12 && i != position ==> (#[trigger] out.coeffs()[i])@ == 0
        &&& out.coeffs()[position]@ == value
        &&& out.wired() == s.wired()
        &&& out.public_flag() == s.public_flag()
    }

    /// The external part of `s` as an arithmetic gate.
    pub fn arithmetic(s: &Constraint) -> (r: Constraint)
        ensures
            Constraint::with_component(*s, r, 7, 1),
    {
        Constraint::from_external(s).set(Selector::Arithmetic, Scalar::one())
    }

    /// The external part of `s` as a range gate.
    pub fn range(s: &Constraint) -> (r: Constraint)
        ensures
            Constraint::with_component(*s, r, 8, 1),
    {
        Constraint::from_external(s).set(Selector::Range, Scalar::one())
    }

    /// The external part of `s` as an AND gate: constant and logic selectors 1.
    pub fn logic(s: &Constraint) -> (r: Constraint)
        ensures
            forall|i: int| 0 <= i < 5 || i == 6 ==> r.coeffs()[i] == s.coeffs()[i],
            forall|i: int| 7 <= i < 12 && i != 9 ==> (#[trigger] r.coeffs()[i])@ == 0,
            r.coeffs()[5]@ == 1,
            r.coeffs()[9]@ == 1,
            r.wired() == s.wired(),
            r.public_flag() == s.public_flag(),
    {
        Constraint::from_external(s).set(Selector::Constant, Scalar::one()).set(
            Selector::Logic,
            Scalar::one(),
        )
    }

    /// The external part of `s` as an XOR gate: constant and logic selectors -1.
    pub fn logic_xor(s: &Constraint) -> (r: Constraint)
        ensures
            forall|i: int| 0 <= i < 5 || i == 6 ==> r.coeffs()[i] == s.coeffs()[i],
            forall|i: int| 7 <= i < 12 && i != 9 ==> (#[trigger] r.coeffs()[i])@ == 0,
            r.coeffs()[5]@ == crate::scalar::fneg(1),
            r.coeffs()[9]@ == crate::scalar::fneg(1),
            r.wired() == s.wired(),
            r.public_flag() == s.public_flag(),
    {
        let minus_one = Scalar::one().neg();
        Constraint::from_external(s).set(Selector::Constant, minus_one).set(
            Selector::Logic,
            minus_one,
        )
    }

    /// The external part of `s` as a fixed-base curve-addition gate.
    pub fn group_add_fixed_base(s: &Constraint) -> (r: Constraint)
        ensures
            Constraint::with_component(*s, r, 10, 1),
    {
        Constraint::from_external(s).set(Selector::GroupAddFixedBase, Scalar::one())
    }

    /// The external part of `s` as a variable-base curve-addition gate.
    pub fn group_add_variable_base(s: &Constraint) -> (r: Constraint)
        ensures
            Constraint::with_component(*s, r, 11, 1),
    {
        Constraint::from_external(s).set(Selector::GroupAddVariableBase, Scalar::one())
    }
}

impl Default for Constraint {
    fn default() -> (r: Constraint)
        ensures
            r.is_blank(),
    {
        Constraint::new()
    }
}

} // verus!
