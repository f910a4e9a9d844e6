//! The proof-system-neutral circuit builder and its backend interface.
//!
//! A [`Composer`] allocates witness values and emits four-wire constraints in
//! circuit order; a [`ComposerBackend`] receives every emitted constraint and
//! decides how to represent it.

use vstd::prelude::*;

use crate::constraint::{Constraint, Selector, WiredWitness};
use crate::error::Error;
use crate::field::{lemma_fadd_residue, lemma_fmul_residue, lemma_residue_canonical, residue};
use crate::gate::constraint_gate;
use crate::identities::{arithmetic_identity, WireValues};
use crate::scalar::{fadd, fmul, fneg, lemma_field_solution, lemma_scalar_canonical, Scalar};
use crate::witness::Witness;

verus! {

broadcast use {
    lemma_scalar_canonical,
    Constraint::lemma_sizes,
    crate::scalar::lemma_fadd_canonical,
    crate::scalar::lemma_fsub_canonical,
    crate::scalar::lemma_fmul_canonical,
};

/// Constraint-system implementation used by a generic [`Composer`].
///
/// Backends receive the low-level constraints emitted by the portable
/// Composer API and decide how to represent them.
pub trait ComposerBackend: Sized {
    /// The constraints received so far, in emission order.
    spec fn emitted(&self) -> Seq<Constraint>;

    /// Create an empty backend constraint system.
    fn new() -> (r: Self)
        ensures
            r.emitted().len() == 0,
    ;

    /// Number of constraints in the backend's own representation.
    fn constraints(&self) -> (r: usize);

    /// Append one low-level Composer constraint in circuit emission order.
    fn append_constraint(&mut self, constraint: &Constraint)
        ensures
            final(self).emitted() == old(self).emitted().push(*constraint),
    ;

    /// What the initialization hook does, from the Composer it is handed to
    /// the Composer it leaves.
    spec fn initialization(before: Composer<Self>, after: Composer<Self>) -> bool;

    /// Append backend-specific initialization constraints.
    ///
    /// The Composer allocates and constrains its canonical zero and one
    /// witnesses before invoking this hook; the hook only appends. A backend
    /// that needs nothing leaves the body empty.
    fn initialize(composer: &mut Composer<Self>)
        ensures
            old(composer).assignment().is_prefix_of(final(composer).assignment()),
            old(composer).backend_state().emitted().is_prefix_of(
                final(composer).backend_state().emitted(),
            ),
            old(composer).public_values().is_prefix_of(final(composer).public_values()),
            Self::initialization(*old(composer), *final(composer)),
    ;
}

/// Circuit definition that can be built by any [`ComposerBackend`].
///
/// Compilers use [`Default`] to construct the circuit shape independently of
/// a particular witness assignment.
pub trait Circuit: Default {
    /// Build the circuit with the selected backend.
    fn circuit<B: ComposerBackend>(&self, composer: &mut Composer<B>) -> (r: Result<(), Error>)
        ensures
            old(composer).assignment().is_prefix_of(final(composer).assignment()),
            old(composer).backend_state().emitted().is_prefix_of(
                final(composer).backend_state().emitted(),
            ),
    ;

    /// Returns the number of constraints emitted for backend `B`, or zero when
    /// the circuit cannot be built.
    fn size<B: ComposerBackend>(&self) -> (r: usize)
        default_ensures
            r == 0 || exists|composer: Composer<B>|
                Composer::<B>::canonical(composer, 0) && call_ensures(
                    B::constraints,
                    (&composer.backend_state(),),
                    r,
                ),
    {
        let mut composer = Composer::<B>::initialized();
        let ghost start = composer;
        match self.circuit(&mut composer) {
            Ok(_) => {
                proof {
                    assert(composer.emitted()[0] == start.emitted()[0]);
                    assert(composer.emitted()[1] == start.emitted()[1]);
                    assert(composer.assignment()[0] == start.assignment()[0]);
                    assert(composer.assignment()[1] == start.assignment()[1]);
                }
                let r = composer.constraints();
                proof {
                    assert(Composer::<B>::canonical(composer, 0));
                }
                r
            },
            Err(_) => 0,
        }
    }
}

/// Construct a circuit using backend `B`.
#[derive(Debug, Clone)]
pub struct Composer<B> {
    backend: B,
    /// Public inputs in circuit emission order.
    public_inputs: Vec<Scalar>,
    /// Witness values.
    witnesses: Vec<Scalar>,
}

/// `-1` in the field.
pub open spec fn minus_one() -> nat {
    fneg(1)
}

/// `out` is the arithmetic gate of `s` with its wires replaced by `wires`:
/// the externally settable coefficients and public flag of `s`, arithmetic
/// selector one, and every other component selector zero.
pub open spec fn arithmetic_rewired(s: Constraint, out: Constraint, wires: Seq<Witness>) -> bool {
    &&& forall|i: int| 0 <= i < 7 ==> out.coeffs()[i] == s.coeffs()[i]
    &&& out.coeffs()[7]@ == 1
    &&& forall|i: int| 8 <= i < 12 ==> (#[trigger] out.coeffs()[i])@ == 0
    &&& out.wired() == wires
    &&& out.public_flag() == s.public_flag()
}

/// The arithmetic gate that [`Composer::append_gate`] emits for `s`.
pub open spec fn arithmetic_of(s: Constraint, out: Constraint) -> bool {
    arithmetic_rewired(s, out, s.wired())
}

/// `q_M·a·b + q_L·a + q_R·b + q_F·d + q_C + PI`: every term of the arithmetic
/// polynomial of `s` but the output wire, under wire values `a`, `b`, `d`.
pub open spec fn partial_sum(s: Constraint, a: nat, b: nat, d: nat) -> nat {
    fadd(
        fadd(
            fadd(
                fadd(
                    fadd(fmul(fmul(s.coeff_value(Selector::Multiplication), a), b),
                        fmul(s.coeff_value(Selector::Left), a)),
                    fmul(s.coeff_value(Selector::Right), b),
                ),
                fmul(s.coeff_value(Selector::Fourth), d),
            ),
            s.coeff_value(Selector::Constant),
        ),
        s.coeff_value(Selector::PublicInput),
    )
}

/// An equality row reads `a` and `b` and its arithmetic identity vanishes
/// exactly when they are equal: [`Composer::assert_equal`] constrains its two
/// witnesses to one value, whatever the other wires hold.
#[verifier::spinoff_prover]
pub proof fn lemma_equality_row_holds(c: Constraint, a: Witness, b: Witness, va: nat, vb: nat, vc: nat, vd: nat)
    requires
        Composer::<crate::plonkish::Plonkish>::equality_gate(c, a, b),
        va < crate::scalar::modulus(),
        vb < crate::scalar::modulus(),
    ensures
        arithmetic_identity(constraint_gate(c), WireValues { a: va, b: vb, c: vc, d: vd }, 0) == 0
            <==> va == vb,
{
    let (ai, bi, ci, di) = (va as int, vb as int, vc as int, vd as int);
    lemma_residue_canonical(va);
    lemma_residue_canonical(vb);
    lemma_residue_canonical(0);
    lemma_residue_canonical(1);
    assert(minus_one() == residue(-1)) by {
        reveal(crate::scalar::fsub);
    }
    crate::field::lemma_residue_bound(vc as int);
    crate::field::lemma_residue_bound(vd as int);
    lemma_fmul_residue(0, ai);
    lemma_fmul_residue(0 * ai, bi);
    lemma_fmul_residue(1, ai);
    lemma_fadd_residue(0 * ai * bi, 1 * ai);
    lemma_fmul_residue(-1, bi);
    lemma_fadd_residue(0 * ai * bi + 1 * ai, -1 * bi);
    reveal(fmul);
    reveal(fadd);
    assert(fmul(0, vc) == 0 && fmul(0, vd) == 0);
    lemma_fadd_residue(0 * ai * bi + 1 * ai + -1 * bi, 0);
    lemma_fmul_residue(0 * ai * bi + 1 * ai + -1 * bi, 1);
    assert(arithmetic_identity(constraint_gate(c), WireValues { a: va, b: vb, c: vc, d: vd }, 0)
        == residue(ai - bi));
    crate::field::lemma_residue_difference(ai, bi);
}

/// A constant row reads its witness `a` and its arithmetic identity, with
/// the row's public input, vanishes exactly when `a` holds the constant plus
/// that public input: [`Composer::append_constant`] and
/// [`Composer::append_public`] pin their witness to that value.
#[verifier::spinoff_prover]
pub proof fn lemma_constant_row_holds(
    c: Constraint,
    w: Witness,
    constant: nat,
    public: Option<Scalar>,
    va: nat,
    vb: nat,
    vc: nat,
    vd: nat,
)
    requires
        Composer::<crate::plonkish::Plonkish>::constant_gate(c, w, constant, public),
        va < crate::scalar::modulus(),
        constant < crate::scalar::modulus(),
    ensures
        ({
            let pi: nat = match public {
                Some(p) => p@,
                None => 0,
            };
            arithmetic_identity(constraint_gate(c), WireValues { a: va, b: vb, c: vc, d: vd }, pi) == 0
                <==> va == fadd(constant, pi)
        }),
{
    let pi: nat = match public {
        Some(p) => p@,
        None => 0,
    };
    match public {
        Some(p) => lemma_scalar_canonical(p),
        None => {},
    }
    let (ai, ki, pii) = (va as int, constant as int, pi as int);
    lemma_residue_canonical(va);
    lemma_residue_canonical(constant);
    lemma_residue_canonical(pi);
    lemma_residue_canonical(0);
    lemma_residue_canonical(1);
    assert(minus_one() == residue(-1)) by {
        reveal(crate::scalar::fsub);
    }
    lemma_fmul_residue(-1, ai);
    reveal(fmul);
    reveal(fadd);
    vstd::arithmetic::div_mod::lemma_small_mod(0, crate::scalar::modulus());
    assert(0 * va == 0 && 0 * vb == 0 && 0 * vc == 0 && 0 * vd == 0);
    assert(fmul(fmul(0, va), vb) == 0 && fmul(0, vb) == 0 && fmul(0, vc) == 0 && fmul(0, vd) == 0);
    lemma_fadd_residue(0, -1 * ai);
    lemma_fadd_residue(-1 * ai, 0);
    lemma_fadd_residue(-1 * ai, ki);
    lemma_fmul_residue(-1 * ai + ki, 1);
    lemma_fadd_residue(-1 * ai + ki, pii);
    lemma_fadd_residue(ki, pii);
    assert(arithmetic_identity(constraint_gate(c), WireValues { a: va, b: vb, c: vc, d: vd }, pi)
        == residue((ki + pii) - ai));
    crate::field::lemma_residue_difference(ki + pii, ai);
}

/// The row that [`Composer::gate_add`] and [`Composer::gate_mul`] append for
/// `s` with output witness `out`: the arithmetic gate of `s` whose output wire
/// is `out`, weighted by `q_O = -1`.
pub open spec fn output_row(s: Constraint, out: Witness, row: Constraint) -> bool {
    &&& forall|i: int| 0 <= i < 7 && i != 3 ==> row.coeffs()[i] == s.coeffs()[i]
    &&& row.coeff_value(Selector::Output) == minus_one()
    &&& row.coeffs()[7]@ == 1
    &&& forall|i: int| 8 <= i < 12 ==> (#[trigger] row.coeffs()[i])@ == 0
    &&& row.wired() == s.wired().update(2, out)
    &&& row.public_flag() == s.public_flag()
}

/// The arithmetic identity of such a row, with its public-input coefficient,
/// vanishes exactly when the output wire holds
/// `q_M·a·b + q_L·a + q_R·b + q_F·d + q_C + PI` of the other wires: the row
/// constrains the output to that sum and nothing else.
#[verifier::spinoff_prover]
pub proof fn lemma_output_row_solves(s: Constraint, out: Witness, row: Constraint, a: nat, b: nat, y: nat, d: nat)
    requires
        output_row(s, out, row),
        a < crate::scalar::modulus(),
        b < crate::scalar::modulus(),
        y < crate::scalar::modulus(),
        d < crate::scalar::modulus(),
    ensures
        arithmetic_identity(
            constraint_gate(row),
            WireValues { a, b, c: y, d },
            row.coeff_value(Selector::PublicInput),
        ) == 0 <==> y == partial_sum(s, a, b, d),
{
    let g = constraint_gate(row);
    let q = |i: int| s.coeffs()[i]@ as int;
    assert forall|i: int| 0 <= i < 12 implies #[trigger] row.coeffs()[i]@ < crate::scalar::modulus() by {
        lemma_scalar_canonical(row.coeffs()[i]);
    }
    assert forall|i: int| 0 <= i < 12 implies #[trigger] s.coeffs()[i]@ < crate::scalar::modulus() by {
        lemma_scalar_canonical(s.coeffs()[i]);
    }
    Constraint::lemma_sizes(s);
    Constraint::lemma_sizes(row);
    assert(row.coeffs()[0] == s.coeffs()[0] && row.coeffs()[1] == s.coeffs()[1]);
    assert(row.coeffs()[2] == s.coeffs()[2] && row.coeffs()[4] == s.coeffs()[4]);
    assert(row.coeffs()[5] == s.coeffs()[5] && row.coeffs()[6] == s.coeffs()[6]);
    let (qm, ql, qr, qf, qc, pi) = (q(0), q(1), q(2), q(4), q(5), q(6));
    let (ai, bi, yi, di) = (a as int, b as int, y as int, d as int);
    let p = crate::scalar::modulus() as int;
    lemma_residue_canonical(a);
    lemma_residue_canonical(b);
    lemma_residue_canonical(y);
    lemma_residue_canonical(d);
    lemma_residue_canonical(qm as nat);
    lemma_residue_canonical(ql as nat);
    lemma_residue_canonical(qr as nat);
    lemma_residue_canonical(qf as nat);
    lemma_residue_canonical(qc as nat);
    lemma_residue_canonical(pi as nat);
    lemma_residue_canonical(1);
    assert(minus_one() == residue(-1)) by {
        reveal(crate::scalar::fsub);
    }
    // the row's identity
    lemma_fmul_residue(qm, ai);
    lemma_fmul_residue(qm * ai, bi);
    lemma_fmul_residue(ql, ai);
    lemma_fadd_residue(qm * ai * bi, ql * ai);
    lemma_fmul_residue(qr, bi);
    lemma_fadd_residue(qm * ai * bi + ql * ai, qr * bi);
    lemma_fmul_residue(-1, yi);
    lemma_fadd_residue(qm * ai * bi + ql * ai + qr * bi, -1 * yi);
    lemma_fmul_residue(qf, di);
    lemma_fadd_residue(qm * ai * bi + ql * ai + qr * bi + -1 * yi, qf * di);
    lemma_fadd_residue(qm * ai * bi + ql * ai + qr * bi + -1 * yi + qf * di, qc);
    let inner = qm * ai * bi + ql * ai + qr * bi + -1 * yi + qf * di + qc;
    lemma_fmul_residue(inner, 1);
    lemma_fadd_residue(inner * 1, pi);
    // the partial sum
    lemma_fadd_residue(qm * ai * bi + ql * ai + qr * bi, qf * di);
    lemma_fadd_residue(qm * ai * bi + ql * ai + qr * bi + qf * di, qc);
    lemma_fadd_residue(qm * ai * bi + ql * ai + qr * bi + qf * di + qc, pi);
    let total = qm * ai * bi + ql * ai + qr * bi + qf * di + qc + pi;
    assert(inner * 1 + pi == total - yi);
    assert(arithmetic_identity(g, WireValues { a, b, c: y, d }, row.coeff_value(Selector::PublicInput))
        == residue(total - yi));
    assert(partial_sum(s, a, b, d) == residue(total));
    crate::field::lemma_residue_difference(total, yi);
}

impl<B> Composer<B> {
    /// The backend value.
    pub closed spec fn backend_state(&self) -> B {
        self.backend
    }

    /// Witness values in allocation order.
    pub closed spec fn assignment(&self) -> Seq<Scalar> {
        self.witnesses@
    }

    /// Public-input values in emission order.
    pub closed spec fn public_values(&self) -> Seq<Scalar> {
        self.public_inputs@
    }

    /// The field value assigned to witness `w`.
    pub open spec fn value(&self, w: Witness) -> nat {
        self.assignment()[w.index() as int]@
    }

    /// Whether `w` refers to an allocated witness.
    pub open spec fn allocated(&self, w: Witness) -> bool {
        w.index() < self.assignment().len()
    }

    /// Allocate a witness value, touching nothing else.
    pub(crate) fn push_witness(&mut self, witness: Scalar) -> (r: Witness)
        ensures
            r.index() == old(self).assignment().len(),
            final(self).assignment() == old(self).assignment().push(witness),
            final(self).backend_state() == old(self).backend_state(),
            final(self).public_values() == old(self).public_values(),
    {
        let n = self.witnesses.len();
        self.witnesses.push(witness);
        Witness::new(n)
    }

    /// Record a public-input value, touching nothing else.
    pub(crate) fn push_public(&mut self, public: Scalar)
        ensures
            final(self).assignment() == old(self).assignment(),
            final(self).backend_state() == old(self).backend_state(),
            final(self).public_values() == old(self).public_values().push(public),
    {
        self.public_inputs.push(public);
    }

    /// Mutable access to the witness values, touching nothing else.
    pub(crate) fn assignment_mut(&mut self) -> (r: &mut Vec<Scalar>)
        ensures
            r@ == old(self).assignment(),
            final(self).assignment() == final(r)@,
            final(self).backend_state() == old(self).backend_state(),
            final(self).public_values() == old(self).public_values(),
    {
        &mut self.witnesses
    }

    /// Mutable access to the backend, touching nothing else.
    pub(crate) fn backend_mut(&mut self) -> (r: &mut B)
        ensures
            *r == old(self).backend_state(),
            final(self).backend_state() == *final(r),
            final(self).assignment() == old(self).assignment(),
            final(self).public_values() == old(self).public_values(),
    {
        &mut self.backend
    }

}

impl<B: ComposerBackend> Composer<B> {
    /// The constraints the backend received.
    pub open spec fn emitted(&self) -> Seq<Constraint> {
        self.backend_state().emitted()
    }

    /// From `before` to `after` the backend received one more constraint `c`,
    /// and its public input, when it carries one, was recorded.
    pub open spec fn records(before: Self, after: Self, c: Constraint) -> bool {
        &&& after.emitted() == before.emitted().push(c)
        &&& after.public_values() == if c.public_flag() {
            before.public_values().push(c.coeffs()[6])
        } else {
            before.public_values()
        }
    }

    /// `after` is `before` with one more constraint `c` emitted and the
    /// assignment unchanged.
    pub open spec fn emits(before: Self, after: Self, c: Constraint) -> bool {
        &&& Self::records(before, after, c)
        &&& after.assignment() == before.assignment()
    }

    /// `self` is `before` after the arithmetic gate of `s` was emitted.
    pub open spec fn emits_gate(before: Self, after: Self, s: Constraint) -> bool {
        exists|c: Constraint| arithmetic_of(s, c) && #[trigger] Self::emits(before, after, c)
    }

    /// Constraints count, as the backend reports it.
    pub fn constraints(&self) -> (r: usize)
        ensures
            call_ensures(B::constraints, (&self.backend_state(),), r),
    {
        self.backend.constraints()
    }

    /// Number of allocated witnesses.
    pub fn witness_count(&self) -> (r: usize)
        ensures
            r == self.assignment().len(),
    {
        self.witnesses.len()
    }

    /// Return all allocated witness values in allocation order.
    pub fn witnesses(&self) -> (r: &[Scalar])
        ensures
            r@ == self.assignment(),
    {
        self.witnesses.as_slice()
    }

    /// The value assigned to an allocated witness.
    pub fn witness_value(&self, w: Witness) -> (r: Scalar)
        requires
            self.allocated(w),
        ensures
            r == self.assignment()[w.index() as int],
    {
        self.witnesses[w.index()]
    }

    /// Return the selected backend representation.
    pub fn backend(&self) -> (r: &B)
        ensures
            *r == self.backend_state(),
    {
        &self.backend
    }

    /// Consume the Composer and return its backend representation.
    pub fn into_backend(self) -> (r: B)
        ensures
            r == self.backend_state(),
    {
        self.backend
    }

    /// Public-input values in circuit emission order.
    pub fn public_inputs(&self) -> (r: Vec<Scalar>)
        ensures
            r@ == self.public_values(),
    {
        self.public_inputs.clone()
    }

    fn uninitialized_with_backend(backend: B) -> (r: Self)
        ensures
            r.backend_state() == backend,
            r.assignment().len() == 0,
            r.public_values().len() == 0,
    {
        Composer { backend, public_inputs: Vec::new(), witnesses: Vec::new() }
    }

    /// Initialize the constraint system with the canonical constants and any
    /// backend-specific compatibility constraints.
    pub fn initialized() -> (r: Self)
        ensures
            Self::canonical(r, 0),
            exists|start: Self| Self::started(Seq::empty(), start) && #[trigger] B::initialization(start, r),
    {
        let backend = B::new();
        assert(backend.emitted() =~= Seq::<Constraint>::empty());
        let r = Self::with_backend(backend);
        proof {
            let start = choose|start: Self|
                Self::started(backend.emitted(), start) && #[trigger] B::initialization(start, r);
            assert(B::initialization(start, r));
        }
        r
    }

    /// `r` starts, after `n` constraints of the backend it was given, with the
    /// canonical zero and one: witness 0 holds zero and witness 1 holds one,
    /// each pinned by an arithmetic gate `-w + constant = 0`.
    pub open spec fn canonical(r: Self, n: nat) -> bool {
        &&& r.assignment().len() >= 2
        &&& r.assignment()[0]@ == 0
        &&& r.assignment()[1]@ == 1
        &&& r.emitted().len() >= n + 2
        &&& r.emitted()[n as int].wired()[0].index() == 0
        &&& r.emitted()[n as int].coeff_value(Selector::Left) == minus_one()
        &&& r.emitted()[n as int].coeff_value(Selector::Constant) == 0
        &&& r.emitted()[n + 1int].wired()[0].index() == 1
        &&& r.emitted()[n + 1int].coeff_value(Selector::Left) == minus_one()
        &&& r.emitted()[n + 1int].coeff_value(Selector::Constant) == 1
    }

    /// `start` is a Composer over a backend that had received `prefix`, after
    /// the canonical start and before the backend's hook: exactly the
    /// witnesses zero and one, no public value, and the two gates
    /// `-w0 + 0 = 0` and `-w1 + 1 = 0` after `prefix`.
    pub open spec fn started(prefix: Seq<Constraint>, start: Self) -> bool {
        let n = prefix.len();
        &&& start.assignment().len() == 2
        &&& start.assignment()[0]@ == 0
        &&& start.assignment()[1]@ == 1
        &&& start.public_values().len() == 0
        &&& start.emitted().len() == n + 2
        &&& start.emitted().subrange(0, n as int) == prefix
        &&& start.emitted()[n as int].wired()[0].index() == 0
        &&& Self::constant_gate(start.emitted()[n as int], start.emitted()[n as int].wired()[0], 0, None)
        &&& start.emitted()[n + 1int].wired()[0].index() == 1
        &&& Self::constant_gate(start.emitted()[n + 1int], start.emitted()[n + 1int].wired()[0], 1, None)
    }

    /// Initialize the constraint system from an existing backend value.
    pub fn with_backend(backend: B) -> (r: Self)
        ensures
            Self::canonical(r, backend.emitted().len()),
            r.emitted().subrange(0, backend.emitted().len() as int) == backend.emitted(),
            exists|start: Self|
                Self::started(backend.emitted(), start) && #[trigger] B::initialization(start, r),
    {
        let ghost n = backend.emitted().len();
        let mut slf = Self::uninitialized_with_backend(backend);
        let zero = slf.append_witness(Scalar::zero());
        let one = slf.append_witness(Scalar::one());
        slf.assert_equal_constant(zero, Scalar::zero(), None);
        slf.assert_equal_constant(one, Scalar::one(), None);
        let ghost mid = slf;
        assert(Self::canonical(mid, n)) by {
            let c0 = mid.emitted()[n as int];
            let c1 = mid.emitted()[n + 1int];
        }
        assert(Self::started(backend.emitted(), mid)) by {
            assert(mid.emitted().subrange(0, n as int) =~= backend.emitted());
        }
        B::initialize(&mut slf);
        assert(mid.emitted().is_prefix_of(slf.emitted()));
        assert(mid.assignment().is_prefix_of(slf.assignment()));
        assert(slf.emitted()[n as int] == mid.emitted()[n as int]);
        assert(slf.emitted()[n + 1int] == mid.emitted()[n + 1int]);
        assert(slf.emitted().subrange(0, n as int) =~= backend.emitted()) by {
            assert forall|i: int| 0 <= i < n implies slf.emitted()[i] == backend.emitted()[i] by {
                assert(slf.emitted()[i] == mid.emitted()[i]);
            }
        }
        slf
    }

    /// Allocate a witness value into the composer and return its index.
    pub fn append_witness(&mut self, witness: Scalar) -> (r: Witness)
        ensures
            r.index() == old(self).assignment().len(),
            final(self).assignment() == old(self).assignment().push(witness),
            final(self).backend_state() == old(self).backend_state(),
            final(self).public_values() == old(self).public_values(),
    {
        self.push_witness(witness)
    }

    /// Append a raw component constraint.
    pub(crate) fn append_custom_gate(&mut self, constraint: Constraint)
        ensures
            Self::emits(*old(self), *final(self), constraint),
    {
        if constraint.has_public_input() {
            self.public_inputs.push(*constraint.coeff(Selector::PublicInput));
        }
        self.backend.append_constraint(&constraint);
    }

    /// Append a new width-4 gate/constraint.
    ///
    /// The constraint added will enforce the following:
    /// `q_M · a · b  + q_L · a + q_R · b + q_O · o + q_F · d + q_C + PI = 0`.
    pub fn append_gate(&mut self, constraint: Constraint)
        ensures
            Self::emits_gate(*old(self), *final(self), constraint),
    {
        let c = Constraint::arithmetic(&constraint);
        self.append_custom_gate(c);
        assert(Self::emits(*old(self), *self, c));
    }

    /// Evaluate an arithmetic constraint, allocate its output, and append the
    /// gate that constrains that output to the inputs.
    ///
    /// For an invertible output selector `q_O`, this solves
    /// `q_M·a·b + q_L·a + q_R·b + q_O·c + q_F·d + q_C + PI = 0` for `c`,
    /// appends `c` as a witness, wires it into the constraint, and appends
    /// exactly one arithmetic gate. If `q_O` is zero, no output can be solved
    /// for: this returns `None` but still appends its arithmetic row on its inputs.
    pub fn append_evaluated_output(&mut self, s: Constraint) -> (r: Option<Witness>)
        requires
            old(self).allocated(s.wired()[0]),
            old(self).allocated(s.wired()[1]),
            old(self).allocated(s.wired()[3]),
        ensures
            r is None <==> s.coeff_value(Selector::Output) == 0,
            r is None ==> Self::emits_gate(*old(self), *final(self), s),
            r matches Some(w) ==> {
                &&& w.index() == old(self).assignment().len()
                &&& final(self).assignment().len() == w.index() + 1
                &&& final(self).assignment().drop_last() == old(self).assignment()
                &&& fadd(
                    partial_sum(
                        s,
                        old(self).value(s.wired()[0]),
                        old(self).value(s.wired()[1]),
                        old(self).value(s.wired()[3]),
                    ),
                    fmul(s.coeff_value(Selector::Output), final(self).value(w)),
                ) == 0
                &&& exists|c: Constraint|
                    arithmetic_rewired(s, c, s.wired().update(2, w)) && #[trigger] Self::records(
                        *old(self),
                        *final(self),
                        c,
                    )
            },
    {
        let a = self.witnesses[s.witness(WiredWitness::A).index()];
        let b = self.witnesses[s.witness(WiredWitness::B).index()];
        let d = self.witnesses[s.witness(WiredWitness::D).index()];
        let qm = s.coeff(Selector::Multiplication);
        let ql = s.coeff(Selector::Left);
        let qr = s.coeff(Selector::Right);
        let qf = s.coeff(Selector::Fourth);
        let qc = s.coeff(Selector::Constant);
        let pi = s.coeff(Selector::PublicInput);
        let x = qm.mul(&a).mul(&b).add(&ql.mul(&a)).add(&qr.mul(&b)).add(&qf.mul(&d)).add(qc).add(
            pi,
        );
        let y = s.coeff(Selector::Output);
        assert(fneg(1) != 0) by {
            reveal(crate::scalar::fsub);
        }
        let one = Scalar::one();
        let minus_one = one.neg();
        let ghost mut inv: nat = 0;
        let c = if y.equals(&one) {
            Some(x.neg())
        } else if y.equals(&minus_one) {
            Some(x)
        } else {
            match y.invert() {
                Some(inverse) => {
                    proof {
                        inv = inverse@;
                    }
                    Some(x.mul(&inverse.neg()))
                },
                None => None,
            }
        };
        proof {
            lemma_field_solution(x@, y@, inv);
        }
        match c {
            Some(value) => {
                let output = self.append_witness(value);
                let ghost mid = *self;
                let wired = s.c(output);
                self.append_gate(wired);
                proof {
                    let g = choose|g: Constraint| arithmetic_of(wired, g) && #[trigger] Self::emits(mid, *self, g);
                    assert(arithmetic_rewired(s, g, s.wired().update(2, output)));
                    assert(mid.emitted() == old(self).emitted());
                    assert(Self::records(*old(self), *self, g));
                    assert(self.assignment()[output.index() as int] == value);
                    assert(self.value(output) == value@);
                    assert(fadd(x@, fmul(y@, value@)) == 0);
                    assert(x@ == partial_sum(
                        s,
                        old(self).value(s.wired()[0]),
                        old(self).value(s.wired()[1]),
                        old(self).value(s.wired()[3]),
                    ));
                }
                Some(output)
            },
            None => {
                self.append_gate(s);
                None
            },
        }
    }

    /// Constrain a scalar into the circuit description and return an allocated
    /// [`Witness`] with its value.
    pub fn append_constant(&mut self, constant: Scalar) -> (r: Witness)
        ensures
            r.index() == old(self).assignment().len(),
            final(self).assignment() == old(self).assignment().push(constant),
            exists|c: Constraint|
                #[trigger] Self::constant_gate(c, r, constant@, None)
                    && final(self).emitted() == old(self).emitted().push(c),
            final(self).public_values() == old(self).public_values(),
    {
        let witness = self.append_witness(constant);
        self.assert_equal_constant(witness, constant, None);
        witness
    }

    /// `c` is the arithmetic gate `-a + constant + PI = 0`, carrying `public`
    /// as its public input when present.
    pub open spec fn constant_gate(c: Constraint, a: Witness, constant: nat, public: Option<Scalar>) -> bool {
        &&& c.wired()[0] == a
        &&& c.wired()[1].index() == 0
        &&& c.wired()[2].index() == 0
        &&& c.wired()[3].index() == 0
        &&& c.coeff_value(Selector::Left) == minus_one()
        &&& c.coeff_value(Selector::Constant) == constant
        &&& c.coeff_value(Selector::Arithmetic) == 1
        &&& c.coeff_value(Selector::Multiplication) == 0
        &&& c.coeff_value(Selector::Right) == 0
        &&& c.coeff_value(Selector::Output) == 0
        &&& c.coeff_value(Selector::Fourth) == 0
        &&& c.coeff_value(Selector::Range) == 0
        &&& c.coeff_value(Selector::Logic) == 0
        &&& c.coeff_value(Selector::GroupAddFixedBase) == 0
        &&& c.coeff_value(Selector::GroupAddVariableBase) == 0
        &&& match public {
            Some(p) => c.public_flag() && c.coeffs()[6] == p,
            None => !c.public_flag() && c.coeff_value(Selector::PublicInput) == 0,
        }
    }

    /// Allocate a witness holding `public` and constrain it to the row's
    /// public input: `-w + PI = 0`.
    pub fn append_public(&mut self, public: Scalar) -> (r: Witness)
        ensures
            r.index() == old(self).assignment().len(),
            final(self).assignment() == old(self).assignment().push(public),
            exists|c: Constraint|
                #[trigger] Self::constant_gate(c, r, 0, Some(public))
                    && final(self).emitted() == old(self).emitted().push(c),
            final(self).public_values() == old(self).public_values().push(public),
    {
        let witness = self.append_witness(public);
        let constraint = Constraint::new().left(Scalar::one().neg()).a(witness).public(public);
        let ghost mid = *self;
        self.append_gate(constraint);
        proof {
            let c = choose|c: Constraint| arithmetic_of(constraint, c) && #[trigger] Self::emits(mid, *self, c);
            assert(Self::constant_gate(c, witness, 0, Some(public)));
        }
        witness
    }

    /// Asserts `a == b` by appending a row `a - b = 0`.
    #[verifier::spinoff_prover]
    pub fn assert_equal(&mut self, a: Witness, b: Witness)
        ensures
            final(self).assignment() == old(self).assignment(),
            final(self).public_values() == old(self).public_values(),
            exists|c: Constraint|
                #[trigger] Self::equality_gate(c, a, b)
                    && final(self).emitted() == old(self).emitted().push(c),
    {
        let constraint = Constraint::new().left(Scalar::one()).right(Scalar::one().neg()).a(a).b(b);
        let ghost before = *self;
        self.append_gate(constraint);
        proof {
            let c = choose|c: Constraint| arithmetic_of(constraint, c) && #[trigger] Self::emits(before, *self, c);
            assert(constraint.coeffs()[0]@ == 0);
            assert(constraint.coeffs()[3]@ == 0);
            assert(constraint.wired()[2].index() == 0);
            assert(c.wired()[0] == a);
            assert(c.coeff_value(Selector::Left) == 1);
            assert(c.coeff_value(Selector::Right) == minus_one());
            assert(c.coeff_value(Selector::Range) == 0);
            assert(Self::equality_gate(c, a, b));
        }
    }

    /// `c` is the arithmetic gate `a - b = 0`.
    pub open spec fn equality_gate(c: Constraint, a: Witness, b: Witness) -> bool {
        &&& c.wired()[0] == a
        &&& c.wired()[1] == b
        &&& c.wired()[2].index() == 0
        &&& c.wired()[3].index() == 0
        &&& c.coeff_value(Selector::Left) == 1
        &&& c.coeff_value(Selector::Right) == minus_one()
        &&& c.coeff_value(Selector::Arithmetic) == 1
        &&& c.coeff_value(Selector::Multiplication) == 0
        &&& c.coeff_value(Selector::Output) == 0
        &&& c.coeff_value(Selector::Fourth) == 0
        &&& c.coeff_value(Selector::Constant) == 0
        &&& c.coeff_value(Selector::PublicInput) == 0
        &&& c.coeff_value(Selector::Range) == 0
        &&& c.coeff_value(Selector::Logic) == 0
        &&& c.coeff_value(Selector::GroupAddFixedBase) == 0
        &&& c.coeff_value(Selector::GroupAddVariableBase) == 0
        &&& !c.public_flag()
    }

    /// Constrain `a` to be equal to `constant + pi`.
    ///
    /// `constant` will be defined as part of the public circuit description.
    pub fn assert_equal_constant(&mut self, a: Witness, constant: Scalar, public: Option<Scalar>)
        ensures
            final(self).assignment() == old(self).assignment(),
            exists|c: Constraint|
                #[trigger] Self::constant_gate(c, a, constant@, public)
                    && final(self).emitted() == old(self).emitted().push(c),
            final(self).public_values() == match public {
                Some(p) => old(self).public_values().push(p),
                None => old(self).public_values(),
            },
    {
        let blank = Constraint::new();
        assert(blank.wired()[1].index() == 0 && blank.wired()[2].index() == 0 && blank.wired()[3].index() == 0);
        let base = blank.left(Scalar::one().neg()).a(a).constant(constant);
        let constraint = match public {
            Some(p) => base.public(p),
            None => base,
        };
        let ghost before = *self;
        self.append_gate(constraint);
        proof {
            let c = choose|c: Constraint| arithmetic_of(constraint, c) && #[trigger] Self::emits(before, *self, c);
            assert(constraint.coeffs()[0]@ == 0);
            assert(constraint.coeffs()[2]@ == 0);
            assert(constraint.coeffs()[3]@ == 0);
            assert(constraint.coeffs()[4]@ == 0);
            assert(constraint.wired()[1].index() == 0);
            assert(constraint.wired()[2].index() == 0);
            assert(constraint.wired()[3].index() == 0);
            assert(c.wired()[0] == a);
            assert(c.coeff_value(Selector::Left) == minus_one());
            assert(c.coeff_value(Selector::Constant) == constant@);
            match public {
                Some(p) => {
                    assert(c.public_flag() && c.coeffs()[6] == p);
                },
                None => {
                    assert(constraint.coeffs()[6]@ == 0);
                    assert(!c.public_flag() && c.coeff_value(Selector::PublicInput) == 0);
                },
            }
            assert(Self::constant_gate(c, a, constant@, public));
        }
    }

    /// Evaluate and return `c` by appending a new constraint into the circuit.
    ///
    /// Set `q_O = (-1)` and override the output of the constraint with:
    /// `c := q_L · a + q_R · b + q_F · d + q_C + PI`
    pub fn gate_add(&mut self, s: Constraint) -> (r: Witness)
        requires
            old(self).allocated(s.wired()[0]),
            old(self).allocated(s.wired()[1]),
            old(self).allocated(s.wired()[3]),
        ensures
            r.index() == old(self).assignment().len(),
            final(self).assignment().len() == r.index() + 1,
            final(self).assignment().drop_last() == old(self).assignment(),
            final(self).value(r) == partial_sum(
                s,
                old(self).value(s.wired()[0]),
                old(self).value(s.wired()[1]),
                old(self).value(s.wired()[3]),
            ),
            final(self).emitted().len() == old(self).emitted().len() + 1,
            final(self).emitted().drop_last() == old(self).emitted(),
            output_row(s, r, final(self).emitted().last()),
            arithmetic_identity(
                constraint_gate(final(self).emitted().last()),
                WireValues {
                    a: final(self).value(s.wired()[0]),
                    b: final(self).value(s.wired()[1]),
                    c: final(self).value(r),
                    d: final(self).value(s.wired()[3]),
                },
                final(self).emitted().last().coeff_value(Selector::PublicInput),
            ) == 0,
    {
        self.evaluate_with_minus_one_output(s)
    }

    /// Evaluate and return `c` by appending a new constraint into the circuit.
    ///
    /// Set `q_O = (-1)` and override the output of the constraint with:
    /// `c := q_M · a · b + q_F · d + q_C + PI`
    pub fn gate_mul(&mut self, s: Constraint) -> (r: Witness)
        requires
            old(self).allocated(s.wired()[0]),
            old(self).allocated(s.wired()[1]),
            old(self).allocated(s.wired()[3]),
        ensures
            r.index() == old(self).assignment().len(),
            final(self).assignment().len() == r.index() + 1,
            final(self).assignment().drop_last() == old(self).assignment(),
            final(self).value(r) == partial_sum(
                s,
                old(self).value(s.wired()[0]),
                old(self).value(s.wired()[1]),
                old(self).value(s.wired()[3]),
            ),
            final(self).emitted().len() == old(self).emitted().len() + 1,
            final(self).emitted().drop_last() == old(self).emitted(),
            output_row(s, r, final(self).emitted().last()),
            arithmetic_identity(
                constraint_gate(final(self).emitted().last()),
                WireValues {
                    a: final(self).value(s.wired()[0]),
                    b: final(self).value(s.wired()[1]),
                    c: final(self).value(r),
                    d: final(self).value(s.wired()[3]),
                },
                final(self).emitted().last().coeff_value(Selector::PublicInput),
            ) == 0,
    {
        self.evaluate_with_minus_one_output(s)
    }

    fn evaluate_with_minus_one_output(&mut self, s: Constraint) -> (r: Witness)
        requires
            old(self).allocated(s.wired()[0]),
            old(self).allocated(s.wired()[1]),
            old(self).allocated(s.wired()[3]),
        ensures
            r.index() == old(self).assignment().len(),
            final(self).assignment().len() == r.index() + 1,
            final(self).assignment().drop_last() == old(self).assignment(),
            final(self).value(r) == partial_sum(
                s,
                old(self).value(s.wired()[0]),
                old(self).value(s.wired()[1]),
                old(self).value(s.wired()[3]),
            ),
            final(self).emitted().len() == old(self).emitted().len() + 1,
            final(self).emitted().drop_last() == old(self).emitted(),
            output_row(s, r, final(self).emitted().last()),
            arithmetic_identity(
                constraint_gate(final(self).emitted().last()),
                WireValues {
                    a: final(self).value(s.wired()[0]),
                    b: final(self).value(s.wired()[1]),
                    c: final(self).value(r),
                    d: final(self).value(s.wired()[3]),
                },
                final(self).emitted().last().coeff_value(Selector::PublicInput),
            ) == 0,
    {
        let s2 = Constraint::arithmetic(&s).output(Scalar::one().neg());
        assert(s2.coeff_value(Selector::Output) == fneg(1));
        assert(fneg(1) != 0) by {
            reveal(crate::scalar::fsub);
        }
        let r = self.append_evaluated_output(s2);
        match r {
            Some(w) => {
                proof {
                    let x = partial_sum(
                        s,
                        old(self).value(s.wired()[0]),
                        old(self).value(s.wired()[1]),
                        old(self).value(s.wired()[3]),
                    );
                    assert(partial_sum(
                        s2,
                        old(self).value(s2.wired()[0]),
                        old(self).value(s2.wired()[1]),
                        old(self).value(s2.wired()[3]),
                    ) == x);
                    crate::scalar::lemma_minus_one_solution(x, self.value(w));
                    let c = choose|c: Constraint|
                        arithmetic_rewired(s2, c, s2.wired().update(2, w)) && #[trigger] Self::records(
                            *old(self),
                            *self,
                            c,
                        );
                    assert(self.emitted().last() == c);
                    assert(output_row(s, w, c));
                    let v = self.assignment();
                    assert(self.value(s.wired()[0]) == old(self).value(s.wired()[0]));
                    assert(self.value(s.wired()[1]) == old(self).value(s.wired()[1]));
                    assert(self.value(s.wired()[3]) == old(self).value(s.wired()[3]));
                    lemma_scalar_canonical(v[s.wired()[0].index() as int]);
                    lemma_scalar_canonical(v[s.wired()[1].index() as int]);
                    lemma_scalar_canonical(v[s.wired()[3].index() as int]);
                    lemma_scalar_canonical(v[w.index() as int]);
                    lemma_output_row_solves(
                        s,
                        w,
                        c,
                        self.value(s.wired()[0]),
                        self.value(s.wired()[1]),
                        self.value(w),
                        self.value(s.wired()[3]),
                    );
                }
                w
            },
            None => {
                proof {
                    assert(false);
                }
                Witness::new(0)
            },
        }
    }

    /// Build a circuit with a freshly initialized composer and check that the
    /// backend reports exactly `constraints` constraints.
    pub fn build<C: Circuit>(constraints: usize, circuit: &C) -> (r: Result<Self, Error>)
        ensures
            r matches Ok(composer) ==> Self::canonical(composer, 0) && call_ensures(
                B::constraints,
                (&composer.backend_state(),),
                constraints,
            ),
    {
        let mut composer = Self::initialized();
        let ghost start = composer;
        match circuit.circuit(&mut composer) {
            Ok(_) => {},
            Err(e) => {
                return Err(e);
            },
        }
        proof {
            assert(composer.emitted()[0] == start.emitted()[0]);
            assert(composer.emitted()[1] == start.emitted()[1]);
            assert(composer.assignment()[0] == start.assignment()[0]);
            assert(composer.assignment()[1] == start.assignment()[1]);
        }
        let description_size = composer.constraints();
        match check_size(description_size, constraints) {
            Ok(()) => Ok(composer),
            Err(e) => Err(e),
        }
    }
}

/// Accept a built circuit whose backend reports `reported` constraints when
/// that is the described count; otherwise report both counts.
pub fn check_size(reported: usize, constraints: usize) -> (r: Result<(), Error>)
    ensures
        reported == constraints ==> r is Ok,
        reported != constraints ==> r == Err::<(), Error>(Error::InvalidCircuitSize(reported, constraints)),
{
    if reported != constraints {
        return Err(Error::InvalidCircuitSize(reported, constraints));
    }
    Ok(())
}

} // verus!
