//! Symbolic lowering of the PLONKish gate identities into rank-1 equations,
//! and the rank-1 backend that uses it.

use vstd::prelude::*;

use crate::field::{
    field_sum, lemma_difference_zero, lemma_fadd_associates, lemma_fadd_commutes, lemma_fadd_zero,
    lemma_field_sum_canonical, lemma_field_sum_concat, lemma_field_sum_remove, lemma_fmul_associates,
    lemma_fmul_commutes, lemma_fmul_distributes, lemma_fmul_unit, lemma_fsub_as_add,
    lemma_fsub_zero, lemma_minus_one_squared,
};
use crate::composer::{Composer, ComposerBackend};
use crate::constraint::Constraint;
use crate::gate::{constraint_gate, Gate, GateModel};
use crate::identities::{evaluate, identities, IdentityElement, WireValues};
use crate::plonkish::{next_row, power_of_two};
use crate::r1cs::{
    all_satisfied, field_values, lc_value, terms_below, term_value, LinearCombination, R1csAssignment,
    R1csCircuit, R1csConstraint, R1csShape, Variable,
};
use crate::scalar::{fadd, fmul, fneg, fsub, lemma_scalar_canonical, modulus, Scalar};
use crate::witness::Witness;

verus! {

broadcast use {
    lemma_scalar_canonical,
    crate::scalar::lemma_fadd_canonical,
    crate::scalar::lemma_fmul_canonical,
    crate::scalar::lemma_fsub_canonical,
};

/// A symbolic field expression over rank-1 variables.
pub enum Expression {
    /// A field constant.
    Constant(Scalar),
    /// A variable of the assignment.
    Variable(Variable),
    /// Sum.
    Add(Box<Expression>, Box<Expression>),
    /// Difference.
    Sub(Box<Expression>, Box<Expression>),
    /// Product.
    Mul(Box<Expression>, Box<Expression>),
}

/// The field value of an expression under variable values `env`.
pub open spec fn expr_value(e: Expression, env: Seq<nat>) -> nat
    decreases e,
{
    match e {
        Expression::Constant(c) => c@,
        Expression::Variable(v) => env[v.index() as int] % modulus(),
        Expression::Add(l, r) => fadd(expr_value(*l, env), expr_value(*r, env)),
        Expression::Sub(l, r) => fsub(expr_value(*l, env), expr_value(*r, env)),
        Expression::Mul(l, r) => fmul(expr_value(*l, env), expr_value(*r, env)),
    }
}

/// Every variable of the expression is below `n`.
pub open spec fn expr_below(e: Expression, n: nat) -> bool
    decreases e,
{
    match e {
        Expression::Constant(_) => true,
        Expression::Variable(v) => v.index() < n,
        Expression::Add(l, r) => expr_below(*l, n) && expr_below(*r, n),
        Expression::Sub(l, r) => expr_below(*l, n) && expr_below(*r, n),
        Expression::Mul(l, r) => expr_below(*l, n) && expr_below(*r, n),
    }
}

/// Expression values are canonical.
pub proof fn lemma_expr_canonical(e: Expression, env: Seq<nat>)
    ensures
        expr_value(e, env) < modulus(),
    decreases e,
{
    match e {
        Expression::Variable(v) => {
            vstd::arithmetic::div_mod::lemma_mod_bound(env[v.index() as int] as int, modulus() as int);
        },
        _ => {},
    }
}

/// An expression whose variables are below `n` has the same value under two
/// assignments that agree below `n`.
pub proof fn lemma_expr_agrees(e: Expression, env1: Seq<nat>, env2: Seq<nat>, n: nat)
    requires
        expr_below(e, n),
        n <= env1.len(),
        n <= env2.len(),
        forall|i: int| 0 <= i < n ==> env1[i] == env2[i],
    ensures
        expr_value(e, env1) == expr_value(e, env2),
    decreases e,
{
    match e {
        Expression::Constant(_) => {},
        Expression::Variable(v) => {},
        Expression::Add(l, r) => {
            lemma_expr_agrees(*l, env1, env2, n);
            lemma_expr_agrees(*r, env1, env2, n);
        },
        Expression::Sub(l, r) => {
            lemma_expr_agrees(*l, env1, env2, n);
            lemma_expr_agrees(*r, env1, env2, n);
        },
        Expression::Mul(l, r) => {
            lemma_expr_agrees(*l, env1, env2, n);
            lemma_expr_agrees(*r, env1, env2, n);
        },
    }
}

/// A combination whose variables are below `n` has the same value under two
/// assignments that agree below `n`.
pub proof fn lemma_lc_agrees(terms: Seq<(Variable, Scalar)>, env1: Seq<nat>, env2: Seq<nat>, n: nat)
    requires
        terms_below(terms, n),
        n <= env1.len(),
        n <= env2.len(),
        forall|i: int| 0 <= i < n ==> env1[i] == env2[i],
    ensures
        lc_value(terms, env1) == lc_value(terms, env2),
    decreases terms.len(),
{
    if terms.len() > 0 {
        let rest = terms.drop_last();
        lemma_lc_agrees(rest, env1, env2, n);
        let f1 = |t: (Variable, Scalar)| term_value(t, env1);
        let f2 = |t: (Variable, Scalar)| term_value(t, env2);
        assert(terms.map_values(f1).drop_last() =~= rest.map_values(f1));
        assert(terms.map_values(f2).drop_last() =~= rest.map_values(f2));
        assert(terms[terms.len() - 1].0.index() < n);
    }
}

impl Expression {
    /// The constant of a constant expression.
    fn constant_value(&self) -> (r: Option<Scalar>)
        ensures
            match *self {
                Expression::Constant(c) => r == Some(c),
                _ => r is None,
            },
    {
        match self {
            Expression::Constant(value) => Some(*value),
            _ => None,
        }
    }

    /// A structural copy.
    fn copy(&self) -> (r: Expression)
        ensures
            r == *self,
        decreases *self,
    {
        match self {
            Expression::Constant(value) => Expression::Constant(*value),
            Expression::Variable(variable) => Expression::Variable(*variable),
            Expression::Add(l, r) => Expression::Add(Box::new((**l).copy()), Box::new((**r).copy())),
            Expression::Sub(l, r) => Expression::Sub(Box::new((**l).copy()), Box::new((**r).copy())),
            Expression::Mul(l, r) => Expression::Mul(Box::new((**l).copy()), Box::new((**r).copy())),
        }
    }
}

impl IdentityElement for Expression {
    open spec fn value(&self, env: Seq<nat>) -> nat {
        expr_value(*self, env)
    }

    open spec fn within(&self, n: nat) -> bool {
        expr_below(*self, n)
    }

    fn constant(value: Scalar) -> (r: Expression) {
        Expression::Constant(value)
    }

    fn duplicate(&self) -> (r: Expression) {
        self.copy()
    }

    fn plus(self, rhs: Expression) -> (r: Expression) {
        let zero = Scalar::zero();
        let left = self.constant_value();
        let right = rhs.constant_value();
        if let Some(l) = left {
            if l.equals(&zero) {
                assert forall|env: Seq<nat>| #[trigger] expr_value(rhs, env) == fadd(
                    expr_value(self, env),
                    expr_value(rhs, env),
                ) by {
                    lemma_expr_canonical(rhs, env);
                    lemma_fadd_zero(expr_value(rhs, env));
                }
                return rhs;
            }
        }
        if let Some(r) = right {
            if r.equals(&zero) {
                assert forall|env: Seq<nat>| #[trigger] expr_value(self, env) == fadd(
                    expr_value(self, env),
                    expr_value(rhs, env),
                ) by {
                    lemma_expr_canonical(self, env);
                    lemma_fadd_zero(expr_value(self, env));
                }
                return self;
            }
        }
        match (left, right) {
            (Some(l), Some(r)) => Expression::Constant(l.add(&r)),
            _ => Expression::Add(Box::new(self), Box::new(rhs)),
        }
    }

    fn minus(self, rhs: Expression) -> (r: Expression) {
        let zero = Scalar::zero();
        let left = self.constant_value();
        let right = rhs.constant_value();
        if let Some(r) = right {
            if r.equals(&zero) {
                assert forall|env: Seq<nat>| #[trigger] expr_value(self, env) == fsub(
                    expr_value(self, env),
                    expr_value(rhs, env),
                ) by {
                    lemma_expr_canonical(self, env);
                    lemma_fsub_zero(expr_value(self, env));
                }
                return self;
            }
        }
        match (left, right) {
            (Some(l), Some(r)) => Expression::Constant(l.sub(&r)),
            _ => Expression::Sub(Box::new(self), Box::new(rhs)),
        }
    }

    fn times(self, rhs: Expression) -> (r: Expression) {
        let zero = Scalar::zero();
        let one = Scalar::one();
        let left = self.constant_value();
        let right = rhs.constant_value();
        let left_zero = match left {
            Some(l) => l.equals(&zero),
            None => false,
        };
        let right_zero = match right {
            Some(r) => r.equals(&zero),
            None => false,
        };
        if left_zero || right_zero {
            let r = Expression::Constant(zero);
            assert forall|env: Seq<nat>| #[trigger] expr_value(r, env) == fmul(
                expr_value(self, env),
                expr_value(rhs, env),
            ) by {
                lemma_expr_canonical(self, env);
                lemma_expr_canonical(rhs, env);
                lemma_fmul_unit(expr_value(self, env));
                lemma_fmul_unit(expr_value(rhs, env));
            }
            return r;
        }
        if let Some(l) = left {
            if l.equals(&one) {
                assert forall|env: Seq<nat>| #[trigger] expr_value(rhs, env) == fmul(
                    expr_value(self, env),
                    expr_value(rhs, env),
                ) by {
                    lemma_expr_canonical(rhs, env);
                    lemma_fmul_unit(expr_value(rhs, env));
                }
                return rhs;
            }
        }
        if let Some(r) = right {
            if r.equals(&one) {
                assert forall|env: Seq<nat>| #[trigger] expr_value(self, env) == fmul(
                    expr_value(self, env),
                    expr_value(rhs, env),
                ) by {
                    lemma_expr_canonical(self, env);
                    lemma_fmul_unit(expr_value(self, env));
                }
                return self;
            }
        }
        match (left, right) {
            (Some(l), Some(r)) => Expression::Constant(l.mul(&r)),
            _ => Expression::Mul(Box::new(self), Box::new(rhs)),
        }
    }
}

/// Every equation of `cs` from position `from` on is satisfied by `values`.
pub open spec fn holds_from(cs: Seq<R1csConstraint>, from: int, values: Seq<Scalar>) -> bool {
    forall|k: int| 0 <= k && from <= k < cs.len() ==> (#[trigger] cs[k]).satisfied_by(values)
}

/// Every equation of `cs` reads only variables below `n`.
pub open spec fn tidy(cs: Seq<R1csConstraint>, n: nat) -> bool {
    forall|k: int| 0 <= k < cs.len() ==> (#[trigger] cs[k]).below(n)
}

/// Field values of two assignments agree below `n`.
proof fn lemma_prefix_agrees(v1: Seq<Scalar>, v2: Seq<Scalar>)
    requires
        v1.is_prefix_of(v2),
    ensures
        forall|i: int|
            0 <= i < v1.len() ==> #[trigger] field_values(v1)[i] == field_values(v2)[i],
{
    assert forall|i: int| 0 <= i < v1.len() implies #[trigger] field_values(v1)[i]
        == field_values(v2)[i] by {
        assert(v2[i] == v1[i]);
    }
}

/// An equation over variables below `v1.len()` is satisfied by `v1` exactly
/// when it is satisfied by an extension `v2`.
proof fn lemma_satisfied_agrees(c: R1csConstraint, v1: Seq<Scalar>, v2: Seq<Scalar>)
    requires
        c.below(v1.len()),
        v1.is_prefix_of(v2),
    ensures
        c.satisfied_by(v1) <==> c.satisfied_by(v2),
{
    lemma_prefix_agrees(v1, v2);
    let e1 = field_values(v1);
    let e2 = field_values(v2);
    lemma_lc_agrees(c.a_terms(), e1, e2, v1.len());
    lemma_lc_agrees(c.b_terms(), e1, e2, v1.len());
    lemma_lc_agrees(c.c_terms(), e1, e2, v1.len());
    assert forall|i: int| 0 <= i < c.a_terms().len() implies (#[trigger] c.a_terms()[i]).0.index()
        < v2.len() by {}
    assert forall|i: int| 0 <= i < c.b_terms().len() implies (#[trigger] c.b_terms()[i]).0.index()
        < v2.len() by {}
    assert forall|i: int| 0 <= i < c.c_terms().len() implies (#[trigger] c.c_terms()[i]).0.index()
        < v2.len() by {}
}

/// Growing the assignment keeps which tidy equations hold.
proof fn lemma_holds_agrees(cs: Seq<R1csConstraint>, from: int, v1: Seq<Scalar>, v2: Seq<Scalar>)
    requires
        tidy(cs, v1.len()),
        v1.is_prefix_of(v2),
    ensures
        holds_from(cs, from, v1) <==> holds_from(cs, from, v2),
        tidy(cs, v2.len()),
{
    assert forall|k: int| 0 <= k && from <= k < cs.len() implies (#[trigger] cs[k]).satisfied_by(v1)
        <==> cs[k].satisfied_by(v2) by {
        lemma_satisfied_agrees(cs[k], v1, v2);
    }
    assert forall|k: int| 0 <= k < cs.len() implies (#[trigger] cs[k]).below(v2.len()) by {
        let c = cs[k];
        assert forall|i: int| 0 <= i < c.a_terms().len() implies (#[trigger] c.a_terms()[i]).0.index()
            < v2.len() by {}
        assert forall|i: int| 0 <= i < c.b_terms().len() implies (#[trigger] c.b_terms()[i]).0.index()
            < v2.len() by {}
        assert forall|i: int| 0 <= i < c.c_terms().len() implies (#[trigger] c.c_terms()[i]).0.index()
            < v2.len() by {}
    }
}

/// A combination below `n` stays below any larger bound.
proof fn lemma_lc_below_grows(lc: LinearCombination, n: nat, m: nat)
    requires
        lc.below(n),
        n <= m,
    ensures
        lc.below(m),
{
    assert forall|i: int| 0 <= i < lc.terms_view().len() implies (#[trigger] lc.terms_view()[i]).0.index()
        < m by {}
}

/// An expression below `n` stays below any larger bound.
proof fn lemma_expr_below_grows(e: Expression, n: nat, m: nat)
    requires
        expr_below(e, n),
        n <= m,
    ensures
        expr_below(e, m),
    decreases e,
{
    match e {
        Expression::Add(l, r) => {
            lemma_expr_below_grows(*l, n, m);
            lemma_expr_below_grows(*r, n, m);
        },
        Expression::Sub(l, r) => {
            lemma_expr_below_grows(*l, n, m);
            lemma_expr_below_grows(*r, n, m);
        },
        Expression::Mul(l, r) => {
            lemma_expr_below_grows(*l, n, m);
            lemma_expr_below_grows(*r, n, m);
        },
        _ => {},
    }
}

/// The rank-1 equations and assignment being built by a lowering.
struct Lowerer {
    constraints: Vec<R1csConstraint>,
    assignment: Vec<Scalar>,
}

impl Lowerer {
    /// The constant-one variable holds one, and every equation reads only
    /// assigned variables.
    spec fn ready(&self) -> bool {
        &&& self.assignment@.len() >= 1
        &&& self.assignment@[0]@ == 1
        &&& tidy(self.constraints@, self.assignment@.len())
    }

    /// `self` extends `before`: both the assignment and the equations.
    spec fn extends(&self, before: Lowerer) -> bool {
        &&& before.assignment@.is_prefix_of(self.assignment@)
        &&& before.constraints@.is_prefix_of(self.constraints@)
    }

    spec fn env(&self) -> Seq<nat> {
        field_values(self.assignment@)
    }

    /// Allocate `left · right` as a new variable, constrained by
    /// `left · right = variable`.
    fn allocate_product(&mut self, left: LinearCombination, right: LinearCombination) -> (r: LinearCombination)
        requires
            old(self).ready(),
            left.below(old(self).assignment@.len()),
            right.below(old(self).assignment@.len()),
        ensures
            final(self).ready(),
            final(self).extends(*old(self)),
            holds_from(final(self).constraints@, old(self).constraints@.len() as int, final(self).assignment@),
            r.below(final(self).assignment@.len()),
            r.value(final(self).env()) == fmul(left.value(old(self).env()), right.value(old(self).env())),
            final(self).assignment@.len() == old(self).assignment@.len() + 1,
            final(self).constraints@.len() == old(self).constraints@.len() + 1,
    {
        let ghost before = *self;
        let left_value = match left.evaluate(self.assignment.as_slice()) {
            Some(value) => value,
            None => Scalar::zero(),
        };
        let right_value = match right.evaluate(self.assignment.as_slice()) {
            Some(value) => value,
            None => Scalar::zero(),
        };
        let variable = Variable::new(self.assignment.len());
        let product = left_value.mul(&right_value);
        self.assignment.push(product);
        let output = LinearCombination::from_variable(variable);
        let copy = output.clone();
        let ghost a_terms = left.terms_view();
        let ghost b_terms = right.terms_view();
        let constraint = R1csConstraint::from_parts(left, right, copy);
        self.constraints.push(constraint);
        proof {
            let env0 = before.env();
            let env1 = self.env();
            assert(before.assignment@.is_prefix_of(self.assignment@));
            lemma_prefix_agrees(before.assignment@, self.assignment@);
            lemma_lc_agrees(a_terms, env0, env1, before.assignment@.len());
            lemma_lc_agrees(b_terms, env0, env1, before.assignment@.len());
            lemma_lc_below_grows(left, before.assignment@.len(), self.assignment@.len());
            lemma_lc_below_grows(right, before.assignment@.len(), self.assignment@.len());
            assert(env1[variable.index() as int] == product@);
            assert(output.value(env1) == env1[variable.index() as int] % modulus());
            vstd::arithmetic::div_mod::lemma_small_mod(product@, modulus());
            assert(left.value(env1) == left_value@);
            assert(right.value(env1) == right_value@);
            assert(constraint.satisfied_by(self.assignment@));
            lemma_holds_agrees(before.constraints@, 0, before.assignment@, self.assignment@);
            assert forall|k: int| 0 <= k < self.constraints@.len() implies (#[trigger] self.constraints@[k]).below(
                self.assignment@.len(),
            ) by {
                if k < before.constraints@.len() {
                    assert(self.constraints@[k] == before.constraints@[k]);
                }
            }
            assert(holds_from(self.constraints@, before.constraints@.len() as int, self.assignment@));
        }
        output
    }
}

/// Two lowering steps compose.
proof fn lemma_chain(a: Lowerer, b: Lowerer, c: Lowerer)
    requires
        b.ready(),
        b.extends(a),
        c.extends(b),
        holds_from(b.constraints@, a.constraints@.len() as int, b.assignment@),
        holds_from(c.constraints@, b.constraints@.len() as int, c.assignment@),
    ensures
        c.extends(a),
        holds_from(c.constraints@, a.constraints@.len() as int, c.assignment@),
{
    lemma_holds_agrees(b.constraints@, a.constraints@.len() as int, b.assignment@, c.assignment@);
    assert(c.assignment@.subrange(0, a.assignment@.len() as int) =~= a.assignment@) by {
        assert(c.assignment@.subrange(0, b.assignment@.len() as int) == b.assignment@);
        assert forall|i: int| 0 <= i < a.assignment@.len() implies c.assignment@[i] == a.assignment@[i] by {
            assert(c.assignment@[i] == b.assignment@[i]);
            assert(b.assignment@[i] == a.assignment@[i]);
        }
    }
    assert(c.constraints@.subrange(0, a.constraints@.len() as int) =~= a.constraints@) by {
        assert forall|i: int| 0 <= i < a.constraints@.len() implies c.constraints@[i] == a.constraints@[i] by {
            assert(c.constraints@[i] == b.constraints@[i]);
            assert(b.constraints@[i] == a.constraints@[i]);
        }
    }
    assert forall|k: int| 0 <= k && a.constraints@.len() <= k < c.constraints@.len() implies (#[trigger] c.constraints@[k]).satisfied_by(
        c.assignment@,
    ) by {
        if k < b.constraints@.len() {
            assert(c.constraints@[k] == b.constraints@[k]);
        }
    }
}

impl Lowerer {
    /// Lower an expression to a linear combination with the same value,
    /// allocating one constrained auxiliary variable per product of two
    /// non-constant factors.
    fn lower(&mut self, expression: Expression) -> (r: LinearCombination)
        requires
            old(self).ready(),
            expr_below(expression, old(self).assignment@.len()),
        ensures
            final(self).ready(),
            final(self).extends(*old(self)),
            holds_from(final(self).constraints@, old(self).constraints@.len() as int, final(self).assignment@),
            r.below(final(self).assignment@.len()),
            r.value(final(self).env()) == expr_value(expression, old(self).env()),
            final(self).assignment@.len() - old(self).assignment@.len() == final(self).constraints@.len()
                - old(self).constraints@.len(),
        decreases expression,
    {
        let ghost start = *self;
        match expression {
            Expression::Constant(value) => {
                let r = LinearCombination::from_constant(value);
                proof {
                    lemma_lc_below_grows(r, 1, self.assignment@.len());
                    assert(self.env()[0] == 1);
                    assert(r.value(self.env()) == value@);
                    assert(self.assignment@.subrange(0, self.assignment@.len() as int) =~= self.assignment@);
                    assert(self.constraints@.subrange(0, self.constraints@.len() as int) =~= self.constraints@);
                }
                r
            },
            Expression::Variable(variable) => {
                let r = LinearCombination::from_variable(variable);
                proof {
                    lemma_lc_below_grows(r, (variable.index() + 1) as nat, self.assignment@.len());
                    assert(r.value(self.env()) == self.env()[variable.index() as int] % modulus());
                    assert(self.assignment@.subrange(0, self.assignment@.len() as int) =~= self.assignment@);
                    assert(self.constraints@.subrange(0, self.constraints@.len() as int) =~= self.constraints@);
                }
                r
            },
            Expression::Add(left, right) => {
                let left_expr = *left;
                let right_expr = *right;
                let mut l = self.lower(left_expr);
                let ghost mid = *self;
                let ghost l_before = l;
                proof {
                    lemma_expr_below_grows(right_expr, start.assignment@.len(), mid.assignment@.len());
                }
                let r = self.lower(right_expr);
                l.add_assign_scaled(&r, Scalar::one());
                proof {
                    lemma_chain(start, mid, *self);
                    lemma_prefix_agrees(mid.assignment@, self.assignment@);
                    lemma_prefix_agrees(start.assignment@, mid.assignment@);
                    lemma_lc_agrees(l_before.terms_view(), mid.env(), self.env(), mid.assignment@.len());
                    lemma_expr_agrees(right_expr, start.env(), mid.env(), start.assignment@.len());
                    lemma_lc_below_grows(l_before, mid.assignment@.len(), self.assignment@.len());
                    lemma_expr_canonical(right_expr, start.env());
                    lemma_fmul_unit(expr_value(right_expr, start.env()));
                }
                l
            },
            Expression::Sub(left, right) => {
                let left_expr = *left;
                let right_expr = *right;
                let mut l = self.lower(left_expr);
                let ghost mid = *self;
                let ghost l_before = l;
                proof {
                    lemma_expr_below_grows(right_expr, start.assignment@.len(), mid.assignment@.len());
                }
                let r = self.lower(right_expr);
                l.add_assign_scaled(&r, Scalar::one().neg());
                proof {
                    lemma_chain(start, mid, *self);
                    lemma_prefix_agrees(mid.assignment@, self.assignment@);
                    lemma_prefix_agrees(start.assignment@, mid.assignment@);
                    lemma_lc_agrees(l_before.terms_view(), mid.env(), self.env(), mid.assignment@.len());
                    lemma_expr_agrees(right_expr, start.env(), mid.env(), start.assignment@.len());
                    lemma_lc_below_grows(l_before, mid.assignment@.len(), self.assignment@.len());
                    lemma_expr_canonical(left_expr, start.env());
                    lemma_expr_canonical(right_expr, start.env());
                    lemma_fsub_as_add(expr_value(left_expr, start.env()), expr_value(right_expr, start.env()));
                }
                l
            },
            Expression::Mul(left, right) => {
                let left_expr = *left;
                let right_expr = *right;
                if let Expression::Constant(scale) = left_expr {
                    let lowered = self.lower(right_expr);
                    let r = lowered.scaled(scale);
                    proof {
                        assert(expr_value(left_expr, start.env()) == scale@);
                        assert(r.value(self.env()) == fmul(scale@, lowered.value(self.env())));
                    }
                    return r;
                }
                if let Expression::Constant(scale) = right_expr {
                    let lowered = self.lower(left_expr);
                    let r = lowered.scaled(scale);
                    proof {
                        assert(expr_value(right_expr, start.env()) == scale@);
                        assert(r.value(self.env()) == fmul(scale@, lowered.value(self.env())));
                        lemma_fmul_commutes(scale@, expr_value(left_expr, start.env()));
                    }
                    return r;
                }
                let l = self.lower(left_expr);
                let ghost mid = *self;
                proof {
                    lemma_expr_below_grows(right_expr, start.assignment@.len(), mid.assignment@.len());
                }
                let r = self.lower(right_expr);
                let ghost mid2 = *self;
                proof {
                    lemma_chain(start, mid, mid2);
                    lemma_prefix_agrees(mid.assignment@, mid2.assignment@);
                    lemma_prefix_agrees(start.assignment@, mid.assignment@);
                    lemma_lc_agrees(l.terms_view(), mid.env(), mid2.env(), mid.assignment@.len());
                    lemma_expr_agrees(right_expr, start.env(), mid.env(), start.assignment@.len());
                    lemma_lc_below_grows(l, mid.assignment@.len(), mid2.assignment@.len());
                }
                let product = self.allocate_product(l, r);
                proof {
                    lemma_chain(start, mid2, *self);
                }
                product
            },
        }
    }
}

/// `sign · value(term)`.
pub open spec fn signed_value(t: (Scalar, Expression), env: Seq<nat>) -> nat {
    fmul(t.0@, expr_value(t.1, env))
}

/// The sum of signed terms.
pub open spec fn signed_sum(ts: Seq<(Scalar, Expression)>, env: Seq<nat>) -> nat {
    field_sum(ts.map_values(|t: (Scalar, Expression)| signed_value(t, env)))
}

/// `s` is `1` or `-1`.
pub open spec fn unit_sign(s: Scalar) -> bool {
    s@ == 1 || s@ == fneg(1)
}

/// A term that is neither a sum nor a difference.
pub open spec fn flat(e: Expression) -> bool {
    !(e is Add) && !(e is Sub)
}

proof fn lemma_negated_sign(s: nat)
    requires
        s == 1 || s == fneg(1),
    ensures
        fneg(s) == fmul(s, fneg(1)),
        fneg(s) == 1 || fneg(s) == fneg(1),
{
    reveal(crate::scalar::fsub);
    reveal(fmul);
    let m = modulus() as int;
    vstd::arithmetic::div_mod::lemma_small_mod(1, modulus());
    vstd::arithmetic::div_mod::lemma_small_mod((m - 1) as nat, modulus());
    assert(fneg(1) == m - 1);
    lemma_minus_one_squared();
    lemma_fmul_unit(fneg(1));
    if s == 1 {
    } else {
        vstd::arithmetic::div_mod::lemma_small_mod(0, modulus());
        assert(fneg(s) == 1);
    }
}

proof fn lemma_signed_sum_concat(a: Seq<(Scalar, Expression)>, b: Seq<(Scalar, Expression)>, env: Seq<nat>)
    ensures
        signed_sum(a + b, env) == fadd(signed_sum(a, env), signed_sum(b, env)),
{
    let f = |t: (Scalar, Expression)| signed_value(t, env);
    assert((a + b).map_values(f) =~= a.map_values(f) + b.map_values(f));
    lemma_field_sum_concat(a.map_values(f), b.map_values(f));
}

proof fn lemma_signed_sum_single(t: (Scalar, Expression), env: Seq<nat>)
    ensures
        signed_sum(seq![t], env) == signed_value(t, env),
{
    let f = |x: (Scalar, Expression)| signed_value(x, env);
    let m = seq![t].map_values(f);
    assert(m.len() == 1);
    assert(m[0] == signed_value(t, env));
    assert(m.drop_last() =~= Seq::<nat>::empty());
    assert(field_sum(Seq::<nat>::empty()) == 0);
    lemma_fadd_zero(signed_value(t, env));
    assert(field_sum(m) == fadd(field_sum(m.drop_last()), m.last()));
}

proof fn lemma_signed_sum_push(ts: Seq<(Scalar, Expression)>, t: (Scalar, Expression), env: Seq<nat>)
    ensures
        signed_sum(ts.push(t), env) == fadd(signed_sum(ts, env), signed_value(t, env)),
{
    let f = |x: (Scalar, Expression)| signed_value(x, env);
    assert(ts.push(t).map_values(f).drop_last() =~= ts.map_values(f));
}

proof fn lemma_signed_sum_remove(ts: Seq<(Scalar, Expression)>, i: int, env: Seq<nat>)
    requires
        0 <= i < ts.len(),
    ensures
        signed_sum(ts, env) == fadd(signed_sum(ts.remove(i), env), signed_value(ts[i], env)),
{
    let f = |x: (Scalar, Expression)| signed_value(x, env);
    lemma_field_sum_remove(ts.map_values(f), i);
    assert(ts.map_values(f).remove(i) =~= ts.remove(i).map_values(f));
}

proof fn lemma_signed_sum_agrees(ts: Seq<(Scalar, Expression)>, env1: Seq<nat>, env2: Seq<nat>, n: nat)
    requires
        forall|i: int| 0 <= i < ts.len() ==> expr_below(#[trigger] ts[i].1, n),
        n <= env1.len(),
        n <= env2.len(),
        forall|i: int| 0 <= i < n ==> env1[i] == env2[i],
    ensures
        signed_sum(ts, env1) == signed_sum(ts, env2),
    decreases ts.len(),
{
    if ts.len() > 0 {
        lemma_signed_sum_agrees(ts.drop_last(), env1, env2, n);
        lemma_signed_sum_push(ts.drop_last(), ts.last(), env1);
        lemma_signed_sum_push(ts.drop_last(), ts.last(), env2);
        assert(ts.drop_last().push(ts.last()) =~= ts);
        lemma_expr_agrees(ts.last().1, env1, env2, n);
    }
}

/// Split an expression into signed terms, none of them a sum or difference.
#[verifier::spinoff_prover]
#[verifier::rlimit(30)]
fn flatten_terms(expression: Expression, sign: Scalar, terms: &mut Vec<(Scalar, Expression)>)
    requires
        unit_sign(sign),
    ensures
        final(terms)@.len() >= old(terms)@.len(),
        final(terms)@.subrange(0, old(terms)@.len() as int) == old(terms)@,
        forall|env: Seq<nat>| #[trigger] signed_sum(
            final(terms)@.subrange(old(terms)@.len() as int, final(terms)@.len() as int),
            env,
        ) == fmul(sign@, expr_value(expression, env)),
        forall|i: int|
            old(terms)@.len() <= i < final(terms)@.len() ==> unit_sign(#[trigger] final(terms)@[i].0)
                && flat(final(terms)@[i].1),
        forall|n: nat, i: int|
            expr_below(expression, n) && old(terms)@.len() <= i < final(terms)@.len() ==> #[trigger] expr_below(
                final(terms)@[i].1,
                n,
            ),
    decreases expression,
{
    let ghost start = terms@;
    match expression {
        Expression::Add(left, right) => {
            let ghost l = *left;
            let ghost r = *right;
            flatten_terms(*left, sign, terms);
            let ghost mid = terms@;
            flatten_terms(*right, sign, terms);
            proof {
                let new_left = mid.subrange(start.len() as int, mid.len() as int);
                let new_right = terms@.subrange(mid.len() as int, terms@.len() as int);
                assert(terms@.subrange(start.len() as int, terms@.len() as int) =~= new_left + new_right);
                assert(terms@.subrange(0, start.len() as int) =~= start);
                assert forall|env: Seq<nat>| #[trigger] signed_sum(
                    terms@.subrange(start.len() as int, terms@.len() as int),
                    env,
                ) == fmul(sign@, expr_value(expression, env)) by {
                    lemma_signed_sum_concat(new_left, new_right, env);
                    lemma_fmul_distributes(sign@, expr_value(l, env), expr_value(r, env));
                }
                assert forall|i: int| start.len() <= i < terms@.len() implies unit_sign(
                    #[trigger] terms@[i].0,
                ) && flat(terms@[i].1) by {
                    if i < mid.len() {
                        assert(terms@.subrange(0, mid.len() as int)[i] == mid[i]);
                        assert(terms@[i] == mid[i]);
                    }
                }
                assert forall|n: nat, i: int|
                    expr_below(expression, n) && start.len() <= i < terms@.len() implies #[trigger] expr_below(
                    terms@[i].1,
                    n,
                ) by {
                    if i < mid.len() {
                        assert(terms@.subrange(0, mid.len() as int)[i] == mid[i]);
                        assert(terms@[i] == mid[i]);
                    }
                }
            }
        },
        Expression::Sub(left, right) => {
            let ghost l = *left;
            let ghost r = *right;
            flatten_terms(*left, sign, terms);
            let ghost mid = terms@;
            proof {
                lemma_negated_sign(sign@);
            }
            let negated = sign.neg();
            flatten_terms(*right, negated, terms);
            proof {
                let new_left = mid.subrange(start.len() as int, mid.len() as int);
                let new_right = terms@.subrange(mid.len() as int, terms@.len() as int);
                assert(terms@.subrange(start.len() as int, terms@.len() as int) =~= new_left + new_right);
                assert(terms@.subrange(0, start.len() as int) =~= start);
                assert forall|env: Seq<nat>| #[trigger] signed_sum(
                    terms@.subrange(start.len() as int, terms@.len() as int),
                    env,
                ) == fmul(sign@, expr_value(expression, env)) by {
                    let lv = expr_value(l, env);
                    let rv = expr_value(r, env);
                    lemma_signed_sum_concat(new_left, new_right, env);
                    lemma_expr_canonical(l, env);
                    lemma_expr_canonical(r, env);
                    lemma_fsub_as_add(lv, rv);
                    lemma_fmul_distributes(sign@, lv, fmul(fneg(1), rv));
                    lemma_fmul_associates(sign@, fneg(1), rv);
                }
                assert forall|i: int| start.len() <= i < terms@.len() implies unit_sign(
                    #[trigger] terms@[i].0,
                ) && flat(terms@[i].1) by {
                    if i < mid.len() {
                        assert(terms@.subrange(0, mid.len() as int)[i] == mid[i]);
                        assert(terms@[i] == mid[i]);
                    }
                }
                assert forall|n: nat, i: int|
                    expr_below(expression, n) && start.len() <= i < terms@.len() implies #[trigger] expr_below(
                    terms@[i].1,
                    n,
                ) by {
                    if i < mid.len() {
                        assert(terms@.subrange(0, mid.len() as int)[i] == mid[i]);
                        assert(terms@[i] == mid[i]);
                    }
                }
            }
        },
        other => {
            let ghost e = other;
            terms.push((sign, other));
            proof {
                assert(terms@.subrange(start.len() as int, terms@.len() as int) =~= seq![(sign, e)]);
                assert(terms@.subrange(0, start.len() as int) =~= start);
                assert forall|env: Seq<nat>| #[trigger] signed_sum(
                    terms@.subrange(start.len() as int, terms@.len() as int),
                    env,
                ) == fmul(sign@, expr_value(expression, env)) by {
                    lemma_signed_sum_single((sign, e), env);
                }
            }
        },
    }
}

/// The first term that is a product.
fn position_of_product(terms: &Vec<(Scalar, Expression)>) -> (r: Option<usize>)
    ensures
        match r {
            Some(i) => i < terms@.len() && terms@[i as int].1 is Mul && forall|j: int|
                0 <= j < i ==> !(#[trigger] terms@[j].1 is Mul),
            None => forall|j: int| 0 <= j < terms@.len() ==> !(#[trigger] terms@[j].1 is Mul),
        },
{
    let mut i: usize = 0;
    while i < terms.len()
        invariant
            i <= terms@.len(),
            forall|j: int| 0 <= j < i ==> !(#[trigger] terms@[j].1 is Mul),
        decreases terms.len() - i,
    {
        match &terms[i].1 {
            Expression::Mul(_, _) => {
                return Some(i);
            },
            _ => {},
        }
        i = i + 1;
    }
    None
}

impl Lowerer {
    /// Lower `Σ sign_k · term_k` term by term into one combination.
    fn lower_terms(&mut self, terms: &Vec<(Scalar, Expression)>) -> (r: LinearCombination)
        requires
            old(self).ready(),
            forall|i: int| 0 <= i < terms@.len() ==> #[trigger] expr_below(terms@[i].1, old(self).assignment@.len()),
        ensures
            final(self).ready(),
            final(self).extends(*old(self)),
            holds_from(final(self).constraints@, old(self).constraints@.len() as int, final(self).assignment@),
            r.below(final(self).assignment@.len()),
            r.value(final(self).env()) == signed_sum(terms@, old(self).env()),
    {
        let ghost start = *self;
        let mut remainder = LinearCombination::zero();
        proof {
            assert(terms@.take(0) =~= Seq::<(Scalar, Expression)>::empty());
            let f = |t: (Scalar, Expression)| signed_value(t, start.env());
            assert(Seq::<(Scalar, Expression)>::empty().map_values(f) =~= Seq::<nat>::empty());
            assert(self.assignment@.subrange(0, self.assignment@.len() as int) =~= self.assignment@);
            assert(self.constraints@.subrange(0, self.constraints@.len() as int) =~= self.constraints@);
        }
        let mut i: usize = 0;
        while i < terms.len()
            invariant
                i <= terms@.len(),
                start.ready(),
                self.ready(),
                self.extends(start),
                holds_from(self.constraints@, start.constraints@.len() as int, self.assignment@),
                forall|j: int| 0 <= j < terms@.len() ==> #[trigger] expr_below(terms@[j].1, start.assignment@.len()),
                remainder.below(self.assignment@.len()),
                remainder.value(self.env()) == signed_sum(terms@.take(i as int), start.env()),
            decreases terms.len() - i,
        {
            let ghost before = *self;
            let ghost remainder_before = remainder;
            let term = terms[i].1.copy();
            let coefficient = terms[i].0;
            proof {
                lemma_expr_below_grows(term, start.assignment@.len(), self.assignment@.len());
            }
            let lowered = self.lower(term);
            remainder.add_assign_scaled(&lowered, coefficient);
            proof {
                lemma_chain(start, before, *self);
                lemma_prefix_agrees(before.assignment@, self.assignment@);
                lemma_prefix_agrees(start.assignment@, before.assignment@);
                lemma_lc_agrees(remainder_before.terms_view(), before.env(), self.env(), before.assignment@.len());
                lemma_lc_below_grows(remainder_before, before.assignment@.len(), self.assignment@.len());
                lemma_expr_agrees(term, start.env(), before.env(), start.assignment@.len());
                assert(terms@.take(i + 1) =~= terms@.take(i as int).push(terms@[i as int]));
                lemma_signed_sum_push(terms@.take(i as int), terms@[i as int], start.env());
            }
            i = i + 1;
        }
        assert(terms@.take(terms@.len() as int) =~= terms@);
        remainder
    }

    /// Enforce `Σ rest + sign · left · right = 0` as the rank-1 equation
    /// `left · right = ∓ Σ rest`.
    fn enforce_product(
        &mut self,
        sign: Scalar,
        left: Expression,
        right: Expression,
        rest: &Vec<(Scalar, Expression)>,
    )
        requires
            old(self).ready(),
            unit_sign(sign),
            expr_below(left, old(self).assignment@.len()),
            expr_below(right, old(self).assignment@.len()),
            forall|i: int| 0 <= i < rest@.len() ==> #[trigger] expr_below(rest@[i].1, old(self).assignment@.len()),
        ensures
            final(self).ready(),
            final(self).extends(*old(self)),
            holds_from(final(self).constraints@, old(self).constraints@.len() as int, final(self).assignment@)
                <==> fadd(
                signed_sum(rest@, old(self).env()),
                fmul(sign@, fmul(expr_value(left, old(self).env()), expr_value(right, old(self).env()))),
            ) == 0,
    {
        let ghost start = *self;
        let l = self.lower(left);
        let ghost s1 = *self;
        proof {
            lemma_expr_below_grows(right, start.assignment@.len(), s1.assignment@.len());
            assert forall|i: int| 0 <= i < rest@.len() implies #[trigger] expr_below(rest@[i].1, s1.assignment@.len()) by {
                lemma_expr_below_grows(rest@[i].1, start.assignment@.len(), s1.assignment@.len());
            }
        }
        let r = self.lower(right);
        let ghost s2 = *self;
        proof {
            assert forall|i: int| 0 <= i < rest@.len() implies #[trigger] expr_below(rest@[i].1, s2.assignment@.len()) by {
                lemma_expr_below_grows(rest@[i].1, start.assignment@.len(), s2.assignment@.len());
            }
        }
        let remainder = self.lower_terms(rest);
        let ghost s3 = *self;
        let ghost remainder_g = remainder;
        let output = if sign.equals(&Scalar::one()) {
            remainder.negated()
        } else {
            remainder
        };
        let ghost l_terms = l.terms_view();
        let ghost r_terms = r.terms_view();
        let ghost o_terms = output.terms_view();
        let ghost output_g = output;
        let constraint = R1csConstraint::from_parts(l, r, output);
        self.constraints.push(constraint);
        proof {
            lemma_chain(start, s1, s2);
            lemma_chain(start, s2, s3);
            let e0 = start.env();
            let e1 = s1.env();
            let e2 = s2.env();
            let e3 = s3.env();
            lemma_prefix_agrees(s1.assignment@, s3.assignment@);
            lemma_prefix_agrees(s2.assignment@, s3.assignment@);
            lemma_prefix_agrees(start.assignment@, s1.assignment@);
            lemma_prefix_agrees(start.assignment@, s2.assignment@);
            lemma_lc_agrees(l_terms, e1, e3, s1.assignment@.len());
            lemma_lc_agrees(r_terms, e2, e3, s2.assignment@.len());
            lemma_lc_below_grows(l, s1.assignment@.len(), s3.assignment@.len());
            lemma_lc_below_grows(r, s2.assignment@.len(), s3.assignment@.len());
            lemma_expr_agrees(right, e0, e1, start.assignment@.len());
            lemma_signed_sum_agrees(rest@, e0, e2, start.assignment@.len());
            let lv = expr_value(left, e0);
            let rv = expr_value(right, e0);
            let p = fmul(lv, rv);
            let rem = signed_sum(rest@, e0);
            lemma_field_sum_canonical(rest@.map_values(|t: (Scalar, Expression)| signed_value(t, e0)));
            assert(lc_value(l_terms, e3) == lv);
            assert(lc_value(r_terms, e3) == rv);
            assert(remainder.value(e3) == rem);
            lemma_fmul_unit(p);
            lemma_fadd_commutes(rem, p);
            assert(remainder_g.value(e3) == rem);
            if sign@ == 1 {
                assert(output_g.value(e3) == fmul(fneg(1), remainder_g.value(e3)));
                assert(lc_value(o_terms, e3) == fmul(fneg(1), rem));
                lemma_minus_one_squared();
                lemma_fmul_associates(fneg(1), fneg(1), rem);
                lemma_fmul_unit(rem);
                lemma_difference_zero(p, fmul(fneg(1), rem));
            } else {
                assert(output_g == remainder_g);
                assert(lc_value(o_terms, e3) == rem);
                lemma_difference_zero(rem, p);
            }
            assert(self.assignment@ == s3.assignment@);
            assert(remainder_g.below(s3.assignment@.len()));
            assert(output_g.below(s3.assignment@.len()));
            assert(constraint.below(self.assignment@.len()));
            assert(constraint.a_terms() == l_terms && constraint.b_terms() == r_terms
                && constraint.c_terms() == o_terms);
            assert(field_values(self.assignment@) == e3);
            assert((fmul(lv, rv) == lc_value(o_terms, e3)) <==> (fadd(rem, fmul(sign@, p)) == 0));
            assert(constraint.satisfied_by(self.assignment@) <==> (fadd(rem, fmul(sign@, p)) == 0));
            assert forall|k: int| 0 <= k < self.constraints@.len() implies (#[trigger] self.constraints@[k]).below(
                self.assignment@.len(),
            ) by {
                if k < s3.constraints@.len() {
                    assert(self.constraints@[k] == s3.constraints@[k]);
                }
            }
            assert(self.constraints@.subrange(0, start.constraints@.len() as int) =~= start.constraints@) by {
                assert forall|k: int| 0 <= k < start.constraints@.len() implies self.constraints@[k]
                    == start.constraints@[k] by {
                    assert(self.constraints@[k] == s3.constraints@[k]);
                }
            }
            if holds_from(self.constraints@, start.constraints@.len() as int, self.assignment@) {
                assert(self.constraints@[self.constraints@.len() - 1] == constraint);
            }
            if constraint.satisfied_by(self.assignment@) {
                assert forall|k: int|
                    0 <= k && start.constraints@.len() <= k < self.constraints@.len() implies (#[trigger] self.constraints@[k]).satisfied_by(
                    self.assignment@,
                ) by {
                    if k < s3.constraints@.len() {
                        assert(self.constraints@[k] == s3.constraints@[k]);
                    }
                }
            }
        }
    }
}

impl Lowerer {
    /// Enforce `Σ sign_k · term_k = 0` as the rank-1 equation
    /// `(Σ sign_k · term_k) · 1 = 0`.
    fn enforce_linear(&mut self, terms: &Vec<(Scalar, Expression)>)
        requires
            old(self).ready(),
            forall|i: int| 0 <= i < terms@.len() ==> #[trigger] expr_below(terms@[i].1, old(self).assignment@.len()),
        ensures
            final(self).ready(),
            final(self).extends(*old(self)),
            holds_from(final(self).constraints@, old(self).constraints@.len() as int, final(self).assignment@)
                <==> signed_sum(terms@, old(self).env()) == 0,
    {
        let ghost start = *self;
        let ghost e0 = start.env();
        let mut sum = Expression::Constant(Scalar::zero());
        proof {
            assert(terms@.take(0) =~= Seq::<(Scalar, Expression)>::empty());
            let f = |t: (Scalar, Expression)| signed_value(t, e0);
            assert(Seq::<(Scalar, Expression)>::empty().map_values(f) =~= Seq::<nat>::empty());
        }
        let mut i: usize = 0;
        while i < terms.len()
            invariant
                i <= terms@.len(),
                e0 == start.env(),
                forall|j: int| 0 <= j < terms@.len() ==> #[trigger] expr_below(terms@[j].1, start.assignment@.len()),
                expr_below(sum, start.assignment@.len()),
                expr_value(sum, e0) == signed_sum(terms@.take(i as int), e0),
            decreases terms.len() - i,
        {
            let ghost before = sum;
            let term = terms[i].1.copy();
            let factor = Expression::Constant(terms[i].0);
            let product = factor.times(term);
            sum = sum.plus(product);
            proof {
                assert(product.value(e0) == fmul(factor.value(e0), term.value(e0)));
                assert(sum.value(e0) == fadd(before.value(e0), product.value(e0)));
                assert(term.within(start.assignment@.len()));
                assert(factor.within(start.assignment@.len()));
                assert(product.within(start.assignment@.len()));
                assert(before.within(start.assignment@.len()));
                assert(sum.within(start.assignment@.len()));
                assert(terms@.take(i + 1) =~= terms@.take(i as int).push(terms@[i as int]));
                lemma_signed_sum_push(terms@.take(i as int), terms@[i as int], e0);
            }
            i = i + 1;
        }
        assert(terms@.take(terms@.len() as int) =~= terms@);
        let linear = self.lower(sum);
        let ghost s1 = *self;
        let one = LinearCombination::one();
        let zero = LinearCombination::zero();
        let ghost l_terms = linear.terms_view();
        let ghost one_g = one;
        let ghost zero_g = zero;
        let constraint = R1csConstraint::from_parts(linear, one, zero);
        self.constraints.push(constraint);
        proof {
            let e1 = s1.env();
            let total = signed_sum(terms@, e0);
            assert(lc_value(l_terms, e1) == total);
            assert(e1[0] == 1);
            assert(one_g.value(e1) == e1[0] % modulus());
            assert(zero_g.value(e1) == 0);
            lemma_field_sum_canonical(terms@.map_values(|t: (Scalar, Expression)| signed_value(t, e0)));
            lemma_fmul_unit(total);
            lemma_lc_below_grows(one_g, 1, s1.assignment@.len());
            assert(constraint.below(self.assignment@.len()));
            assert(field_values(self.assignment@) == e1);
            assert(constraint.satisfied_by(self.assignment@) <==> total == 0);
            assert forall|k: int| 0 <= k < self.constraints@.len() implies (#[trigger] self.constraints@[k]).below(
                self.assignment@.len(),
            ) by {
                if k < s1.constraints@.len() {
                    assert(self.constraints@[k] == s1.constraints@[k]);
                }
            }
            assert(self.constraints@.subrange(0, start.constraints@.len() as int) =~= start.constraints@) by {
                assert forall|k: int| 0 <= k < start.constraints@.len() implies self.constraints@[k]
                    == start.constraints@[k] by {
                    assert(self.constraints@[k] == s1.constraints@[k]);
                }
            }
            if holds_from(self.constraints@, start.constraints@.len() as int, self.assignment@) {
                assert(self.constraints@[self.constraints@.len() - 1] == constraint);
            }
            if constraint.satisfied_by(self.assignment@) {
                assert forall|k: int|
                    0 <= k && start.constraints@.len() <= k < self.constraints@.len() implies (#[trigger] self.constraints@[k]).satisfied_by(
                    self.assignment@,
                ) by {
                    if k < s1.constraints@.len() {
                        assert(self.constraints@[k] == s1.constraints@[k]);
                    }
                }
            }
        }
    }

    /// Enforce that `expression` is zero: nothing for the constant zero;
    /// otherwise one rank-1 equation, with one product term of the flattened
    /// expression as its multiplicands when it has one.
    fn enforce_zero(&mut self, expression: Expression)
        requires
            old(self).ready(),
            expr_below(expression, old(self).assignment@.len()),
        ensures
            final(self).ready(),
            final(self).extends(*old(self)),
            holds_from(final(self).constraints@, old(self).constraints@.len() as int, final(self).assignment@)
                <==> expr_value(expression, old(self).env()) == 0,
            expression matches Expression::Constant(c) && c@ == 0 ==> *final(self) == *old(self),
    {
        let ghost start = *self;
        let ghost e0 = start.env();
        if let Some(value) = expression.constant_value() {
            if value.equals(&Scalar::zero()) {
                proof {
                    assert(self.assignment@.subrange(0, self.assignment@.len() as int) =~= self.assignment@);
                    assert(self.constraints@.subrange(0, self.constraints@.len() as int) =~= self.constraints@);
                }
                return;
            }
        }
        let mut terms: Vec<(Scalar, Expression)> = Vec::new();
        let ghost e = expression;
        flatten_terms(expression, Scalar::one(), &mut terms);
        proof {
            assert(terms@.subrange(0, terms@.len() as int) =~= terms@);
            assert(signed_sum(terms@, e0) == fmul(1, expr_value(e, e0)));
            lemma_expr_canonical(e, e0);
            lemma_fmul_unit(expr_value(e, e0));
            assert forall|i: int| 0 <= i < terms@.len() implies #[trigger] expr_below(terms@[i].1, start.assignment@.len()) by {
                assert(expr_below(e, start.assignment@.len()));
            }
        }
        match position_of_product(&terms) {
            Some(index) => {
                let ghost all = terms@;
                let (sign, product) = terms.remove(index);
                proof {
                    lemma_signed_sum_remove(all, index as int, e0);
                    assert(terms@ == all.remove(index as int));
                    assert forall|i: int| 0 <= i < terms@.len() implies #[trigger] expr_below(terms@[i].1, start.assignment@.len()) by {
                        if i < index {
                            assert(terms@[i] == all[i]);
                        } else {
                            assert(terms@[i] == all[i + 1]);
                        }
                    }
                    assert(expr_below(product, start.assignment@.len()));
                }
                match product {
                    Expression::Mul(left, right) => {
                        self.enforce_product(sign, *left, *right, &terms);
                    },
                    _ => {
                        proof {
                            assert(all[index as int].1 is Mul);
                        }
                    },
                }
            },
            None => {
                self.enforce_linear(&terms);
            },
        }
    }
}

/// How many of the first `row` flags are set.
pub open spec fn flagged_before(flags: Seq<bool>, row: nat) -> nat
    decreases row,
{
    if row == 0 {
        0
    } else {
        flagged_before(flags, (row - 1) as nat) + if flags[row - 1] {
            1nat
        } else {
            0nat
        }
    }
}

proof fn lemma_flagged_monotone(flags: Seq<bool>, a: nat, b: nat)
    requires
        a <= b,
    ensures
        flagged_before(flags, a) <= flagged_before(flags, b),
    decreases b,
{
    if a < b {
        lemma_flagged_monotone(flags, a, (b - 1) as nat);
    }
}

/// The field values a row's wires read, where witness `w` of a circuit with
/// `p` public inputs is rank-1 variable `1 + p + w`.
pub open spec fn lowered_wires(g: GateModel, env: Seq<nat>, p: nat) -> WireValues<nat> {
    WireValues {
        a: env[1int + p + g.a] % modulus(),
        b: env[1int + p + g.b] % modulus(),
        c: env[1int + p + g.c] % modulus(),
        d: env[1int + p + g.d] % modulus(),
    }
}

/// The identity values of row `row` under the rank-1 variable values `env`:
/// the row's public input is variable `1 + k` for the `k`-th public row, and
/// the next row follows the padded-domain rule of [`next_row`].
pub open spec fn lowered_row_identities(
    gates: Seq<GateModel>,
    flags: Seq<bool>,
    env: Seq<nat>,
    p: nat,
    row: nat,
) -> Seq<nat> {
    let n = gates.len();
    let next = next_row(row, n);
    let current = lowered_wires(gates[row as int], env, p);
    let following = if next < n {
        lowered_wires(gates[next as int], env, p)
    } else {
        WireValues { a: 0, b: 0, c: 0, d: 0 }
    };
    let pi = if flags[row as int] {
        env[1int + flagged_before(flags, row)] % modulus()
    } else {
        0
    };
    identities(gates[row as int], current, following, pi)
}

/// Every identity of every row vanishes.
pub open spec fn rows_vanish(gates: Seq<GateModel>, flags: Seq<bool>, env: Seq<nat>, p: nat) -> bool {
    forall|row: nat, i: int|
        row < gates.len() && 0 <= i < 17 ==> #[trigger] lowered_row_identities(gates, flags, env, p, row)[i]
            == 0
}

/// One composer row as the rank-1 backend keeps it.
#[derive(Clone, Copy)]
pub(crate) struct Row {
    pub(crate) gate: Gate,
    pub(crate) has_public_input: bool,
}

/// The gates of a row sequence.
pub(crate) open spec fn row_gates(rows: Seq<Row>) -> Seq<GateModel> {
    rows.map_values(|r: Row| r.gate.model())
}

/// The public-input flags of a row sequence.
pub(crate) open spec fn row_flags(rows: Seq<Row>) -> Seq<bool> {
    rows.map_values(|r: Row| r.has_public_input)
}

/// Every wire of every gate is below `n`.
pub open spec fn gates_within(gates: Seq<GateModel>, n: nat) -> bool {
    forall|i: int|
        0 <= i < gates.len() ==> (#[trigger] gates[i]).a < n && gates[i].b < n && gates[i].c < n
            && gates[i].d < n
}

fn variable_of(index: usize) -> (r: Expression)
    ensures
        r matches Expression::Variable(v) && v.index() == index,
{
    Expression::Variable(Variable::new(index))
}

fn wire_values(gate: &Gate, public_inputs: usize) -> (r: WireValues<Expression>)
    requires
        1 + public_inputs + gate.model().a <= usize::MAX,
        1 + public_inputs + gate.model().b <= usize::MAX,
        1 + public_inputs + gate.model().c <= usize::MAX,
        1 + public_inputs + gate.model().d <= usize::MAX,
    ensures
        forall|env: Seq<nat>|
            #[trigger] crate::identities::wire_values_at(r, env) == lowered_wires(
                gate.model(),
                env,
                public_inputs as nat,
            ),
        forall|n: nat|
            1 + public_inputs + gate.model().a < n && 1 + public_inputs + gate.model().b < n && 1
                + public_inputs + gate.model().c < n && 1 + public_inputs + gate.model().d < n
                ==> #[trigger] crate::identities::wires_within(r, n),
{
    let wires = gate.wires();
    WireValues::new(
        variable_of(1 + public_inputs + wires[0].index()),
        variable_of(1 + public_inputs + wires[1].index()),
        variable_of(1 + public_inputs + wires[2].index()),
        variable_of(1 + public_inputs + wires[3].index()),
    )
}

fn zero_wire_values() -> (r: WireValues<Expression>)
    ensures
        forall|env: Seq<nat>|
            #[trigger] crate::identities::wire_values_at(r, env) == (WireValues::<nat> { a: 0, b: 0, c: 0, d: 0 }),
        forall|n: nat| #[trigger] crate::identities::wires_within(r, n),
{
    let zero = Scalar::zero();
    WireValues::new(
        Expression::Constant(zero),
        Expression::Constant(zero),
        Expression::Constant(zero),
        Expression::Constant(zero),
    )
}

fn count_public_rows(rows: &[Row]) -> (r: usize)
    ensures
        r == flagged_before(row_flags(rows@), rows@.len()),
{
    let mut count: usize = 0;
    let mut i: usize = 0;
    while i < rows.len()
        invariant
            i <= rows@.len(),
            count == flagged_before(row_flags(rows@), i as nat),
            count <= i,
        decreases rows.len() - i,
    {
        if rows[i].has_public_input {
            count = count + 1;
        }
        i = i + 1;
    }
    count
}

proof fn lemma_holds_split(cs: Seq<R1csConstraint>, m: int, v: Seq<Scalar>)
    requires
        0 <= m <= cs.len(),
    ensures
        holds_from(cs, 0, v) <==> (holds_from(cs.subrange(0, m), 0, v) && holds_from(cs, m, v)),
{
    if holds_from(cs.subrange(0, m), 0, v) && holds_from(cs, m, v) {
        assert forall|k: int| 0 <= k && 0 <= k < cs.len() implies (#[trigger] cs[k]).satisfied_by(v) by {
            if k < m {
                assert(cs.subrange(0, m)[k] == cs[k]);
            }
        }
    }
    if holds_from(cs, 0, v) {
        assert forall|k: int| 0 <= k && 0 <= k < m implies (#[trigger] cs.subrange(0, m)[k]).satisfied_by(v) by {
            assert(cs.subrange(0, m)[k] == cs[k]);
        }
    }
}

/// Every identity of the rows before `upto` vanishes.
pub open spec fn rows_vanish_upto(
    gates: Seq<GateModel>,
    flags: Seq<bool>,
    env: Seq<nat>,
    p: nat,
    upto: nat,
) -> bool {
    forall|row: nat, i: int|
        row < upto && 0 <= i < 17 ==> #[trigger] lowered_row_identities(gates, flags, env, p, row)[i]
            == 0
}

/// `v` starts with one, then the public values, then the witness values.
pub open spec fn r1cs_layout(v: Seq<Scalar>, publics: Seq<Scalar>, witnesses: Seq<Scalar>) -> bool {
    &&& v.len() >= 1 + publics.len() + witnesses.len()
    &&& v[0]@ == 1
    &&& v.subrange(1, 1int + publics.len()) == publics
    &&& v.subrange(1int + publics.len(), 1int + publics.len() + witnesses.len()) == witnesses
}

fn initial_assignment(public_values: &[Scalar], witnesses: &[Scalar]) -> (r: Vec<Scalar>)
    requires
        1 + public_values@.len() + witnesses@.len() <= usize::MAX,
    ensures
        r@.len() == 1 + public_values@.len() + witnesses@.len(),
        r1cs_layout(r@, public_values@, witnesses@),
{
    let mut assignment: Vec<Scalar> = Vec::new();
    assignment.push(Scalar::one());
    let mut i: usize = 0;
    while i < public_values.len()
        invariant
            i <= public_values@.len(),
            assignment@.len() == 1 + i,
            assignment@[0]@ == 1,
            assignment@.subrange(1, 1 + i) == public_values@.subrange(0, i as int),
        decreases public_values.len() - i,
    {
        assignment.push(public_values[i]);
        i = i + 1;
        assert(assignment@.subrange(1, 1 + i) =~= public_values@.subrange(0, i as int));
    }
    let mut j: usize = 0;
    while j < witnesses.len()
        invariant
            i == public_values@.len(),
            j <= witnesses@.len(),
            assignment@.len() == 1 + i + j,
            assignment@[0]@ == 1,
            assignment@.subrange(1, 1 + i) == public_values@.subrange(0, i as int),
            assignment@.subrange(1 + i, 1 + i + j) == witnesses@.subrange(0, j as int),
        decreases witnesses.len() - j,
    {
        let ghost before = assignment@;
        assignment.push(witnesses[j]);
        j = j + 1;
        assert(assignment@.subrange(1, 1 + i) =~= before.subrange(1, 1 + i));
        assert(assignment@.subrange(1 + i, 1 + i + j) =~= witnesses@.subrange(0, j as int));
    }
    assert(public_values@.subrange(0, public_values@.len() as int) =~= public_values@);
    assert(witnesses@.subrange(0, witnesses@.len() as int) =~= witnesses@);
    assignment
}

/// Lower every identity of every row into rank-1 equations over the
/// assignment `(1, public inputs, witnesses, auxiliaries)`.
pub(crate) fn lower_rows(rows: &[Row], public_values: &[Scalar], witnesses: &[Scalar]) -> (r: R1csCircuit)
    requires
        public_values@.len() == flagged_before(row_flags(rows@), rows@.len()),
        gates_within(row_gates(rows@), witnesses@.len()),
        1 + public_values@.len() + witnesses@.len() <= usize::MAX,
    ensures
        r1cs_layout(r.assignment_view().value_seq(), public_values@, witnesses@),
        r.shape_view().variable_count() == r.assignment_view().value_seq().len(),
        r.shape_view().public_count() == public_values@.len(),
        tidy(r.shape_view().equations(), r.shape_view().variable_count() as nat),
        all_satisfied(r.shape_view().equations(), r.assignment_view().value_seq()) <==> rows_vanish(
            row_gates(rows@),
            row_flags(rows@),
            field_values(
                r.assignment_view().value_seq().subrange(
                    0,
                    1int + public_values@.len() + witnesses@.len(),
                ),
            ),
            public_values@.len(),
        ),
{
    let public_inputs = count_public_rows(rows);
    let assignment = initial_assignment(public_values, witnesses);
    let ghost init = assignment@;
    let ghost e0 = field_values(init);
    let ghost gates = row_gates(rows@);
    let ghost flags = row_flags(rows@);
    let ghost p = public_inputs as nat;
    let mut lowerer = Lowerer { constraints: Vec::new(), assignment };
    proof {
        assert(init.subrange(0, init.len() as int) =~= init);
    }
    let n = rows.len();
    let wraps = n > 0 && power_of_two(n);
    let mut public_index: usize = 0;
    let mut row_index: usize = 0;
    while row_index < n
        invariant
            n == rows@.len(),
            row_index <= n,
            wraps == (n > 0 && crate::plonkish::is_power_of_two(n as nat)),
            gates == row_gates(rows@),
            flags == row_flags(rows@),
            p == public_inputs,
            public_inputs == public_values@.len(),
            p == flagged_before(flags, n as nat),
            gates_within(gates, witnesses@.len()),
            1 + public_values@.len() + witnesses@.len() <= usize::MAX,
            init.len() == 1 + public_values@.len() + witnesses@.len(),
            e0 == field_values(init),
            lowerer.ready(),
            lowerer.assignment@.len() >= init.len(),
            lowerer.assignment@.subrange(0, init.len() as int) == init,
            public_index == flagged_before(flags, row_index as nat),
            holds_from(lowerer.constraints@, 0, lowerer.assignment@) <==> rows_vanish_upto(
                gates,
                flags,
                e0,
                p,
                row_index as nat,
            ),
        decreases n - row_index,
    {
        let row = rows[row_index];
        proof {
            assert(gates[row_index as int] == row.gate.model());
            assert(flags[row_index as int] == row.has_public_input);
            lemma_flagged_monotone(flags, (row_index + 1) as nat, n as nat);
        }
        let current = wire_values(&row.gate, public_inputs);
        let next = if row_index + 1 < n {
            proof {
                assert(gates[row_index + 1] == rows@[row_index + 1].gate.model());
            }
            wire_values(&rows[row_index + 1].gate, public_inputs)
        } else if wraps {
            proof {
                assert(gates[0] == rows@[0].gate.model());
            }
            wire_values(&rows[0].gate, public_inputs)
        } else {
            zero_wire_values()
        };
        let public = if row.has_public_input {
            let expression = variable_of(1 + public_index);
            public_index = public_index + 1;
            expression
        } else {
            Expression::Constant(Scalar::zero())
        };
        let ghost row_public = public;
        let ghost pi = if flags[row_index as int] {
            e0[1int + flagged_before(flags, row_index as nat)] % modulus()
        } else {
            0
        };
        let ghost identity_values = lowered_row_identities(gates, flags, e0, p, row_index as nat);
        let ghost current_g = current;
        let ghost next_g = next;
        proof {
            assert(public.value(e0) == pi);
            assert(crate::identities::wires_within(current, init.len()));
            assert(crate::identities::wires_within(next, init.len()));
            assert(public.within(init.len()));
            assert(crate::identities::wire_values_at(current, e0) == lowered_wires(gates[row_index as int], e0, p));
            let nx = next_row(row_index as nat, n as nat);
            if nx < n {
                assert(crate::identities::wire_values_at(next, e0) == lowered_wires(gates[nx as int], e0, p));
            } else {
                assert(crate::identities::wire_values_at(next, e0) == (WireValues::<nat> { a: 0, b: 0, c: 0, d: 0 }));
            }
        }
        let ids = evaluate(&row.gate, current, next, public);
        proof {
            assert forall|i: int| 0 <= i < 17 implies #[trigger] ids@[i].value(e0) == identity_values[i] by {}
            assert forall|i: int| 0 <= i < 17 implies #[trigger] expr_below(ids@[i], init.len()) by {
                assert(ids@[i].within(init.len()));
            }
        }
        let ghost row_start = lowerer;
        let mut i: usize = 0;
        while i < ids.len()
            invariant
                ids@.len() == 17,
                i <= 17,
                init.len() == 1 + public_values@.len() + witnesses@.len(),
                e0 == field_values(init),
                lowerer.ready(),
                lowerer.assignment@.len() >= init.len(),
                lowerer.assignment@.subrange(0, init.len() as int) == init,
                forall|t: int| 0 <= t < 17 ==> #[trigger] ids@[t].value(e0) == identity_values[t],
                forall|t: int| 0 <= t < 17 ==> #[trigger] expr_below(ids@[t], init.len()),
                holds_from(lowerer.constraints@, 0, lowerer.assignment@) <==> (rows_vanish_upto(
                    gates,
                    flags,
                    e0,
                    p,
                    row_index as nat,
                ) && forall|t: int| 0 <= t < i ==> #[trigger] identity_values[t] == 0),
            decreases 17 - i,
        {
            let ghost before = lowerer;
            let identity = ids[i].copy();
            proof {
                assert(ids@[i as int].within(init.len()));
                lemma_expr_below_grows(identity, init.len(), lowerer.assignment@.len());
            }
            lowerer.enforce_zero(identity);
            proof {
                let v0 = before.assignment@;
                let v1 = lowerer.assignment@;
                assert(init.is_prefix_of(v0));
                lemma_prefix_agrees(init, v0);
                lemma_expr_agrees(identity, e0, field_values(v0), init.len());
                lemma_holds_agrees(before.constraints@, 0, v0, v1);
                lemma_holds_split(lowerer.constraints@, before.constraints@.len() as int, v1);
                assert(lowerer.constraints@.subrange(0, before.constraints@.len() as int) == before.constraints@);
                assert(identity == ids@[i as int]);
                assert(ids@[i as int].value(e0) == identity_values[i as int]);
                assert(expr_value(identity, e0) == identity_values[i as int]);
                assert(expr_value(identity, field_values(v0)) == identity_values[i as int]);
                let old_all = forall|t: int| 0 <= t < i ==> #[trigger] identity_values[t] == 0;
                let new_all = forall|t: int| 0 <= t < i + 1 ==> #[trigger] identity_values[t] == 0;
                if old_all && identity_values[i as int] == 0 {
                    assert forall|t: int| 0 <= t < i + 1 implies #[trigger] identity_values[t] == 0 by {
                        if t < i {
                        }
                    }
                }
                assert(new_all <==> (old_all && identity_values[i as int] == 0));
                assert(v1.subrange(0, init.len() as int) =~= init) by {
                    assert forall|k: int| 0 <= k < init.len() implies v1[k] == init[k] by {
                        assert(v1[k] == v0[k]);
                        assert(v0.subrange(0, init.len() as int)[k] == init[k]);
                    }
                }
            }
            i = i + 1;
        }
        proof {
            assert(rows_vanish_upto(gates, flags, e0, p, (row_index + 1) as nat) <==> (rows_vanish_upto(
                gates,
                flags,
                e0,
                p,
                row_index as nat,
            ) && forall|t: int| 0 <= t < 17 ==> #[trigger] identity_values[t] == 0)) by {
                if rows_vanish_upto(gates, flags, e0, p, row_index as nat) && forall|t: int|
                    0 <= t < 17 ==> #[trigger] identity_values[t] == 0 {
                    assert forall|row: nat, t: int| row < row_index + 1 && 0 <= t < 17 implies #[trigger] lowered_row_identities(
                        gates,
                        flags,
                        e0,
                        p,
                        row,
                    )[t] == 0 by {
                        if row == row_index {
                            assert(identity_values[t] == 0);
                        }
                    }
                }
            }
        }
        row_index = row_index + 1;
    }
    let variables = lowerer.assignment.len();
    let Lowerer { constraints, assignment } = lowerer;
    let ghost final_values = assignment@;
    let shape = R1csShape::new(constraints, variables, public_inputs);
    let values = R1csAssignment::new(assignment);
    proof {
        assert(final_values.subrange(0, init.len() as int) == init);
        assert(r1cs_layout(final_values, public_values@, witnesses@)) by {
            assert(final_values.subrange(1, 1int + public_values@.len()) =~= init.subrange(1, 1int + public_values@.len()));
            assert(final_values.subrange(1int + public_values@.len(), 1int + public_values@.len() + witnesses@.len())
                =~= init.subrange(1int + public_values@.len(), 1int + public_values@.len() + witnesses@.len()));
            assert(final_values[0] == init[0]);
        }
        assert(rows_vanish(gates, flags, e0, p) == rows_vanish_upto(gates, flags, e0, p, n as nat));
    }
    R1csCircuit::new(shape, values)
}

/// The gates of emitted constraints.
pub open spec fn emitted_gates(cs: Seq<Constraint>) -> Seq<GateModel> {
    cs.map_values(|c: Constraint| constraint_gate(c))
}

/// The public-input flags of emitted constraints.
pub open spec fn emitted_flags(cs: Seq<Constraint>) -> Seq<bool> {
    cs.map_values(|c: Constraint| c.public_flag())
}

/// Backend that lowers Composer rows into rank-1 equations.
pub struct R1cs {
    rows: Vec<Row>,
    history: Ghost<Seq<Constraint>>,
}

impl R1cs {
    /// Row `i` keeps the selectors, wires and public flag of the `i`-th constraint.
    #[verifier::type_invariant]
    closed spec fn wf(self) -> bool {
        &&& self.rows@.len() == self.history@.len()
        &&& forall|i: int|
            0 <= i < self.rows@.len() ==> (#[trigger] self.rows@[i]).gate.model() == constraint_gate(
                self.history@[i],
            ) && self.rows@[i].has_public_input == self.history@[i].public_flag()
    }

    fn empty() -> (r: R1cs)
        ensures
            r.history@.len() == 0,
    {
        R1cs { rows: Vec::new(), history: Ghost(Seq::empty()) }
    }

    fn push_row(&mut self, constraint: &Constraint)
        ensures
            final(self).history@ == old(self).history@.push(*constraint),
    {
        proof {
            use_type_invariant(&*self);
        }
        let mut taken = R1cs::empty();
        std::mem::swap(self, &mut taken);
        proof {
            use_type_invariant(&taken);
        }
        let R1cs { mut rows, history } = taken;
        rows.push(Row { gate: Gate::from_constraint(constraint), has_public_input: constraint.has_public_input() });
        *self = R1cs { rows, history: Ghost(history@.push(*constraint)) };
    }

    /// The rows, with their gates and flags those of the emitted constraints.
    fn row_view(&self) -> (r: &Vec<Row>)
        ensures
            row_gates(r@) == emitted_gates(self.history@),
            row_flags(r@) == emitted_flags(self.history@),
    {
        proof {
            use_type_invariant(self);
            assert(row_gates(self.rows@) =~= emitted_gates(self.history@));
            assert(row_flags(self.rows@) =~= emitted_flags(self.history@));
        }
        &self.rows
    }
}

impl Clone for R1cs {
    fn clone(&self) -> (r: R1cs)
        ensures
            r.emitted() == self.emitted(),
    {
        proof {
            use_type_invariant(self);
        }
        let mut rows: Vec<Row> = Vec::new();
        let mut i: usize = 0;
        while i < self.rows.len()
            invariant
                i <= self.rows@.len(),
                rows@ == self.rows@.subrange(0, i as int),
            decreases self.rows.len() - i,
        {
            rows.push(self.rows[i]);
            i = i + 1;
            assert(rows@ =~= self.rows@.subrange(0, i as int));
        }
        assert(rows@ =~= self.rows@);
        R1cs { rows, history: Ghost(self.history@) }
    }
}

impl ComposerBackend for R1cs {
    closed spec fn emitted(&self) -> Seq<Constraint> {
        self.history@
    }

    fn new() -> (r: Self) {
        R1cs::empty()
    }

    /// The number of rank-1 equations the rows lower to, with every witness
    /// and public value zero.
    fn constraints(&self) -> (r: usize)
        ensures
            self.emitted().len() == 0 ==> r == 0,
    {
        let rows = self.row_view();
        if rows.len() == 0 {
            return 0;
        }
        proof {
            assert(row_gates(rows@).len() == rows@.len());
            assert(emitted_gates(self.emitted()).len() == self.emitted().len());
        }
        let mut witness_count: usize = 0;
        let mut i: usize = 0;
        while i < rows.len()
            invariant
                i <= rows@.len(),
                witness_count <= usize::MAX / 64,
                gates_within(row_gates(rows@.subrange(0, i as int)), witness_count as nat),
            decreases rows.len() - i,
        {
            let wires = rows[i].gate.wires();
            let mut k: usize = 0;
            while k < 4
                invariant
                    k <= 4,
                    witness_count <= usize::MAX / 64,
                    gates_within(row_gates(rows@.subrange(0, i as int)), witness_count as nat),
                    forall|t: int| 0 <= t < k ==> (#[trigger] wires@[t]).index() < witness_count,
                decreases 4 - k,
            {
                let index = wires[k].index();
                // A zero assignment for this many witnesses cannot be allocated.
                if index >= usize::MAX / 64 {
                    return 0;
                }
                if index + 1 > witness_count {
                    witness_count = index + 1;
                }
                k = k + 1;
            }
            proof {
                let g = rows@[i as int].gate.model();
                assert(wires@[0].index() == g.a);
                assert(wires@[3].index() == g.d);
                assert forall|t: int| 0 <= t < i + 1 implies (#[trigger] row_gates(rows@.subrange(0, i + 1))[t]).a
                    < witness_count && row_gates(rows@.subrange(0, i + 1))[t].b < witness_count && row_gates(
                    rows@.subrange(0, i + 1),
                )[t].c < witness_count && row_gates(rows@.subrange(0, i + 1))[t].d < witness_count by {
                    if t < i {
                        assert(row_gates(rows@.subrange(0, i + 1))[t] == row_gates(rows@.subrange(0, i as int))[t]);
                    }
                }
            }
            i = i + 1;
        }
        assert(rows@.subrange(0, rows@.len() as int) =~= rows@);
        let public_inputs = count_public_rows(rows.as_slice());
        // A zero assignment for this many public inputs cannot be allocated.
        if public_inputs >= usize::MAX / 64 {
            return 0;
        }
        let zero = Scalar::zero();
        let mut public_values: Vec<Scalar> = Vec::new();
        let mut j: usize = 0;
        while j < public_inputs
            invariant
                j <= public_inputs,
                public_values@.len() == j,
            decreases public_inputs - j,
        {
            public_values.push(zero);
            j = j + 1;
        }
        let mut witnesses: Vec<Scalar> = Vec::new();
        let mut w: usize = 0;
        while w < witness_count
            invariant
                w <= witness_count,
                witnesses@.len() == w,
            decreases witness_count - w,
        {
            witnesses.push(zero);
            w = w + 1;
        }
        proof {
            assert(public_inputs <= rows@.len()) by {
                lemma_flagged_bounded(row_flags(rows@), rows@.len());
            }
        }
        let lowered = lower_rows(rows.as_slice(), public_values.as_slice(), witnesses.as_slice());
        lowered.shape().constraints().len()
    }

    fn append_constraint(&mut self, constraint: &Constraint) {
        self.push_row(constraint);
    }

    /// The rank-1 backend adds nothing at initialization.
    open spec fn initialization(before: Composer<Self>, after: Composer<Self>) -> bool {
        after == before
    }

    fn initialize(composer: &mut Composer<Self>) {
    }
}

proof fn lemma_flagged_bounded(flags: Seq<bool>, n: nat)
    ensures
        flagged_before(flags, n) <= n,
    decreases n,
{
    if n > 0 {
        lemma_flagged_bounded(flags, (n - 1) as nat);
    }
}

/// Whether every wire of every row is below `n`.
fn rows_within(rows: &[Row], n: usize) -> (r: bool)
    ensures
        r == gates_within(row_gates(rows@), n as nat),
{
    let mut i: usize = 0;
    while i < rows.len()
        invariant
            i <= rows@.len(),
            gates_within(row_gates(rows@.take(i as int)), n as nat),
        decreases rows.len() - i,
    {
        let gate = &rows[i].gate;
        if gate.a().index() >= n || gate.b().index() >= n || gate.c().index() >= n
            || gate.d().index() >= n {
            proof {
                assert(row_gates(rows@)[i as int] == rows@[i as int].gate.model());
            }
            return false;
        }
        proof {
            assert forall|t: int| 0 <= t < i + 1 implies {
                let g = #[trigger] row_gates(rows@.take(i + 1))[t];
                g.a < n && g.b < n && g.c < n && g.d < n
            } by {
                assert(row_gates(rows@.take(i + 1))[t] == rows@[t].gate.model());
                if t < i {
                    assert(row_gates(rows@.take(i as int))[t] == rows@[t].gate.model());
                }
            }
        }
        i = i + 1;
    }
    proof {
        assert(rows@.take(rows@.len() as int) =~= rows@);
    }
    true
}

impl Composer<R1cs> {
    /// Finalize the current Composer into a rank-1 shape and assignment.
    /// Whether the Composer can be lowered: its public values are exactly
    /// one per public row and every gate wire is an allocated witness.
    pub fn lowerable(&self) -> (r: bool)
        ensures
            r == (self.public_values().len() == flagged_before(
                emitted_flags(self.emitted()),
                self.emitted().len(),
            ) && gates_within(emitted_gates(self.emitted()), self.assignment().len())
                && 1 + self.public_values().len() + self.assignment().len() <= usize::MAX),
    {
        let rows = self.backend().row_view();
        let public_values = self.public_inputs();
        let witnesses = self.witnesses();
        proof {
            assert(row_flags(rows@).len() == rows@.len());
            assert(emitted_flags(self.emitted()).len() == self.emitted().len());
            assert(rows@.len() == self.emitted().len());
        }
        if public_values.len() != count_public_rows(rows.as_slice()) {
            return false;
        }
        if !rows_within(rows.as_slice(), witnesses.len()) {
            return false;
        }
        public_values.len() < usize::MAX && witnesses.len() < usize::MAX - public_values.len()
    }

    ///
    /// Assignment order is constant one, public inputs in emission order,
    /// Composer witnesses, and symbolic-lowering auxiliary products. The
    /// equations are satisfied exactly when every gate identity of every row
    /// vanishes on the composer's values.
    pub fn to_r1cs(&self) -> (r: R1csCircuit)
        requires
            self.public_values().len() == flagged_before(
                emitted_flags(self.emitted()),
                self.emitted().len(),
            ),
            gates_within(emitted_gates(self.emitted()), self.assignment().len()),
            1 + self.public_values().len() + self.assignment().len() <= usize::MAX,
        ensures
            r1cs_layout(r.assignment_view().value_seq(), self.public_values(), self.assignment()),
            r.shape_view().variable_count() == r.assignment_view().value_seq().len(),
            r.shape_view().public_count() == self.public_values().len(),
            tidy(r.shape_view().equations(), r.shape_view().variable_count() as nat),
            all_satisfied(r.shape_view().equations(), r.assignment_view().value_seq()) <==> rows_vanish(
                emitted_gates(self.emitted()),
                emitted_flags(self.emitted()),
                field_values(
                    r.assignment_view().value_seq().subrange(
                        0,
                        1int + self.public_values().len() + self.assignment().len(),
                    ),
                ),
                self.public_values().len(),
            ),
    {
        let rows = self.backend().row_view();
        let public_values = self.public_inputs();
        let witnesses = self.witnesses();
        lower_rows(rows.as_slice(), public_values.as_slice(), witnesses)
    }

    /// Consume the Composer and finalize it into rank-1 form, with the same
    /// result as [`Self::to_r1cs`].
    pub fn into_r1cs(self) -> (r: R1csCircuit)
        requires
            self.public_values().len() == flagged_before(
                emitted_flags(self.emitted()),
                self.emitted().len(),
            ),
            gates_within(emitted_gates(self.emitted()), self.assignment().len()),
            1 + self.public_values().len() + self.assignment().len() <= usize::MAX,
        ensures
            r1cs_layout(r.assignment_view().value_seq(), self.public_values(), self.assignment()),
            r.shape_view().variable_count() == r.assignment_view().value_seq().len(),
            r.shape_view().public_count() == self.public_values().len(),
            tidy(r.shape_view().equations(), r.shape_view().variable_count() as nat),
            all_satisfied(r.shape_view().equations(), r.assignment_view().value_seq()) <==> rows_vanish(
                emitted_gates(self.emitted()),
                emitted_flags(self.emitted()),
                field_values(
                    r.assignment_view().value_seq().subrange(
                        0,
                        1int + self.public_values().len() + self.assignment().len(),
                    ),
                ),
                self.public_values().len(),
            ),
    {
        self.to_r1cs()
    }
}

/// A Composer can be lowered: its public values are exactly one per public
/// row, every gate wire is an allocated witness, and the assignment fits in
/// memory.
pub open spec fn lowerable_state(composer: Composer<R1cs>) -> bool {
    &&& composer.public_values().len() == flagged_before(
        emitted_flags(composer.emitted()),
        composer.emitted().len(),
    )
    &&& gates_within(emitted_gates(composer.emitted()), composer.assignment().len())
    &&& 1 + composer.public_values().len() + composer.assignment().len() <= usize::MAX
}

/// `c` is a rank-1 form of `composer`: the assignment is laid out as
/// `(1, public values, witnesses, auxiliaries)`, the shape is tidy, and the
/// assignment satisfies it exactly when the composer's rows vanish.
pub open spec fn lowered_from(composer: Composer<R1cs>, c: R1csCircuit) -> bool {
    &&& r1cs_layout(c.assignment_view().value_seq(), composer.public_values(), composer.assignment())
    &&& c.shape_view().variable_count() == c.assignment_view().value_seq().len()
    &&& c.shape_view().public_count() == composer.public_values().len()
    &&& tidy(c.shape_view().equations(), c.shape_view().variable_count() as nat)
    &&& all_satisfied(c.shape_view().equations(), c.assignment_view().value_seq()) <==> rows_vanish(
        emitted_gates(composer.emitted()),
        emitted_flags(composer.emitted()),
        field_values(
            c.assignment_view().value_seq().subrange(
                0,
                1int + composer.public_values().len() + composer.assignment().len(),
            ),
        ),
        composer.public_values().len(),
    )
}

/// The public values are those of the public rows, in row order.
pub open spec fn publics_of_rows(cs: Seq<Constraint>, publics: Seq<Scalar>) -> bool {
    &&& publics.len() == flagged_before(emitted_flags(cs), cs.len())
    &&& forall|row: int|
        0 <= row < cs.len() && #[trigger] cs[row].public_flag() ==> publics[flagged_before(
            emitted_flags(cs),
            row as nat,
        ) as int] == cs[row].coeffs()[6]
}

/// The two backends agree. For constraints whose wires are all allocated,
/// whose public values are those of the public rows in order, and a rank-1
/// assignment laid out as `(1, public values, witnesses, ...)`, every
/// PLONKish row identity vanishes exactly when every lowered row identity
/// vanishes.
pub proof fn lemma_backends_agree(
    cs: Seq<Constraint>,
    assignment: Seq<Scalar>,
    publics: Seq<Scalar>,
    values: Seq<Scalar>,
)
    requires
        publics_of_rows(cs, publics),
        gates_within(emitted_gates(cs), assignment.len()),
        r1cs_layout(values, publics, assignment),
    ensures
        crate::plonkish::all_rows_satisfied(cs, assignment) <==> rows_vanish(
            emitted_gates(cs),
            emitted_flags(cs),
            field_values(values.subrange(0, 1int + publics.len() + assignment.len())),
            publics.len(),
        ),
{
    let gates = emitted_gates(cs);
    let flags = emitted_flags(cs);
    let p = publics.len();
    let env = field_values(values.subrange(0, 1int + publics.len() + assignment.len()));
    let n = cs.len();
    assert forall|row: nat| row < n implies #[trigger] crate::plonkish::row_identities(
        cs,
        assignment,
        row,
    ) == Some(lowered_row_identities(gates, flags, env, p, row)) by {
        let g = gates[row as int];
        assert(g == constraint_gate(cs[row as int]));
        assert forall|w: nat| w < assignment.len() implies env[1int + p + w] % modulus() == assignment[w as int]@ by {
            assert(values.subrange(1int + p, 1int + p + assignment.len())[w as int] == assignment[w as int]);
            vstd::arithmetic::div_mod::lemma_small_mod(assignment[w as int]@, modulus());
        }
        assert(env[1int + p + g.a] % modulus() == assignment[g.a as int]@);
        assert(env[1int + p + g.b] % modulus() == assignment[g.b as int]@);
        assert(env[1int + p + g.c] % modulus() == assignment[g.c as int]@);
        assert(env[1int + p + g.d] % modulus() == assignment[g.d as int]@);
        let next = next_row(row, n);
        if next < n {
            let h = gates[next as int];
            assert(h == constraint_gate(cs[next as int]));
            assert(env[1int + p + h.a] % modulus() == assignment[h.a as int]@);
            assert(env[1int + p + h.b] % modulus() == assignment[h.b as int]@);
            assert(env[1int + p + h.c] % modulus() == assignment[h.c as int]@);
            assert(env[1int + p + h.d] % modulus() == assignment[h.d as int]@);
        }
        if flags[row as int] {
            let k = flagged_before(flags, row);
            lemma_flagged_monotone(flags, (row + 1) as nat, n);
            assert(cs[row as int].public_flag());
            assert(values.subrange(1, 1int + p)[k as int] == publics[k as int]);
            vstd::arithmetic::div_mod::lemma_small_mod(publics[k as int]@, modulus());
        }
    }
    assert forall|row: nat| row < n implies #[trigger] lowered_row_identities(gates, flags, env, p, row).len() == 17 by {}
    if crate::plonkish::all_rows_satisfied(cs, assignment) {
        assert forall|row: nat, i: int| row < gates.len() && 0 <= i < 17 implies #[trigger] lowered_row_identities(
            gates,
            flags,
            env,
            p,
            row,
        )[i] == 0 by {
            assert(gates.len() == cs.len());
            assert(crate::plonkish::row_identities(cs, assignment, row) == Some(
                lowered_row_identities(gates, flags, env, p, row),
            ));
            assert(lowered_row_identities(gates, flags, env, p, row).len() == 17);
            let ids = lowered_row_identities(gates, flags, env, p, row);
            let ri = crate::plonkish::row_identities(cs, assignment, row);
            assert(match ri {
                Some(values) => forall|j: int| 0 <= j < values.len() ==> values[j] == 0,
                None => false,
            });
            assert(ri == Some(ids));
            match ri {
                Some(values) => {
                    assert(values == ids);
                    assert(values[i] == 0);
                },
                None => {},
            }
        }
    }
    if rows_vanish(gates, flags, env, p) {
        assert forall|row: nat| row < cs.len() implies match #[trigger] crate::plonkish::row_identities(
            cs,
            assignment,
            row,
        ) {
            Some(values) => forall|i: int| 0 <= i < values.len() ==> values[i] == 0,
            None => false,
        } by {
            assert(crate::plonkish::row_identities(cs, assignment, row) == Some(
                lowered_row_identities(gates, flags, env, p, row),
            ));
            assert forall|i: int| 0 <= i < 17 implies lowered_row_identities(gates, flags, env, p, row)[i] == 0 by {
                assert(lowered_row_identities(gates, flags, env, p, row)[i] == 0);
            }
        }
    }
}

} // verus!
