//! The R1CS-to-QAP reduction: the instance polynomials evaluated at the
//! setup point and the quotient polynomial of an assignment.

use vstd::prelude::*;

use super::error::Error;
use super::dft::dft;
use super::fft::{values_of, EvaluationDomain};
use super::group::scalar_values;
use crate::field::{
    field_inverse, field_sum, lemma_field_inverse_unique, lemma_fadd_associates, lemma_fadd_zero, lemma_field_sum_canonical,
    lemma_fmul_commutes,
};
use crate::lowering::tidy;
use crate::r1cs::{
    all_satisfied, field_values, lc_value, term_value, terms_below, LinearCombination, R1csCircuit,
    R1csConstraint, R1csShape, Variable,
};
use crate::scalar::{fadd, fmul, fpow, fsub, Scalar};

verus! {

broadcast use crate::scalar::lemma_scalar_canonical;

/// Evaluations at the setup point of the variable polynomials of the three
/// rank-1 matrices, and of the vanishing polynomial.
pub struct QapAtTau {
    /// Left-matrix polynomials, one per variable.
    pub u: Vec<Scalar>,
    /// Right-matrix polynomials, one per variable.
    pub v: Vec<Scalar>,
    /// Output-matrix polynomials, one per variable.
    pub w: Vec<Scalar>,
    /// The vanishing polynomial.
    pub vanishing: Scalar,
}

/// The part of a combination on variable `k`, multiplied by `factor`.
pub open spec fn column_value(terms: Seq<(Variable, Scalar)>, k: nat, factor: nat) -> nat {
    field_sum(
        terms.map_values(
            |t: (Variable, Scalar)|
                if t.0.index() == k {
                    fmul(t.1@, factor)
                } else {
                    0
                },
        ),
    )
}

/// The terms of side `side` (0 left, 1 right, otherwise output) of an
/// equation.
pub open spec fn side_terms(c: R1csConstraint, side: u8) -> Seq<(Variable, Scalar)> {
    if side == 0 {
        c.a_terms()
    } else if side == 1 {
        c.b_terms()
    } else {
        c.c_terms()
    }
}

/// `Σ_row M[row][k] · factors[row]` over the equations of `rows`, for the
/// matrix `M` of side `side`.
pub open spec fn qap_column(rows: Seq<R1csConstraint>, side: u8, factors: Seq<nat>, k: nat) -> nat
    decreases rows.len(),
{
    if rows.len() == 0 {
        0
    } else {
        fadd(
            qap_column(rows.drop_last(), side, factors, k),
            column_value(side_terms(rows.last(), side), k, factors[rows.len() - 1]),
        )
    }
}

/// `lagrange` holds the Lagrange basis polynomials of `domain` evaluated at
/// `point`, each characterized by `c_i·(point - ω^i) = Z(point)·n⁻¹·ω^i`.
pub open spec fn lagrange_values(domain: EvaluationDomain, point: nat, lagrange: Seq<nat>) -> bool {
    &&& lagrange.len() == domain.domain_size()
    &&& forall|i: int|
        0 <= i < lagrange.len() ==> fmul(#[trigger] lagrange[i], fsub(point, fpow(domain.omega(), i as nat)))
            == fmul(
            fmul(fsub(fpow(point, domain.domain_size()), 1), domain.size_inverse_value()),
            fpow(domain.omega(), i as nat),
        )
}


proof fn lemma_column_step(terms: Seq<(Variable, Scalar)>, i: int, k: nat, factor: nat)
    requires
        0 <= i < terms.len(),
    ensures
        column_value(terms.take(i + 1), k, factor) == fadd(
            column_value(terms.take(i), k, factor),
            if terms[i].0.index() == k {
                fmul(terms[i].1@, factor)
            } else {
                0
            },
        ),
{
    let g = |t: (Variable, Scalar)|
        if t.0.index() == k {
            fmul(t.1@, factor)
        } else {
            0
        };
    assert(terms.take(i + 1).map_values(g).drop_last() =~= terms.take(i).map_values(g));
}

/// The QAP columns `u`, `v`, `w` are the sums `Σ_row M[row][k]·lagrange[row]`
/// of the three matrices for the Lagrange values `lagrange` at `tau`.
pub open spec fn lagrange_evaluations_match(
    shape: R1csShape,
    domain: EvaluationDomain,
    tau: nat,
    u: Seq<nat>,
    v: Seq<nat>,
    w: Seq<nat>,
    lagrange: Seq<nat>,
) -> bool {
    &&& lagrange_values(domain, tau, lagrange)
    &&& u.len() == shape.variable_count()
    &&& v.len() == shape.variable_count()
    &&& w.len() == shape.variable_count()
    &&& forall|k: int|
        0 <= k < u.len() ==> {
            &&& #[trigger] u[k] == qap_column(shape.equations(), 0, lagrange, k as nat)
            &&& v[k] == qap_column(shape.equations(), 1, lagrange, k as nat)
            &&& w[k] == qap_column(shape.equations(), 2, lagrange, k as nat)
        }
}

/// `u`, `v`, `w` and `vanishing` are the QAP instance polynomials of `shape`
/// over `domain`, evaluated at `tau`.
pub open spec fn qap_evaluations(
    shape: R1csShape,
    domain: EvaluationDomain,
    tau: nat,
    u: Seq<nat>,
    v: Seq<nat>,
    w: Seq<nat>,
    vanishing: nat,
) -> bool {
    &&& exists|lagrange: Seq<nat>|
        lagrange_evaluations_match(shape, domain, tau, u, v, w, lagrange)
    &&& vanishing == fsub(fpow(tau, domain.domain_size()), 1)
}

/// Add `coefficient · factor` to the entry of each term's variable.
fn accumulate(destination: &mut Vec<Scalar>, combination: &LinearCombination, factor: &Scalar)
    requires
        combination.below(old(destination)@.len() as nat),
    ensures
        final(destination)@.len() == old(destination)@.len(),
        forall|k: int|
            0 <= k < old(destination)@.len() ==> #[trigger] final(destination)@[k]@ == fadd(
                old(destination)@[k]@,
                column_value(combination.terms_view(), k as nat, factor@),
            ),
{
    let terms = combination.terms();
    let mut i: usize = 0;
    proof {
        assert forall|k: int| 0 <= k < destination@.len() implies fadd(
            destination@[k]@,
            column_value(terms@.take(0), k as nat, factor@),
        ) == destination@[k]@ by {
            let g = |t: (Variable, Scalar)|
                if t.0.index() == k as nat {
                    fmul(t.1@, factor@)
                } else {
                    0
                };
            assert(terms@.take(0).map_values(g) =~= Seq::<nat>::empty());
            lemma_fadd_zero(destination@[k]@);
        }
    }
    while i < terms.len()
        invariant
            i <= terms@.len(),
            terms@ == combination.terms_view(),
            terms_below(terms@, destination@.len() as nat),
            destination@.len() == old(destination)@.len(),
            forall|k: int|
                0 <= k < destination@.len() ==> #[trigger] destination@[k]@ == fadd(
                    old(destination)@[k]@,
                    column_value(terms@.take(i as int), k as nat, factor@),
                ),
        decreases terms@.len() - i,
    {
        let (variable, coefficient) = terms[i];
        let index = variable.index();
        assert(terms@[i as int].0.index() < destination@.len());
        let product = coefficient.mul(factor);
        let updated = destination[index].add(&product);
        let ghost before = destination@;
        destination.set(index, updated);
        proof {
            assert forall|k: int| 0 <= k < destination@.len() implies #[trigger] destination@[k]@
                == fadd(
                old(destination)@[k]@,
                column_value(terms@.take(i + 1), k as nat, factor@),
            ) by {
                lemma_column_step(terms@, i as int, k as nat, factor@);
                let previous = column_value(terms@.take(i as int), k as nat, factor@);
                lemma_field_sum_canonical(
                    terms@.take(i as int).map_values(
                        |t: (Variable, Scalar)|
                            if t.0.index() == k as nat {
                                fmul(t.1@, factor@)
                            } else {
                                0
                            },
                    ),
                );
                if k == index as int {
                    lemma_fadd_associates(old(destination)@[k]@, previous, product@);
                } else {
                    lemma_fadd_zero(previous);
                }
            }
        }
        i = i + 1;
    }
    proof {
        assert(terms@.take(terms@.len() as int) =~= terms@);
    }
}

/// For every variable, the sum over the equations of the side-`side`
/// coefficient of that variable times the equation's factor.
fn columns(constraints: &[R1csConstraint], side: u8, variables: usize, factors: &[Scalar]) -> (r: Vec<
    Scalar,
>)
    requires
        factors@.len() >= constraints@.len(),
        forall|i: int|
            0 <= i < constraints@.len() ==> (#[trigger] constraints@[i]).below(variables as nat),
    ensures
        r@.len() == variables,
        forall|k: int|
            0 <= k < variables ==> #[trigger] r@[k]@ == qap_column(
                constraints@,
                side,
                factors@.map_values(|s: Scalar| s@),
                k as nat,
            ),
{
    let ghost fs = factors@.map_values(|s: Scalar| s@);
    let mut out: Vec<Scalar> = Vec::new();
    let mut k: usize = 0;
    while k < variables
        invariant
            k <= variables,
            out@.len() == k,
            forall|j: int| 0 <= j < k ==> #[trigger] out@[j]@ == 0,
        decreases variables - k,
    {
        out.push(Scalar::zero());
        k = k + 1;
    }
    let mut row: usize = 0;
    while row < constraints.len()
        invariant
            row <= constraints@.len(),
            factors@.len() >= constraints@.len(),
            fs == factors@.map_values(|s: Scalar| s@),
            out@.len() == variables,
            forall|i: int|
                0 <= i < constraints@.len() ==> (#[trigger] constraints@[i]).below(
                    variables as nat,
                ),
            forall|j: int|
                0 <= j < variables ==> #[trigger] out@[j]@ == qap_column(
                    constraints@.take(row as int),
                    side,
                    fs,
                    j as nat,
                ),
        decreases constraints@.len() - row,
    {
        let constraint = &constraints[row];
        assert(constraint.below(variables as nat));
        let combination = if side == 0 {
            constraint.a()
        } else if side == 1 {
            constraint.b()
        } else {
            constraint.c()
        };
        assert(combination.terms_view() == side_terms(constraints@[row as int], side));
        let ghost before = out@;
        accumulate(&mut out, combination, &factors[row]);
        proof {
            assert(constraints@.take(row + 1).drop_last() =~= constraints@.take(row as int));
            assert forall|j: int| 0 <= j < variables implies #[trigger] out@[j]@ == qap_column(
                constraints@.take(row + 1),
                side,
                fs,
                j as nat,
            ) by {
                assert(fs[row as int] == factors@[row as int]@);
            }
        }
        row = row + 1;
    }
    proof {
        assert(constraints@.take(constraints@.len() as int) =~= constraints@);
    }
    out
}

/// Evaluate the QAP instance polynomials at `tau`, a point outside the
/// domain: for each variable `k` and matrix `M`, `Σ_row M[row][k]·L_row(τ)`
/// with the domain's Lagrange basis `L`, and the vanishing polynomial.
pub fn evaluate_shape_at_tau(shape: &R1csShape, domain: EvaluationDomain, tau: &Scalar) -> (r: Result<
    QapAtTau,
    Error,
>)
    requires
        tidy(shape.equations(), shape.variable_count() as nat),
    ensures
        (shape.equations().len() > domain.domain_size() || shape.public_count()
            >= shape.variable_count()) ==> r == Err::<QapAtTau, Error>(Error::InvalidCircuitShape),
        !(shape.equations().len() > domain.domain_size() || shape.public_count()
            >= shape.variable_count()) ==> {
            &&& r is Err <==> (fsub(fpow(tau@, domain.domain_size()), 1) == 0 || exists|i: nat|
                i < domain.domain_size() && #[trigger] fsub(tau@, fpow(domain.omega(), i)) == 0)
            &&& r is Err ==> r == Err::<QapAtTau, Error>(Error::InvalidEvaluationDomain)
        },
        r matches Ok(q) ==> qap_evaluations(
            *shape,
            domain,
            tau@,
            scalar_values(q.u@),
            scalar_values(q.v@),
            scalar_values(q.w@),
            q.vanishing@,
        ),
{
    let constraints = shape.constraints();
    if constraints.len() > domain.size() || shape.public_inputs() >= shape.variables() {
        return Err(Error::InvalidCircuitShape);
    }
    let lagrange = domain.lagrange_at(tau)?;
    let variables = shape.variables();
    let u = columns(constraints, 0, variables, lagrange.as_slice());
    let v = columns(constraints, 1, variables, lagrange.as_slice());
    let w = columns(constraints, 2, variables, lagrange.as_slice());
    let vanishing = domain.vanishing(tau);
    let ghost values = lagrange@.map_values(|s: Scalar| s@);
    proof {
        assert(lagrange_values(domain, tau@, values));
        assert(scalar_values(u@).len() == variables);
        assert forall|k: int| 0 <= k < variables implies {
            &&& #[trigger] scalar_values(u@)[k] == qap_column(shape.equations(), 0, values, k as nat)
            &&& scalar_values(v@)[k] == qap_column(shape.equations(), 1, values, k as nat)
            &&& scalar_values(w@)[k] == qap_column(shape.equations(), 2, values, k as nat)
        } by {
            assert(scalar_values(u@)[k] == u@[k]@);
            assert(scalar_values(v@)[k] == v@[k]@);
            assert(scalar_values(w@)[k] == w@[k]@);
        }
        assert(lagrange_evaluations_match(*shape, domain, tau@, scalar_values(u@), scalar_values(v@), scalar_values(w@), values));
    }
    Ok(QapAtTau { u, v, w, vanishing })
}

/// The value of a combination under an assignment, or `InvalidCircuitShape`
/// when a variable has no value.
fn evaluate(combination: &LinearCombination, assignment: &[Scalar]) -> (r: Result<Scalar, Error>)
    ensures
        r is Ok <==> combination.below(assignment@.len() as nat),
        r matches Ok(v) ==> v@ == combination.value(field_values(assignment@)),
        r is Err ==> r == Err::<Scalar, Error>(Error::InvalidCircuitShape),
{
    let terms = combination.terms();
    let ghost env = field_values(assignment@);
    let ghost f = |t: (Variable, Scalar)| term_value(t, env);
    let mut sum = Scalar::zero();
    let mut i: usize = 0;
    proof {
        assert(terms@.take(0).map_values(f) =~= Seq::<nat>::empty());
    }
    while i < terms.len()
        invariant
            i <= terms@.len(),
            terms@ == combination.terms_view(),
            env == field_values(assignment@),
            f == (|t: (Variable, Scalar)| term_value(t, env)),
            terms_below(terms@.take(i as int), assignment@.len() as nat),
            sum@ == field_sum(terms@.take(i as int).map_values(f)),
        decreases terms@.len() - i,
    {
        let (variable, coefficient) = terms[i];
        let index = variable.index();
        if index >= assignment.len() {
            proof {
                assert(terms@[i as int].0.index() >= assignment@.len());
            }
            return Err(Error::InvalidCircuitShape);
        }
        let value = assignment[index];
        let product = value.mul(&coefficient);
        proof {
            lemma_fmul_commutes(value@, coefficient@);
            assert(env[index as int] == value@);
            assert(terms@.take(i + 1).map_values(f).drop_last() =~= terms@.take(i as int).map_values(f));
            assert(terms@.take(i + 1).map_values(f).last() == term_value(terms@[i as int], env));
        }
        sum = sum.add(&product);
        i = i + 1;
        proof {
            assert forall|t: int| 0 <= t < terms@.take(i as int).len() implies (
            #[trigger] terms@.take(i as int)[t]).0.index() < assignment@.len() by {
                if t < i - 1 {
                    assert(terms@.take(i as int)[t] == terms@.take(i - 1)[t]);
                }
            }
        }
    }
    proof {
        assert(terms@.take(terms@.len() as int) =~= terms@);
    }
    Ok(sum)
}

/// Every equation of `constraints` has all its variables below `n`.
pub open spec fn rows_below(constraints: Seq<R1csConstraint>, n: nat) -> bool {
    forall|i: int| 0 <= i < constraints.len() ==> (#[trigger] constraints[i]).below(n)
}

/// The values under `env` of side `side` of the equations `rows`, padded
/// with zeros to `n` entries: the evaluations over the domain of that side's
/// polynomial.
pub open spec fn side_rows(rows: Seq<R1csConstraint>, side: u8, env: Seq<nat>, n: nat) -> Seq<nat> {
    Seq::new(
        n,
        |t: int|
            if t < rows.len() {
                lc_value(side_terms(rows[t], side), env)
            } else {
                0
            },
    )
}

/// `(A·B - C)/Z` on the multiplicative coset of `domain`, where `A`, `B`,
/// `C` interpolate the three sides of `rows` under `env` over the domain and
/// `Z(7) = 7^n - 1`.
pub open spec fn quotient_evaluations(
    domain: EvaluationDomain,
    rows: Seq<R1csConstraint>,
    env: Seq<nat>,
) -> Seq<nat> {
    let n = domain.domain_size();
    let a = domain.coset_evaluation(domain.interpolation(side_rows(rows, 0, env, n)));
    let b = domain.coset_evaluation(domain.interpolation(side_rows(rows, 1, env, n)));
    let c = domain.coset_evaluation(domain.interpolation(side_rows(rows, 2, env, n)));
    let z = field_inverse(fsub(fpow(7, n), 1));
    Seq::new(n, |i: int| fmul(fsub(fmul(a[i], b[i]), c[i]), z))
}

/// The side values of the equations are canonical.
proof fn lemma_side_rows_canonical(rows: Seq<R1csConstraint>, side: u8, env: Seq<nat>, n: nat)
    ensures
        forall|j: int|
            0 <= j < n ==> #[trigger] side_rows(rows, side, env, n)[j] < crate::scalar::modulus(),
{
    assert forall|j: int| 0 <= j < n implies #[trigger] side_rows(rows, side, env, n)[j]
        < crate::scalar::modulus() by {
        if j < rows.len() {
            lemma_field_sum_canonical(
                side_terms(rows[j], side).map_values(|t: (Variable, Scalar)| term_value(t, env)),
            );
        }
    }
}

/// The quadratic arithmetic program of a satisfied circuit holds over the
/// domain: at every point `ω^t` the polynomials that interpolate the three
/// sides of the equations satisfy `A(ω^t)·B(ω^t) = C(ω^t)`.
pub proof fn lemma_satisfied_qap(
    domain: EvaluationDomain,
    rows: Seq<R1csConstraint>,
    values: Seq<Scalar>,
    t: nat,
)
    requires
        domain.well_formed(),
        all_satisfied(rows, values),
        rows.len() <= domain.domain_size(),
        t < domain.domain_size(),
    ensures
        ({
            let n = domain.domain_size();
            let env = field_values(values);
            fmul(
                dft(domain.interpolation(side_rows(rows, 0, env, n)), domain.omega(), t),
                dft(domain.interpolation(side_rows(rows, 1, env, n)), domain.omega(), t),
            ) == dft(domain.interpolation(side_rows(rows, 2, env, n)), domain.omega(), t)
        }),
{
    let n = domain.domain_size();
    let env = field_values(values);
    lemma_side_rows_canonical(rows, 0, env, n);
    lemma_side_rows_canonical(rows, 1, env, n);
    lemma_side_rows_canonical(rows, 2, env, n);
    domain.lemma_interpolation_evaluates(side_rows(rows, 0, env, n), t);
    domain.lemma_interpolation_evaluates(side_rows(rows, 1, env, n), t);
    domain.lemma_interpolation_evaluates(side_rows(rows, 2, env, n), t);
    if t < rows.len() {
        assert(rows[t as int].satisfied_by(values));
    } else {
        crate::field::lemma_fmul_unit(0);
    }
}

/// The quotient depends on the domain through its size only.
pub proof fn lemma_quotient_same_size(
    d1: EvaluationDomain,
    d2: EvaluationDomain,
    rows: Seq<R1csConstraint>,
    env: Seq<nat>,
)
    requires
        d1.well_formed(),
        d2.well_formed(),
        d1.domain_size() == d2.domain_size(),
    ensures
        d1.coset_interpolation(quotient_evaluations(d1, rows, env)) == d2.coset_interpolation(
            quotient_evaluations(d2, rows, env),
        ),
{
    let n = d1.domain_size();
    let ra = side_rows(rows, 0, env, n);
    let rb = side_rows(rows, 1, env, n);
    let rc = side_rows(rows, 2, env, n);
    d1.lemma_domain_determined(d2);
    d1.lemma_same_size_transforms(d2, ra);
    d1.lemma_same_size_transforms(d2, rb);
    d1.lemma_same_size_transforms(d2, rc);
    d1.lemma_same_size_transforms(d2, d1.interpolation(ra));
    d1.lemma_same_size_transforms(d2, d1.interpolation(rb));
    d1.lemma_same_size_transforms(d2, d1.interpolation(rc));
    assert(quotient_evaluations(d1, rows, env) =~= quotient_evaluations(d2, rows, env));
    d1.lemma_same_size_transforms(d2, quotient_evaluations(d1, rows, env));
}

/// Coefficients of `(A(X)·B(X) - C(X)) / Z(X)` for the circuit's
/// assignment, computed on the multiplicative coset of the domain. Fails
/// with `InvalidCircuitShape` when the assignment length differs from the
/// variable count, there are more equations than domain points, or an
/// equation uses a variable without a value; and with
/// `InvalidEvaluationDomain` when the vanishing polynomial is zero at the
/// coset generator.
pub fn quotient(circuit: &R1csCircuit, domain: EvaluationDomain) -> (r: Result<Vec<Scalar>, Error>)
    ensures
        ({
            let shape = circuit.shape_view();
            let values = circuit.assignment_view().value_seq();
            let shape_error = values.len() != shape.variable_count() || shape.equations().len()
                > domain.domain_size() || !rows_below(shape.equations(), values.len() as nat);
            &&& shape_error ==> r == Err::<Vec<Scalar>, Error>(Error::InvalidCircuitShape)
            &&& !shape_error ==> (r is Err <==> fsub(fpow(7, domain.domain_size()), 1) == 0)
            &&& !shape_error && r is Err ==> r == Err::<Vec<Scalar>, Error>(
                Error::InvalidEvaluationDomain,
            )
        }),
        r matches Ok(q) ==> q@.len() == domain.domain_size() && values_of(q@)
            == domain.coset_interpolation(
            quotient_evaluations(
                domain,
                circuit.shape_view().equations(),
                field_values(circuit.assignment_view().value_seq()),
            ),
        ),
{
    let assignment = circuit.assignment().values();
    let shape = circuit.shape();
    let constraints = shape.constraints();
    let size = domain.size();
    if assignment.len() != shape.variables() || constraints.len() > size {
        return Err(Error::InvalidCircuitShape);
    }
    let mut a: Vec<Scalar> = Vec::new();
    let mut b: Vec<Scalar> = Vec::new();
    let mut c: Vec<Scalar> = Vec::new();
    let ghost env = field_values(assignment@);
    let mut k: usize = 0;
    while k < size
        invariant
            k <= size,
            a@.len() == k,
            b@.len() == k,
            c@.len() == k,
            forall|t: int| 0 <= t < k ==> #[trigger] a@[t]@ == 0,
            forall|t: int| 0 <= t < k ==> #[trigger] b@[t]@ == 0,
            forall|t: int| 0 <= t < k ==> #[trigger] c@[t]@ == 0,
        decreases size - k,
    {
        a.push(Scalar::zero());
        b.push(Scalar::zero());
        c.push(Scalar::zero());
        k = k + 1;
    }
    let mut row: usize = 0;
    while row < constraints.len()
        invariant
            row <= constraints@.len() <= size,
            a@.len() == size,
            b@.len() == size,
            c@.len() == size,
            forall|t: int| 0 <= t < row ==> (#[trigger] constraints@[t]).below(assignment@.len() as nat),
            constraints@ == circuit.shape_view().equations(),
            assignment@ == circuit.assignment_view().value_seq(),
            env == field_values(assignment@),
            forall|t: int|
                0 <= t < row ==> #[trigger] a@[t]@ == side_rows(constraints@, 0, env, size as nat)[t],
            forall|t: int|
                0 <= t < row ==> #[trigger] b@[t]@ == side_rows(constraints@, 1, env, size as nat)[t],
            forall|t: int|
                0 <= t < row ==> #[trigger] c@[t]@ == side_rows(constraints@, 2, env, size as nat)[t],
            forall|t: int| row <= t < size ==> #[trigger] a@[t]@ == 0,
            forall|t: int| row <= t < size ==> #[trigger] b@[t]@ == 0,
            forall|t: int| row <= t < size ==> #[trigger] c@[t]@ == 0,
        decreases constraints@.len() - row,
    {
        let constraint = &constraints[row];
        let left = evaluate(constraint.a(), assignment);
        let left = match left {
            Ok(value) => value,
            Err(e) => {
                return Err(e);
            },
        };
        let right = match evaluate(constraint.b(), assignment) {
            Ok(value) => value,
            Err(e) => {
                return Err(e);
            },
        };
        let output = match evaluate(constraint.c(), assignment) {
            Ok(value) => value,
            Err(e) => {
                return Err(e);
            },
        };
        a.set(row, left);
        b.set(row, right);
        c.set(row, output);
        row = row + 1;
    }
    proof {
        assert(values_of(a@) =~= side_rows(constraints@, 0, env, size as nat));
        assert(values_of(b@) =~= side_rows(constraints@, 1, env, size as nat));
        assert(values_of(c@) =~= side_rows(constraints@, 2, env, size as nat));
    }
    let a_coefficients = domain.ifft(a.as_slice());
    let b_coefficients = domain.ifft(b.as_slice());
    let c_coefficients = domain.ifft(c.as_slice());
    let a = domain.coset_fft(a_coefficients.as_slice());
    let b = domain.coset_fft(b_coefficients.as_slice());
    let c = domain.coset_fft(c_coefficients.as_slice());
    let generator = Scalar::multiplicative_generator();
    let inverse_vanishing = match domain.vanishing(&generator).invert() {
        Some(inverse) => inverse,
        None => {
            return Err(Error::InvalidEvaluationDomain);
        },
    };
    let mut evaluations: Vec<Scalar> = Vec::new();
    let mut i: usize = 0;
    while i < size
        invariant
            i <= size,
            a@.len() == size,
            b@.len() == size,
            c@.len() == size,
            evaluations@.len() == i,
            forall|t: int|
                0 <= t < i ==> #[trigger] evaluations@[t]@ == fmul(
                    fsub(fmul(a@[t]@, b@[t]@), c@[t]@),
                    inverse_vanishing@,
                ),
        decreases size - i,
    {
        let value = a[i].mul(&b[i]).sub(&c[i]).mul(&inverse_vanishing);
        evaluations.push(value);
        i = i + 1;
    }
    proof {
        lemma_field_inverse_unique(fsub(fpow(7, size as nat), 1), inverse_vanishing@);
        assert(values_of(evaluations@) =~= quotient_evaluations(domain, constraints@, env));
    }
    Ok(domain.coset_ifft(evaluations.as_slice()))
}

} // verus!
