//! Rank-1 constraint systems: sparse linear combinations, rank-1 equations,
//! finalized shapes and assignments.

use sha2::Digest;
use vstd::prelude::*;

use crate::field::{
    field_sum, lemma_fadd_associates, lemma_fadd_commutes, lemma_fadd_zero,
    lemma_field_sum_canonical, lemma_field_sum_remove, lemma_field_sum_scale, lemma_fmul_associates,
    lemma_fmul_commutes, lemma_fmul_distributes, lemma_fmul_unit,
};
use crate::scalar::{fadd, fmul, lemma_scalar_canonical, modulus, Scalar};

verus! {

broadcast use {
    lemma_scalar_canonical,
    crate::scalar::lemma_fadd_canonical,
    crate::scalar::lemma_fmul_canonical,
    crate::scalar::lemma_fsub_canonical,
};

/// A variable in a finalized rank-1 constraint system.
///
/// Index zero is the implicit constant-one variable. Public inputs follow,
/// then composer witnesses and lowering auxiliaries.
#[derive(Debug, Clone, Copy, PartialEq, Eq, PartialOrd, Ord, Hash)]
pub struct Variable(usize);

impl Variable {
    /// The variable with assignment index `index`.
    pub(crate) fn new(index: usize) -> (r: Variable)
        ensures
            r.index() == index,
    {
        Variable(index)
    }

    /// The variable's canonical assignment index.
    pub closed spec fn spec_index(self) -> usize {
        self.0
    }

    /// Return the variable's canonical assignment index.
    #[verifier::when_used_as_spec(spec_index)]
    pub fn index(self) -> (r: usize)
        ensures
            r == self.spec_index(),
    {
        self.0
    }
}

/// Variables with the same index are equal.
pub broadcast proof fn lemma_variable_ext(a: Variable, b: Variable)
    ensures
        #[trigger] a.index() == #[trigger] b.index() <==> a == b,
{
}

/// The field values of an assignment.
pub open spec fn field_values(assignment: Seq<Scalar>) -> Seq<nat> {
    assignment.map_values(|s: Scalar| s@)
}

/// The value of one term `coefficient · z[variable]` under `env`.
pub open spec fn term_value(t: (Variable, Scalar), env: Seq<nat>) -> nat {
    fmul(t.1@, env[t.0.index() as int])
}

/// The value of a sum of terms under `env`.
pub open spec fn lc_value(terms: Seq<(Variable, Scalar)>, env: Seq<nat>) -> nat {
    field_sum(terms.map_values(|t: (Variable, Scalar)| term_value(t, env)))
}

/// Terms ordered by strictly increasing variable index.
pub open spec fn normalized(terms: Seq<(Variable, Scalar)>) -> bool {
    forall|i: int, j: int| 0 <= i < j < terms.len() ==> terms[i].0.index() < terms[j].0.index()
}

/// Every term's variable is below `n`.
pub open spec fn terms_below(terms: Seq<(Variable, Scalar)>, n: nat) -> bool {
    forall|i: int| 0 <= i < terms.len() ==> (#[trigger] terms[i]).0.index() < n
}

proof fn lemma_value_insert(s: Seq<(Variable, Scalar)>, i: int, t: (Variable, Scalar), env: Seq<nat>)
    requires
        0 <= i <= s.len(),
    ensures
        lc_value(s.insert(i, t), env) == fadd(lc_value(s, env), term_value(t, env)),
{
    let f = |x: (Variable, Scalar)| term_value(x, env);
    let inserted = s.insert(i, t).map_values(f);
    lemma_field_sum_remove(inserted, i);
    assert(inserted.remove(i) =~= s.map_values(f));
}

proof fn lemma_value_remove(s: Seq<(Variable, Scalar)>, i: int, env: Seq<nat>)
    requires
        0 <= i < s.len(),
    ensures
        lc_value(s, env) == fadd(lc_value(s.remove(i), env), term_value(s[i], env)),
{
    let f = |x: (Variable, Scalar)| term_value(x, env);
    lemma_field_sum_remove(s.map_values(f), i);
    assert(s.map_values(f).remove(i) =~= s.remove(i).map_values(f));
}

proof fn lemma_value_push(s: Seq<(Variable, Scalar)>, t: (Variable, Scalar), env: Seq<nat>)
    ensures
        lc_value(s.push(t), env) == fadd(lc_value(s, env), term_value(t, env)),
{
    let f = |x: (Variable, Scalar)| term_value(x, env);
    assert(s.push(t).map_values(f).drop_last() =~= s.map_values(f));
}

proof fn lemma_value_empty(env: Seq<nat>)
    ensures
        lc_value(Seq::empty(), env) == 0,
{
    let f = |x: (Variable, Scalar)| term_value(x, env);
    assert(Seq::<(Variable, Scalar)>::empty().map_values(f) =~= Seq::<nat>::empty());
}

proof fn lemma_value_canonical(s: Seq<(Variable, Scalar)>, env: Seq<nat>)
    ensures
        lc_value(s, env) < modulus(),
{
    lemma_field_sum_canonical(s.map_values(|x: (Variable, Scalar)| term_value(x, env)));
}

/// A normalized sparse linear combination.
#[derive(Debug, PartialEq, Eq)]
pub struct LinearCombination {
    terms: Vec<(Variable, Scalar)>,
}

impl LinearCombination {
    /// Terms are ordered by strictly increasing variable index.
    #[verifier::type_invariant]
    closed spec fn sorted(self) -> bool {
        normalized(self.terms@)
    }

    /// The `(variable, coefficient)` terms in variable order.
    pub closed spec fn terms_view(&self) -> Seq<(Variable, Scalar)> {
        self.terms@
    }

    /// The value under `env`.
    pub open spec fn value(&self, env: Seq<nat>) -> nat {
        lc_value(self.terms_view(), env)
    }

    /// Every variable is below `n`.
    pub open spec fn below(&self, n: nat) -> bool {
        terms_below(self.terms_view(), n)
    }

    /// The empty combination.
    pub(crate) fn zero() -> (r: Self)
        ensures
            r.terms_view().len() == 0,
            forall|env: Seq<nat>| #[trigger] r.value(env) == 0,
    {
        let r = LinearCombination { terms: Vec::new() };
        assert forall|env: Seq<nat>| #[trigger] r.value(env) == 0 by {
            lemma_value_empty(env);
            assert(r.terms_view() =~= Seq::<(Variable, Scalar)>::empty());
        }
        r
    }

    /// `1 · variable`.
    pub(crate) fn from_variable(variable: Variable) -> (r: Self)
        ensures
            r.below((variable.index() + 1) as nat),
            forall|env: Seq<nat>| #[trigger] r.value(env) == env[variable.index() as int] % modulus(),
    {
        let mut terms: Vec<(Variable, Scalar)> = Vec::new();
        let one = Scalar::one();
        terms.push((variable, one));
        let r = LinearCombination { terms };
        assert forall|env: Seq<nat>| #[trigger] r.value(env) == env[variable.index() as int] % modulus() by {
            lemma_value_empty(env);
            lemma_value_push(Seq::empty(), (variable, one), env);
            assert(Seq::<(Variable, Scalar)>::empty().push((variable, one)) =~= r.terms_view());
            crate::field::lemma_fmul_one_reduces(env[variable.index() as int]);
            lemma_fadd_zero(term_value((variable, one), env));
        }
        r
    }

    /// The constant-one variable.
    pub(crate) fn one() -> (r: Self)
        ensures
            r.below(1),
            forall|env: Seq<nat>| #[trigger] r.value(env) == env[0] % modulus(),
    {
        LinearCombination::from_variable(Variable::new(0))
    }

    /// `value · one`, or the empty combination for zero.
    pub(crate) fn from_constant(value: Scalar) -> (r: Self)
        ensures
            r.below(1),
            forall|env: Seq<nat>|
                env[0] % modulus() == 1 ==> #[trigger] r.value(env) == value@,
    {
        if value.equals(&Scalar::zero()) {
            LinearCombination::zero()
        } else {
            let mut terms: Vec<(Variable, Scalar)> = Vec::new();
            let first = Variable::new(0);
            terms.push((first, value));
            let r = LinearCombination { terms };
            assert forall|env: Seq<nat>| env[0] % modulus() == 1 implies #[trigger] r.value(env) == value@ by {
                let t = (first, value);
                lemma_value_empty(env);
                lemma_value_push(Seq::empty(), t, env);
                assert(Seq::<(Variable, Scalar)>::empty().push(t) =~= r.terms_view());
                crate::field::lemma_fmul_reduces_right(value@, env[0]);
                lemma_fmul_unit(value@);
                lemma_fadd_zero(value@);
            }
            r
        }
    }

    /// Add `coefficient · variable`, merging with an existing term of the same
    /// variable and dropping a term whose coefficient cancels.
    pub(crate) fn add_term(&mut self, variable: Variable, coefficient: Scalar)
        ensures
            forall|env: Seq<nat>| #[trigger] final(self).value(env) == fadd(
                old(self).value(env),
                fmul(coefficient@, env[variable.index() as int]),
            ),
            forall|n: nat|
                old(self).below(n) && variable.index() < n ==> #[trigger] final(self).below(n),
    {
        proof {
            use_type_invariant(&*self);
        }
        let ghost before = self.terms@;
        if coefficient.equals(&Scalar::zero()) {
            assert forall|env: Seq<nat>| #[trigger] self.value(env) == fadd(
                old(self).value(env),
                fmul(coefficient@, env[variable.index() as int]),
            ) by {
                lemma_value_canonical(before, env);
                reveal(fmul);
                lemma_fadd_zero(lc_value(before, env));
            }
            return;
        }
        let mut lo: usize = 0;
        let mut hi: usize = self.terms.len();
        while lo < hi
            invariant
                lo <= hi <= self.terms@.len(),
                self.terms@ == before,
                normalized(before),
                forall|t: int| 0 <= t < lo ==> before[t].0.index() < variable.index(),
                forall|t: int| hi <= t < before.len() ==> before[t].0.index() >= variable.index(),
            decreases hi - lo,
        {
            let mid = lo + (hi - lo) / 2;
            if self.terms[mid].0.index() < variable.index() {
                lo = mid + 1;
            } else {
                hi = mid;
            }
        }
        let ghost position = lo as int;
        let mut terms: Vec<(Variable, Scalar)> = Vec::new();
        std::mem::swap(&mut terms, &mut self.terms);
        assert(terms@ == before);
        if lo < terms.len() && terms[lo].0.index() == variable.index() {
            let existing = terms[lo].1;
            let sum = existing.add(&coefficient);
            proof {
                assert(terms@[position].0 == variable);
            }
            if sum.equals(&Scalar::zero()) {
                terms.remove(lo);
                self.terms = terms;
                assert forall|env: Seq<nat>| #[trigger] self.value(env) == fadd(
                    old(self).value(env),
                    fmul(coefficient@, env[variable.index() as int]),
                ) by {
                    let x = env[variable.index() as int];
                    let rest = lc_value(before.remove(position), env);
                    lemma_value_remove(before, position, env);
                    lemma_fadd_associates(rest, fmul(existing@, x), fmul(coefficient@, x));
                    lemma_fmul_distributes(x, existing@, coefficient@);
                    lemma_fmul_commutes(x, existing@);
                    lemma_fmul_commutes(x, coefficient@);
                    lemma_fmul_commutes(x, sum@);
                    lemma_fmul_unit(x % modulus());
                    reveal(fmul);
                    lemma_value_canonical(before.remove(position), env);
                    lemma_fadd_zero(rest);
                }
            } else {
                terms.set(lo, (variable, sum));
                self.terms = terms;
                assert forall|env: Seq<nat>| #[trigger] self.value(env) == fadd(
                    old(self).value(env),
                    fmul(coefficient@, env[variable.index() as int]),
                ) by {
                    let x = env[variable.index() as int];
                    let rest = lc_value(before.remove(position), env);
                    lemma_value_remove(before, position, env);
                    lemma_value_remove(self.terms@, position, env);
                    assert(self.terms@.remove(position) =~= before.remove(position));
                    lemma_fadd_associates(rest, fmul(existing@, x), fmul(coefficient@, x));
                    lemma_fmul_distributes(x, existing@, coefficient@);
                    lemma_fmul_commutes(x, existing@);
                    lemma_fmul_commutes(x, coefficient@);
                    lemma_fmul_commutes(x, sum@);
                }
            }
        } else {
            terms.insert(lo, (variable, coefficient));
            self.terms = terms;
            assert forall|env: Seq<nat>| #[trigger] self.value(env) == fadd(
                old(self).value(env),
                fmul(coefficient@, env[variable.index() as int]),
            ) by {
                lemma_value_insert(before, position, (variable, coefficient), env);
            }
        }
    }

    /// Add `scale · other`.
    pub(crate) fn add_assign_scaled(&mut self, other: &Self, scale: Scalar)
        ensures
            forall|env: Seq<nat>| #[trigger] final(self).value(env) == fadd(
                old(self).value(env),
                fmul(scale@, other.value(env)),
            ),
            forall|n: nat| old(self).below(n) && other.below(n) ==> #[trigger] final(self).below(n),
    {
        let ghost start = *self;
        assert forall|env: Seq<nat>| #[trigger] self.value(env) == fadd(
            start.value(env),
            fmul(scale@, lc_value(other.terms_view().take(0), env)),
        ) by {
            assert(other.terms_view().take(0) =~= Seq::<(Variable, Scalar)>::empty());
            lemma_value_empty(env);
            lemma_fmul_unit(scale@);
            lemma_value_canonical(start.terms_view(), env);
            lemma_fadd_zero(start.value(env));
        }
        let mut i: usize = 0;
        while i < other.terms.len()
            invariant
                i <= other.terms_view().len(),
                forall|env: Seq<nat>| #[trigger] self.value(env) == fadd(
                    start.value(env),
                    fmul(scale@, lc_value(other.terms_view().take(i as int), env)),
                ),
                forall|n: nat|
                    start.below(n) && other.below(n) ==> #[trigger] self.below(n),
            decreases other.terms_view().len() - i,
        {
            let (variable, coefficient) = other.terms[i];
            let ghost previous = *self;
            self.add_term(variable, coefficient.mul(&scale));
            assert forall|env: Seq<nat>| #[trigger] self.value(env) == fadd(
                start.value(env),
                fmul(scale@, lc_value(other.terms_view().take(i + 1), env)),
            ) by {
                let x = env[variable.index() as int];
                let taken = lc_value(other.terms_view().take(i as int), env);
                assert(other.terms_view().take(i + 1) =~= other.terms_view().take(i as int).push(
                    (variable, coefficient),
                ));
                lemma_value_push(other.terms_view().take(i as int), (variable, coefficient), env);
                lemma_fmul_distributes(scale@, taken, fmul(coefficient@, x));
                lemma_fadd_associates(
                    start.value(env),
                    fmul(scale@, taken),
                    fmul(scale@, fmul(coefficient@, x)),
                );
                lemma_fmul_commutes(coefficient@, scale@);
                lemma_fmul_associates(scale@, coefficient@, x);
            }
            assert forall|n: nat| start.below(n) && other.below(n) implies #[trigger] self.below(n) by {
                assert(other.terms_view()[i as int].0 == variable);
            }
            i = i + 1;
        }
        assert(other.terms_view().take(other.terms_view().len() as int) =~= other.terms_view());
    }

    /// `scale · self`.
    pub(crate) fn scaled(self, scale: Scalar) -> (r: Self)
        ensures
            forall|env: Seq<nat>| #[trigger] r.value(env) == fmul(scale@, self.value(env)),
            forall|n: nat| self.below(n) ==> #[trigger] r.below(n),
    {
        proof {
            use_type_invariant(&self);
        }
        if scale.equals(&Scalar::zero()) {
            let r = LinearCombination::zero();
            assert forall|env: Seq<nat>| #[trigger] r.value(env) == fmul(scale@, self.value(env)) by {
                lemma_value_canonical(self.terms_view(), env);
                lemma_fmul_unit(self.value(env));
            }
            return r;
        }
        let mut terms: Vec<(Variable, Scalar)> = Vec::new();
        let mut i: usize = 0;
        while i < self.terms.len()
            invariant
                i <= self.terms@.len(),
                terms@.len() == i,
                forall|t: int|
                    0 <= t < i ==> (#[trigger] terms@[t]).0 == self.terms@[t].0 && terms@[t].1@
                        == fmul(self.terms@[t].1@, scale@),
            decreases self.terms@.len() - i,
        {
            let (variable, coefficient) = self.terms[i];
            terms.push((variable, coefficient.mul(&scale)));
            i = i + 1;
        }
        let r = LinearCombination { terms };
        assert forall|env: Seq<nat>| #[trigger] r.value(env) == fmul(scale@, self.value(env)) by {
            let f = |x: (Variable, Scalar)| term_value(x, env);
            let g = |x: nat| fmul(scale@, x);
            assert(r.terms_view().map_values(f) =~= self.terms_view().map_values(f).map_values(g)) by {
                assert forall|t: int| 0 <= t < r.terms_view().len() implies #[trigger] r.terms_view().map_values(
                    f,
                )[t] == self.terms_view().map_values(f).map_values(g)[t] by {
                    let x = env[self.terms@[t].0.index() as int];
                    lemma_fmul_commutes(self.terms@[t].1@, scale@);
                    lemma_fmul_associates(scale@, self.terms@[t].1@, x);
                }
            }
            lemma_field_sum_scale(self.terms_view().map_values(f), scale@);
        }
        r
    }

    /// `-self`.
    pub(crate) fn negated(self) -> (r: Self)
        ensures
            forall|env: Seq<nat>| #[trigger] r.value(env) == fmul(
                crate::scalar::fneg(1),
                self.value(env),
            ),
            forall|n: nat| self.below(n) ==> #[trigger] r.below(n),
    {
        self.scaled(Scalar::one().neg())
    }

    /// The value under `assignment`, or `None` when a term's variable has no
    /// assignment.
    pub(crate) fn evaluate(&self, assignment: &[Scalar]) -> (r: Option<Scalar>)
        ensures
            r is Some <==> self.below(assignment@.len()),
            r matches Some(v) ==> v@ == self.value(field_values(assignment@)),
    {
        let ghost env = field_values(assignment@);
        let mut accumulator = Scalar::zero();
        let mut i: usize = 0;
        while i < self.terms.len()
            invariant
                i <= self.terms_view().len(),
                env == field_values(assignment@),
                terms_below(self.terms_view().take(i as int), assignment@.len()),
                accumulator@ == lc_value(self.terms_view().take(i as int), env),
            decreases self.terms_view().len() - i,
        {
            let (variable, coefficient) = self.terms[i];
            if variable.index() >= assignment.len() {
                assert(self.terms_view()[i as int].0 == variable);
                return None;
            }
            let value = assignment[variable.index()];
            let ghost previous = accumulator;
            accumulator = accumulator.add(&value.mul(&coefficient));
            proof {
                assert(self.terms_view().take(i + 1) =~= self.terms_view().take(i as int).push(
                    (variable, coefficient),
                ));
                lemma_value_push(self.terms_view().take(i as int), (variable, coefficient), env);
                lemma_fmul_commutes(value@, coefficient@);
                assert(env[variable.index() as int] == value@);
            }
            i = i + 1;
        }
        assert(self.terms_view().take(self.terms_view().len() as int) =~= self.terms_view());
        Some(accumulator)
    }

    /// The nonzero `(variable, coefficient)` terms in index order.
    pub fn terms(&self) -> (r: &[(Variable, Scalar)])
        ensures
            r@ == self.terms_view(),
            normalized(r@),
    {
        proof {
            use_type_invariant(self);
        }
        self.terms.as_slice()
    }
}

impl Clone for LinearCombination {
    fn clone(&self) -> (r: Self)
        ensures
            r.terms_view() == self.terms_view(),
    {
        proof {
            use_type_invariant(self);
        }
        let mut terms: Vec<(Variable, Scalar)> = Vec::new();
        let mut i: usize = 0;
        while i < self.terms.len()
            invariant
                i <= self.terms@.len(),
                terms@ == self.terms@.take(i as int),
            decreases self.terms@.len() - i,
        {
            terms.push(self.terms[i]);
            i = i + 1;
            assert(terms@ =~= self.terms@.take(i as int));
        }
        assert(terms@ =~= self.terms@);
        LinearCombination { terms }
    }
}

impl Default for LinearCombination {
    fn default() -> (r: Self)
        ensures
            r.terms_view().len() == 0,
    {
        LinearCombination::zero()
    }
}

/// `a · b = c` holds of the field values `env`.
pub open spec fn equation_holds(
    a: Seq<(Variable, Scalar)>,
    b: Seq<(Variable, Scalar)>,
    c: Seq<(Variable, Scalar)>,
    env: Seq<nat>,
) -> bool {
    fmul(lc_value(a, env), lc_value(b, env)) == lc_value(c, env)
}

/// One rank-1 equation `A(z) * B(z) = C(z)`.
#[derive(Debug, PartialEq, Eq)]
pub struct R1csConstraint {
    a: LinearCombination,
    b: LinearCombination,
    c: LinearCombination,
}

impl R1csConstraint {
    /// The left multiplicand's terms.
    pub closed spec fn a_terms(&self) -> Seq<(Variable, Scalar)> {
        self.a.terms_view()
    }

    /// The right multiplicand's terms.
    pub closed spec fn b_terms(&self) -> Seq<(Variable, Scalar)> {
        self.b.terms_view()
    }

    /// The product's terms.
    pub closed spec fn c_terms(&self) -> Seq<(Variable, Scalar)> {
        self.c.terms_view()
    }

    /// Every variable of the equation is below `n`.
    pub open spec fn below(&self, n: nat) -> bool {
        terms_below(self.a_terms(), n) && terms_below(self.b_terms(), n) && terms_below(
            self.c_terms(),
            n,
        )
    }

    /// `assignment` gives every variable a value and satisfies the equation.
    pub open spec fn satisfied_by(&self, assignment: Seq<Scalar>) -> bool {
        self.below(assignment.len()) && equation_holds(
            self.a_terms(),
            self.b_terms(),
            self.c_terms(),
            field_values(assignment),
        )
    }

    pub(crate) fn from_parts(a: LinearCombination, b: LinearCombination, c: LinearCombination) -> (r: Self)
        ensures
            r.a_terms() == a.terms_view(),
            r.b_terms() == b.terms_view(),
            r.c_terms() == c.terms_view(),
    {
        R1csConstraint { a, b, c }
    }

    /// Left multiplicand.
    pub fn a(&self) -> (r: &LinearCombination)
        ensures
            r.terms_view() == self.a_terms(),
    {
        &self.a
    }

    /// Right multiplicand.
    pub fn b(&self) -> (r: &LinearCombination)
        ensures
            r.terms_view() == self.b_terms(),
    {
        &self.b
    }

    /// Product result.
    pub fn c(&self) -> (r: &LinearCombination)
        ensures
            r.terms_view() == self.c_terms(),
    {
        &self.c
    }

    /// Evaluate this equation against an assignment.
    pub fn is_satisfied(&self, assignment: &[Scalar]) -> (r: bool)
        ensures
            r == self.satisfied_by(assignment@),
    {
        let a = match self.a.evaluate(assignment) {
            Some(value) => value,
            None => {
                return false;
            },
        };
        let b = match self.b.evaluate(assignment) {
            Some(value) => value,
            None => {
                return false;
            },
        };
        let c = match self.c.evaluate(assignment) {
            Some(value) => value,
            None => {
                return false;
            },
        };
        a.mul(&b).equals(&c)
    }
}

impl Clone for R1csConstraint {
    fn clone(&self) -> (r: Self)
        ensures
            r.a_terms() == self.a_terms(),
            r.b_terms() == self.b_terms(),
            r.c_terms() == self.c_terms(),
    {
        R1csConstraint { a: self.a.clone(), b: self.b.clone(), c: self.c.clone() }
    }
}

/// Big-endian encoding of `v` in `n` bytes.
pub open spec fn be_bytes(v: nat, n: nat) -> Seq<u8>
    decreases n,
{
    if n == 0 {
        Seq::empty()
    } else {
        be_bytes(v / 256, (n - 1) as nat).push((v % 256) as u8)
    }
}

/// The eight-byte big-endian encoding of `v`.
pub open spec fn be64(v: nat) -> Seq<u8> {
    be_bytes(v, 8)
}

/// A term: its variable index, then its coefficient's canonical bytes.
pub open spec fn term_encoding(t: (Variable, Scalar)) -> Seq<u8> {
    be64(t.0.index() as nat) + crate::scalar::le_encode(t.1@, 32)
}

/// The terms of a combination, in order.
pub open spec fn terms_encoding(terms: Seq<(Variable, Scalar)>) -> Seq<u8>
    decreases terms.len(),
{
    if terms.len() == 0 {
        Seq::empty()
    } else {
        terms_encoding(terms.drop_last()) + term_encoding(terms.last())
    }
}

/// A combination: its term count, then its terms.
pub open spec fn lc_encoding(terms: Seq<(Variable, Scalar)>) -> Seq<u8> {
    be64(terms.len()) + terms_encoding(terms)
}

/// An equation: its three combinations.
pub open spec fn constraint_encoding(c: R1csConstraint) -> Seq<u8> {
    lc_encoding(c.a_terms()) + lc_encoding(c.b_terms()) + lc_encoding(c.c_terms())
}

/// Equations in order.
pub open spec fn constraints_encoding(cs: Seq<R1csConstraint>) -> Seq<u8>
    decreases cs.len(),
{
    if cs.len() == 0 {
        Seq::empty()
    } else {
        constraints_encoding(cs.drop_last()) + constraint_encoding(cs.last())
    }
}

/// The domain tag `dusk-r1cs-shape-v1`.
pub open spec fn shape_tag() -> Seq<u8> {
    seq![100u8, 117, 115, 107, 45, 114, 49, 99, 115, 45, 115, 104, 97, 112, 101, 45, 118, 49]
}

/// The canonical byte string a shape digest commits to: the domain tag, the
/// variable, public-input and equation counts, then every equation.
pub open spec fn shape_encoding(variables: nat, public_inputs: nat, cs: Seq<R1csConstraint>) -> Seq<u8> {
    shape_tag() + be64(variables) + be64(public_inputs) + be64(cs.len()) + constraints_encoding(cs)
}

/// The SHA-256 digest of a byte string.
pub uninterp spec fn sha256(data: Seq<u8>) -> Seq<u8>;

/// `sha2::Sha256::digest`: the 32-byte SHA-256 digest of `data`.
#[verifier::external_body]
fn sha256_digest(data: &[u8]) -> (r: [u8; 32])
    ensures
        r@ == sha256(data@),
{
    sha2::Sha256::digest(data).into()
}

fn be64_of(v: u64) -> (r: [u8; 8])
    ensures
        r@ == be64(v as nat),
{
    let mut out: [u8; 8] = [0, 0, 0, 0, 0, 0, 0, 0];
    let mut x: u64 = v;
    let mut i: usize = 8;
    while i > 0
        invariant
            i <= 8,
            out@.len() == 8,
            be_bytes(v as nat, 8) == be_bytes(x as nat, i as nat) + out@.subrange(i as int, 8),
        decreases i,
    {
        let ghost before = out@;
        i = i - 1;
        out[i] = (x % 256) as u8;
        proof {
            assert(be_bytes(x as nat, (i + 1) as nat) == be_bytes((x / 256) as nat, i as nat).push(
                (x % 256) as u8,
            ));
            assert(out@.subrange(i as int, 8) =~= seq![(x % 256) as u8] + before.subrange(
                i + 1,
                8,
            ));
            assert(be_bytes((x / 256) as nat, i as nat).push((x % 256) as u8) + before.subrange(
                i + 1,
                8,
            ) =~= be_bytes((x / 256) as nat, i as nat) + out@.subrange(i as int, 8));
        }
        x = x / 256;
    }
    assert(out@.subrange(0, 8) =~= out@);
    out
}

fn push_be64(out: &mut Vec<u8>, v: usize)
    ensures
        final(out)@ == old(out)@ + be64(v as nat),
{
    let bytes = be64_of(v as u64);
    let mut i: usize = 0;
    while i < 8
        invariant
            i <= 8,
            bytes@ == be64(v as nat),
            out@ == old(out)@ + bytes@.subrange(0, i as int),
        decreases 8 - i,
    {
        out.push(bytes[i]);
        i = i + 1;
        assert(out@ =~= old(out)@ + bytes@.subrange(0, i as int));
    }
    assert(bytes@.subrange(0, 8) =~= bytes@);
}

fn push_bytes(out: &mut Vec<u8>, bytes: &[u8])
    ensures
        final(out)@ == old(out)@ + bytes@,
{
    let mut i: usize = 0;
    while i < bytes.len()
        invariant
            i <= bytes@.len(),
            out@ == old(out)@ + bytes@.subrange(0, i as int),
        decreases bytes.len() - i,
    {
        out.push(bytes[i]);
        i = i + 1;
        assert(out@ =~= old(out)@ + bytes@.subrange(0, i as int));
    }
    assert(bytes@.subrange(0, bytes@.len() as int) =~= bytes@);
}

fn push_lc(out: &mut Vec<u8>, lc: &LinearCombination)
    ensures
        final(out)@ == old(out)@ + lc_encoding(lc.terms_view()),
{
    let terms = lc.terms();
    push_be64(out, terms.len());
    let ghost head = out@;
    let mut i: usize = 0;
    while i < terms.len()
        invariant
            i <= terms@.len(),
            out@ == head + terms_encoding(terms@.take(i as int)),
        decreases terms.len() - i,
    {
        let (variable, coefficient) = terms[i];
        push_be64(out, variable.index());
        let encoded = coefficient.to_bytes();
        push_bytes(out, &encoded);
        proof {
            let taken = terms@.take(i + 1);
            assert(taken.drop_last() =~= terms@.take(i as int));
            assert(taken.last() == (variable, coefficient));
        }
        i = i + 1;
    }
    assert(terms@.take(terms@.len() as int) =~= terms@);
}

/// Value-independent rank-1 circuit description.
#[derive(Debug, Clone, PartialEq, Eq)]
pub struct R1csShape {
    constraints: Vec<R1csConstraint>,
    variables: usize,
    public_inputs: usize,
}

impl R1csShape {
    /// Rank-1 equations in emission order.
    pub closed spec fn equations(&self) -> Seq<R1csConstraint> {
        self.constraints@
    }

    /// Total assignment length, including the constant-one variable.
    pub closed spec fn variable_count(&self) -> usize {
        self.variables
    }

    /// Number of public statement variables.
    pub closed spec fn public_count(&self) -> usize {
        self.public_inputs
    }

    pub(crate) fn new(constraints: Vec<R1csConstraint>, variables: usize, public_inputs: usize) -> (r: Self)
        ensures
            r.equations() == constraints@,
            r.variable_count() == variables,
            r.public_count() == public_inputs,
    {
        R1csShape { constraints, variables, public_inputs }
    }

    /// Rank-1 constraints in emission order.
    pub fn constraints(&self) -> (r: &[R1csConstraint])
        ensures
            r@ == self.equations(),
    {
        self.constraints.as_slice()
    }

    /// Total assignment length, including the constant-one variable.
    pub fn variables(&self) -> (r: usize)
        ensures
            r == self.variable_count(),
    {
        self.variables
    }

    /// Number of public statement variables.
    pub fn public_inputs(&self) -> (r: usize)
        ensures
            r == self.public_count(),
    {
        self.public_inputs
    }

    /// The canonical byte string the digest commits to.
    pub fn encoding(&self) -> (r: Vec<u8>)
        ensures
            r@ == shape_encoding(
                self.variable_count() as nat,
                self.public_count() as nat,
                self.equations(),
            ),
    {
        let mut out: Vec<u8> = Vec::new();
        let tag: [u8; 18] = [100, 117, 115, 107, 45, 114, 49, 99, 115, 45, 115, 104, 97, 112, 101, 45, 118, 49];
        push_bytes(&mut out, &tag);
        assert(tag@ =~= shape_tag());
        push_be64(&mut out, self.variables);
        push_be64(&mut out, self.public_inputs);
        push_be64(&mut out, self.constraints.len());
        let ghost head = out@;
        let mut i: usize = 0;
        while i < self.constraints.len()
            invariant
                i <= self.constraints@.len(),
                out@ == head + constraints_encoding(self.constraints@.take(i as int)),
            decreases self.constraints.len() - i,
        {
            let constraint = &self.constraints[i];
            push_lc(&mut out, constraint.a());
            push_lc(&mut out, constraint.b());
            push_lc(&mut out, constraint.c());
            proof {
                let taken = self.constraints@.take(i + 1);
                assert(taken.drop_last() =~= self.constraints@.take(i as int));
                assert(taken.last() == *constraint);
            }
            i = i + 1;
        }
        assert(self.constraints@.take(self.constraints@.len() as int) =~= self.constraints@);
        out
    }

    /// Canonical SHA-256 digest of the shape.
    pub fn digest(&self) -> (r: [u8; 32])
        ensures
            r@ == sha256(
                shape_encoding(self.variable_count() as nat, self.public_count() as nat, self.equations()),
            ),
    {
        let bytes = self.encoding();
        sha256_digest(bytes.as_slice())
    }
}

/// Canonically ordered values for a finalized rank-1 circuit.
#[derive(Debug, Clone, PartialEq, Eq)]
pub struct R1csAssignment {
    values: Vec<Scalar>,
}

impl R1csAssignment {
    /// The values in canonical variable order.
    pub closed spec fn value_seq(&self) -> Seq<Scalar> {
        self.values@
    }

    pub(crate) fn new(values: Vec<Scalar>) -> (r: Self)
        ensures
            r.value_seq() == values@,
    {
        R1csAssignment { values }
    }

    /// All values in canonical variable order.
    pub fn values(&self) -> (r: &[Scalar])
        ensures
            r@ == self.value_seq(),
    {
        self.values.as_slice()
    }
}

/// Every equation of `cs` is satisfied by `assignment`.
pub open spec fn all_satisfied(cs: Seq<R1csConstraint>, assignment: Seq<Scalar>) -> bool {
    forall|k: int| 0 <= k < cs.len() ==> (#[trigger] cs[k]).satisfied_by(assignment)
}

/// A finalized rank-1 shape and its assignment.
#[derive(Debug, Clone)]
pub struct R1csCircuit {
    shape: R1csShape,
    assignment: R1csAssignment,
}

impl R1csCircuit {
    /// The shape.
    pub closed spec fn shape_view(&self) -> R1csShape {
        self.shape
    }

    /// The assignment.
    pub closed spec fn assignment_view(&self) -> R1csAssignment {
        self.assignment
    }

    pub(crate) fn new(shape: R1csShape, assignment: R1csAssignment) -> (r: Self)
        ensures
            r.shape_view() == shape,
            r.assignment_view() == assignment,
    {
        R1csCircuit { shape, assignment }
    }

    /// Value-independent circuit shape.
    pub fn shape(&self) -> (r: &R1csShape)
        ensures
            *r == self.shape_view(),
    {
        &self.shape
    }

    /// Assignment corresponding to the shape.
    pub fn assignment(&self) -> (r: &R1csAssignment)
        ensures
            *r == self.assignment_view(),
    {
        &self.assignment
    }

    /// Return whether every rank-1 equation is satisfied.
    pub fn is_satisfied(&self) -> (r: bool)
        ensures
            r == all_satisfied(self.shape_view().equations(), self.assignment_view().value_seq()),
    {
        let constraints = self.shape.constraints();
        let values = self.assignment.values();
        let mut k: usize = 0;
        while k < constraints.len()
            invariant
                k <= constraints@.len(),
                constraints@ == self.shape_view().equations(),
                values@ == self.assignment_view().value_seq(),
                forall|t: int| 0 <= t < k ==> (#[trigger] constraints@[t]).satisfied_by(values@),
            decreases constraints.len() - k,
        {
            if !constraints[k].is_satisfied(values) {
                return false;
            }
            k = k + 1;
        }
        true
    }
}

} // verus!
