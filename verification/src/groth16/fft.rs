//! Serial radix-two FFT domains used by the R1CS-to-QAP reduction.

use vstd::arithmetic::power2::{lemma_pow2_unfold, pow2};
use vstd::prelude::*;

use super::error::Error;
use super::dft::{
    block_value, dft, dft_all, half_turn, lemma_block_final, lemma_block_start, lemma_butterfly,
    lemma_dft_inverts, lemma_domain_half_turn, lemma_inverse_half_turn, lemma_reverse_involution,
};
use crate::scalar::{fmul, fpow, fsub, lemma_fpow_step, Scalar};

verus! {

broadcast use crate::scalar::lemma_scalar_canonical;

/// `TWO_ADACITY`: the largest `s` with `2^s` dividing `q - 1`, which is 32.
#[verifier::external_body]
fn two_adicity() -> (r: u32)
    ensures
        r == 32,
{
    dusk_curves::bls12_381::TWO_ADACITY
}

/// The value of `ROOT_OF_UNITY`, of multiplicative order `2^32`.
pub open spec fn root_of_unity_value() -> nat {
    0x16a2a19edfe81f20d09b681922c813b4b63683508c2280b93829971f439f0d2bnat
}

/// The `n`-bit reversal of `v`: the bits `0 .. n` of `v`, read from the
/// least significant one, as the digits of a number from the most
/// significant one.
pub open spec fn reverse_bits(v: nat, n: nat) -> nat
    decreases n,
{
    if n == 0 {
        0
    } else {
        reverse_bits(v, (n - 1) as nat) * 2 + (v / pow2((n - 1) as nat)) % 2
    }
}

/// An `n`-bit reversal is below `2^n`.
pub proof fn lemma_reverse_bits_bound(v: nat, n: nat)
    ensures
        reverse_bits(v, n) < pow2(n),
    decreases n,
{
    if n == 0 {
        vstd::arithmetic::power2::lemma2_to64();
    } else {
        lemma_reverse_bits_bound(v, (n - 1) as nat);
        lemma_pow2_unfold(n);
    }
}

/// A power-of-two multiplicative subgroup of the scalar field and its
/// coset by the multiplicative generator.
#[derive(Debug, Clone, Copy)]
pub struct EvaluationDomain {
    size: usize,
    log_size: u32,
    omega: Scalar,
    omega_inverse: Scalar,
    size_inverse: Scalar,
    coset_inverse: Scalar,
}

impl EvaluationDomain {
    /// The domain has `2^log_size < 2^32` elements, `omega` is
    /// `ROOT_OF_UNITY^(2^(32 - log_size))`, and the three stored inverses
    /// are inverses.
    #[verifier::type_invariant]
    pub closed spec fn well_formed(self) -> bool {
        &&& self.log_size < 32
        &&& self.size == pow2(self.log_size as nat)
        &&& self.omega@ == fpow(root_of_unity_value(), pow2((32 - self.log_size) as nat))
        &&& fmul(self.omega@, self.omega_inverse@) == 1
        &&& fmul(self.size as nat, self.size_inverse@) == 1
        &&& fmul(7, self.coset_inverse@) == 1
        &&& half_turn(self.omega@, self.log_size as nat)
        &&& half_turn(self.omega_inverse@, self.log_size as nat)
    }

    /// Number of elements.
    pub closed spec fn domain_size(self) -> nat {
        self.size as nat
    }

    /// Base-two logarithm of the number of elements.
    pub closed spec fn log_size(self) -> nat {
        self.log_size as nat
    }

    /// The generator `ω` of the subgroup.
    pub closed spec fn omega(self) -> nat {
        self.omega@
    }

    /// Construct the smallest power-of-two domain with at least
    /// `minimum_size` elements (and at least one). Domains of `2^32` or more
    /// elements are refused, as is a domain whose generator or size has no
    /// inverse.
    pub fn new(minimum_size: usize) -> (r: Result<EvaluationDomain, Error>)
        ensures
            r matches Ok(d) ==> {
                &&& d.well_formed()
                &&& d.domain_size() == pow2(d.log_size())
                &&& d.log_size() < 32
                &&& minimum_size <= d.domain_size()
                &&& d.log_size() == 0 || pow2((d.log_size() - 1) as nat) < minimum_size
                &&& d.omega() == fpow(
                    root_of_unity_value(),
                    pow2((32 - d.log_size()) as nat),
                )
            },
            r is Err ==> r == Err::<EvaluationDomain, Error>(Error::InvalidEvaluationDomain),
            r is Err <==> domain_refused(minimum_size as nat),
            r matches Ok(d) ==> d.log_size() == domain_log_for(minimum_size as nat),
    {
        let target: usize = if minimum_size == 0 {
            1
        } else {
            minimum_size
        };
        let limit = two_adicity();
        let mut size: usize = 1;
        let mut log_size: u32 = 0;
        proof {
            vstd::arithmetic::power2::lemma2_to64();
        }
        while size < target
            invariant
                limit == 32,
                log_size < 32,
                size == pow2(log_size as nat),
                target >= 1,
                target == (if minimum_size == 0 {
                    1
                } else {
                    minimum_size
                }),
                log_size == 0 || pow2((log_size - 1) as nat) < target,
            decreases limit - log_size,
        {
            if log_size + 1 >= limit {
                proof {
                    vstd::arithmetic::power2::lemma2_to64();
                    assert(size == pow2(31));
                    assert forall|k: nat| #[trigger] fits_domain(minimum_size as nat, k) implies false by {
                        if k < 31 {
                            vstd::arithmetic::power2::lemma_pow2_strictly_increases(k, 31);
                        }
                    }
                }
                return Err(Error::InvalidEvaluationDomain);
            }
            proof {
                lemma_pow2_unfold((log_size + 1) as nat);
                vstd::arithmetic::power2::lemma2_to64();
                if log_size + 1 < 31 {
                    vstd::arithmetic::power2::lemma_pow2_strictly_increases(
                        (log_size + 1) as nat,
                        31,
                    );
                }
            }
            size = size * 2;
            log_size = log_size + 1;
        }
        let root = Scalar::root_of_unity();
        let mut omega = root;
        let mut step: u32 = log_size;
        proof {
            vstd::arithmetic::power2::lemma2_to64();
            vstd::arithmetic::power::lemma_pow1(root_of_unity_value() as int);
            vstd::arithmetic::div_mod::lemma_small_mod(
                root_of_unity_value(),
                crate::scalar::modulus(),
            );
        }
        while step < limit
            invariant
                limit == 32,
                log_size <= step <= 32,
                omega@ == fpow(root_of_unity_value(), pow2((step - log_size) as nat)),
            decreases limit - step,
        {
            proof {
                lemma_fpow_square(root_of_unity_value(), pow2((step - log_size) as nat));
                lemma_pow2_unfold((step + 1 - log_size) as nat);
            }
            omega = omega.square();
            step = step + 1;
        }
        let ghost k = log_size as nat;
        proof {
            assert(size == pow2(k));
            assert(minimum_size <= size);
            assert(k == 0 || pow2((k - 1) as nat) < minimum_size) by {
                if k > 0 {
                    vstd::arithmetic::power2::lemma2_to64();
                }
            }
            assert(minimum_size <= pow2(31)) by {
                if log_size < 31 {
                    vstd::arithmetic::power2::lemma_pow2_strictly_increases(k, 31);
                }
            }
        }
        let omega_inverse = match omega.invert() {
            Some(inverse) => inverse,
            None => {
                proof {
                    assert(fpow(root_of_unity_value(), pow2((32 - k) as nat)) == 0);
                    assert(fits_domain(minimum_size as nat, k));
                }
                return Err(Error::InvalidEvaluationDomain);
            },
        };
        let size_inverse = match Scalar::from_u64(size as u64).invert() {
            Some(inverse) => inverse,
            None => {
                proof {
                    assert(size < crate::scalar::modulus()) by {
                        crate::scalar::lemma_modulus_fits();
                    }
                }
                return Err(Error::InvalidEvaluationDomain);
            },
        };
        let coset_inverse = match Scalar::multiplicative_generator().invert() {
            Some(inverse) => inverse,
            None => {
                return Err(Error::InvalidEvaluationDomain);
            },
        };
        proof {
            lemma_domain_half_turn(k);
            lemma_inverse_half_turn(omega@, omega_inverse@, k);
            assert forall|j: nat| #[trigger] fits_domain(minimum_size as nat, j) implies j == k by {
                lemma_power_position_unique(j, k, minimum_size as nat);
            }
            assert(fits_domain(minimum_size as nat, k));
            assert(domain_log_for(minimum_size as nat) == k);
        }
        Ok(
            EvaluationDomain {
                size,
                log_size,
                omega,
                omega_inverse,
                size_inverse,
                coset_inverse,
            },
        )
    }

    /// Return the number of elements in the domain.
    pub fn size(self) -> (r: usize)
        ensures
            r == self.domain_size(),
            r == pow2(self.log_size()),
            self.log_size() < 32,
    {
        proof {
            use_type_invariant(&self);
        }
        self.size
    }

    /// Evaluate coefficients over the subgroup, padding with zeros (or
    /// truncating) to the domain size.
    pub fn fft(self, coefficients: &[Scalar]) -> (r: Vec<Scalar>)
        ensures
            r@.len() == self.domain_size(),
            forall|k: int|
                0 <= k < r@.len() ==> #[trigger] r@[k]@ == dft(
                    padded(values_of(coefficients@), self.domain_size()),
                    self.omega(),
                    k as nat,
                ),
    {
        proof {
            use_type_invariant(&self);
        }
        let mut values = resized(coefficients, self.size);
        proof {
            assert(values_of(values@) =~= padded(values_of(coefficients@), self.domain_size()));
        }
        serial_fft(&mut values, &self.omega, self.log_size);
        values
    }

    /// Interpolate subgroup evaluations into coefficient form.
    pub fn ifft(self, evaluations: &[Scalar]) -> (r: Vec<Scalar>)
        ensures
            r@.len() == self.domain_size(),
            forall|k: int|
                0 <= k < r@.len() ==> #[trigger] r@[k]@ == fmul(
                    dft(
                        padded(values_of(evaluations@), self.domain_size()),
                        self.omega_inverse_value(),
                        k as nat,
                    ),
                    self.size_inverse_value(),
                ),
            values_of(r@) == self.interpolation(values_of(evaluations@)),
    {
        proof {
            use_type_invariant(&self);
        }
        let mut coefficients = resized(evaluations, self.size);
        proof {
            assert(values_of(coefficients@) =~= padded(values_of(evaluations@), self.domain_size()));
        }
        serial_fft(&mut coefficients, &self.omega_inverse, self.log_size);
        let ghost transformed = coefficients@;
        let mut i: usize = 0;
        while i < coefficients.len()
            invariant
                i <= coefficients@.len(),
                coefficients@.len() == self.size,
                transformed.len() == self.size,
                forall|k: int|
                    0 <= k < i ==> #[trigger] coefficients@[k]@ == fmul(
                        transformed[k]@,
                        self.size_inverse@,
                    ),
                forall|k: int| i <= k < self.size ==> #[trigger] coefficients@[k] == transformed[k],
            decreases coefficients@.len() - i,
        {
            let scaled = coefficients[i].mul(&self.size_inverse);
            coefficients.set(i, scaled);
            i = i + 1;
        }
        proof {
            assert(values_of(coefficients@) =~= self.interpolation(values_of(evaluations@)));
        }
        coefficients
    }

    /// Evaluate coefficients over the multiplicative-generator coset.
    pub fn coset_fft(self, coefficients: &[Scalar]) -> (r: Vec<Scalar>)
        ensures
            r@.len() == self.domain_size(),
            forall|k: int|
                0 <= k < r@.len() ==> #[trigger] r@[k]@ == dft(
                    padded(coset_scaled(values_of(coefficients@), 7), self.domain_size()),
                    self.omega(),
                    k as nat,
                ),
            values_of(r@) == self.coset_evaluation(values_of(coefficients@)),
    {
        let mut values = resized(coefficients, coefficients.len());
        distribute_powers(&mut values, &Scalar::multiplicative_generator());
        proof {
            assert(values_of(values@) =~= coset_scaled(values_of(coefficients@), 7));
        }
        let r = self.fft(values.as_slice());
        proof {
            assert(values_of(r@) =~= self.coset_evaluation(values_of(coefficients@)));
        }
        r
    }

    /// Interpolate multiplicative-generator coset evaluations.
    pub fn coset_ifft(self, evaluations: &[Scalar]) -> (r: Vec<Scalar>)
        ensures
            r@.len() == self.domain_size(),
            forall|k: int|
                0 <= k < r@.len() ==> #[trigger] r@[k]@ == fmul(
                    fmul(
                        dft(
                            padded(values_of(evaluations@), self.domain_size()),
                            self.omega_inverse_value(),
                            k as nat,
                        ),
                        self.size_inverse_value(),
                    ),
                    fpow(self.coset_inverse_value(), k as nat),
                ),
            values_of(r@) == self.coset_interpolation(values_of(evaluations@)),
    {
        let mut coefficients = self.ifft(evaluations);
        distribute_powers(&mut coefficients, &self.coset_inverse);
        proof {
            assert(values_of(coefficients@) =~= self.coset_interpolation(values_of(evaluations@)));
        }
        coefficients
    }

    /// Evaluate the domain vanishing polynomial `X^n - 1` at `point`.
    pub fn vanishing(self, point: &Scalar) -> (r: Scalar)
        ensures
            r@ == fsub(fpow(point@, self.domain_size()), 1),
    {
        point.pow_u64(self.size as u64).sub(&Scalar::one())
    }

    /// Evaluate every Lagrange basis polynomial of the domain at `point`:
    /// entry `i` is the `c_i` with `c_i·(point - ω^i) = Z(point)·n⁻¹·ω^i`.
    /// Fails when `point` is a root of the vanishing polynomial or of one
    /// of the factors `point - ω^i`.
    pub fn lagrange_at(self, point: &Scalar) -> (r: Result<Vec<Scalar>, Error>)
        ensures
            r is Err <==> (fsub(fpow(point@, self.domain_size()), 1) == 0 || exists|i: nat|
                i < self.domain_size() && #[trigger] fsub(point@, fpow(self.omega(), i)) == 0),
            r is Err ==> r == Err::<Vec<Scalar>, Error>(Error::InvalidEvaluationDomain),
            r matches Ok(c) ==> c@.len() == self.domain_size() && forall|i: int|
                0 <= i < c@.len() ==> fmul(#[trigger] c@[i]@, fsub(point@, fpow(self.omega(), i as nat)))
                    == fmul(
                    fmul(fsub(fpow(point@, self.domain_size()), 1), self.size_inverse_value()),
                    fpow(self.omega(), i as nat),
                ),
    {
        proof {
            use_type_invariant(&self);
        }
        let vanishing = self.vanishing(point);
        if vanishing.equals(&Scalar::zero()) {
            return Err(Error::InvalidEvaluationDomain);
        }
        let common = vanishing.mul(&self.size_inverse);
        let mut omega = Scalar::one();
        let mut coefficients: Vec<Scalar> = Vec::new();
        let mut i: usize = 0;
        proof {
            lemma_fpow_step(self.omega@, 0);
        }
        while i < self.size
            invariant
                i <= self.size,
                coefficients@.len() == i,
                omega@ == fpow(self.omega(), i as nat),
                common@ == fmul(vanishing@, self.size_inverse_value()),
                vanishing@ == fsub(fpow(point@, self.domain_size()), 1),
                vanishing@ != 0,
                i <= self.domain_size(),
                forall|j: nat| j < i ==> #[trigger] fsub(point@, fpow(self.omega(), j)) != 0,
                forall|j: int|
                    0 <= j < i ==> fmul(#[trigger] coefficients@[j]@, fsub(point@, fpow(self.omega(), j as nat)))
                        == fmul(common@, fpow(self.omega(), j as nat)),
            decreases self.size - i,
        {
            let difference = point.sub(&omega);
            let inverse = match difference.invert() {
                Some(inverse) => inverse,
                None => {
                    proof {
                        assert(fsub(point@, fpow(self.omega(), i as nat)) == 0);
                    }
                    return Err(Error::InvalidEvaluationDomain);
                },
            };
            let coefficient = common.mul(&omega).mul(&inverse);
            proof {
                lemma_solve(fmul(common@, omega@), difference@, inverse@);
                assert(fmul(coefficient@, difference@) == fmul(common@, omega@));
            }
            coefficients.push(coefficient);
            proof {
                lemma_fpow_step(self.omega@, i as nat);
            }
            omega = omega.mul(&self.omega);
            i = i + 1;
        }
        Ok(coefficients)
    }

    /// The inverse of the generator.
    pub closed spec fn omega_inverse_value(self) -> nat {
        self.omega_inverse@
    }

    /// The inverse of the coset generator 7.
    pub closed spec fn coset_inverse_value(self) -> nat {
        self.coset_inverse@
    }

    /// The stored inverse of the domain size.
    pub closed spec fn size_inverse_value(self) -> nat {
        self.size_inverse@
    }

    /// The coefficients that `ifft` computes from evaluations `v`.
    pub open spec fn interpolation(self, v: Seq<nat>) -> Seq<nat> {
        Seq::new(
            self.domain_size(),
            |k: int|
                fmul(
                    dft(padded(v, self.domain_size()), self.omega_inverse_value(), k as nat),
                    self.size_inverse_value(),
                ),
        )
    }

    /// The coset evaluations that `coset_fft` computes from coefficients
    /// `v`.
    pub open spec fn coset_evaluation(self, v: Seq<nat>) -> Seq<nat> {
        Seq::new(
            self.domain_size(),
            |k: int| dft(padded(coset_scaled(v, 7), self.domain_size()), self.omega(), k as nat),
        )
    }

    /// The coefficients that `coset_ifft` computes from coset evaluations
    /// `v`.
    pub open spec fn coset_interpolation(self, v: Seq<nat>) -> Seq<nat> {
        Seq::new(
            self.domain_size(),
            |k: int| fmul(self.interpolation(v)[k], fpow(self.coset_inverse_value(), k as nat)),
        )
    }

    /// A domain is determined by its size: two domains of the same size
    /// have the same generator and the same inverses.
    pub proof fn lemma_domain_determined(self, other: EvaluationDomain)
        requires
            self.well_formed(),
            other.well_formed(),
            self.domain_size() == other.domain_size(),
        ensures
            self.log_size() == other.log_size(),
            self.omega() == other.omega(),
            self.omega_inverse_value() == other.omega_inverse_value(),
            self.size_inverse_value() == other.size_inverse_value(),
            self.coset_inverse_value() == other.coset_inverse_value(),
    {
        if self.log_size != other.log_size {
            if self.log_size < other.log_size {
                vstd::arithmetic::power2::lemma_pow2_strictly_increases(
                    self.log_size as nat,
                    other.log_size as nat,
                );
            } else {
                vstd::arithmetic::power2::lemma_pow2_strictly_increases(
                    other.log_size as nat,
                    self.log_size as nat,
                );
            }
        }
        crate::field::lemma_field_inverse_unique(self.omega@, self.omega_inverse@);
        crate::field::lemma_field_inverse_unique(self.omega@, other.omega_inverse@);
        crate::field::lemma_field_inverse_unique(self.size as nat, self.size_inverse@);
        crate::field::lemma_field_inverse_unique(self.size as nat, other.size_inverse@);
        crate::field::lemma_field_inverse_unique(7, self.coset_inverse@);
        crate::field::lemma_field_inverse_unique(7, other.coset_inverse@);
    }

    /// The facts a domain carries: `ω` has order `n = 2^log_size` (so
    /// `ω^n = 1`), and the stored inverses are the inverses of `ω`, `n` and
    /// the coset generator 7.
    pub proof fn lemma_roots(self)
        requires
            self.well_formed(),
        ensures
            self.domain_size() == pow2(self.log_size()),
            self.log_size() < 32,
            half_turn(self.omega(), self.log_size()),
            half_turn(self.omega_inverse_value(), self.log_size()),
            fpow(self.omega(), self.domain_size()) == 1,
            fmul(self.omega(), self.omega_inverse_value()) == 1,
            fmul(self.domain_size(), self.size_inverse_value()) == 1,
            fmul(7, self.coset_inverse_value()) == 1,
            self.omega() < crate::scalar::modulus(),
            self.omega_inverse_value() < crate::scalar::modulus(),
            self.size_inverse_value() < crate::scalar::modulus(),
            self.coset_inverse_value() < crate::scalar::modulus(),
            self.omega() == fpow(root_of_unity_value(), pow2((32 - self.log_size()) as nat)),
    {
        if self.log_size > 0 {
            super::dft::lemma_full_turn(self.omega@, self.log_size as nat);
        } else {
            let root = root_of_unity_value();
            let minus = (crate::scalar::modulus() - 1) as nat;
            super::dft::lemma_root_of_unity_half_order();
            lemma_pow2_unfold(32);
            super::dft::lemma_fpow_double(root, pow2(31));
            crate::field::lemma_minus_one_squared();
            assert(crate::scalar::fneg(1) == minus) by {
                reveal(crate::scalar::fsub);
                vstd::arithmetic::div_mod::lemma_small_mod(1, crate::scalar::modulus());
                vstd::arithmetic::div_mod::lemma_small_mod(minus, crate::scalar::modulus());
            }
            vstd::arithmetic::power2::lemma2_to64();
            super::dft::lemma_fpow_small(self.omega@);
        }
    }

    /// Evaluating over the domain the coefficients interpolated from
    /// evaluations gives the evaluations back: `dft(interpolation(v), ω)_t = v_t`.
    pub proof fn lemma_interpolation_evaluates(self, v: Seq<nat>, t: nat)
        requires
            self.well_formed(),
            v.len() == self.domain_size(),
            forall|j: int| 0 <= j < v.len() ==> #[trigger] v[j] < crate::scalar::modulus(),
            t < v.len(),
        ensures
            dft(self.interpolation(v), self.omega(), t) == v[t as int],
    {
        let n = self.domain_size();
        let a = padded(v, n);
        let d = dft_all(a, self.omega_inverse_value());
        let inv = self.size_inverse_value();
        let w = self.omega();
        let c = self.interpolation(v);
        assert(a =~= v);
        assert forall|k: int| 0 <= k < n implies #[trigger] fmul(c[k], fpow(w, (k * t) as nat)) == fmul(
            fmul(d[k], fpow(w, (k * t) as nat)),
            inv,
        ) by {
            let x = fpow(w, (k * t) as nat);
            crate::field::lemma_fmul_associates(d[k], inv, x);
            crate::field::lemma_fmul_commutes(inv, x);
            crate::field::lemma_fmul_associates(d[k], x, inv);
        }
        let f = |k: int| fmul(d[k], fpow(w, (k * t) as nat));
        let g = |k: int| fmul(c[k], fpow(w, (k * t) as nat));
        super::dft::lemma_sum_ext(g, |k: int| fmul(f(k), inv), n);
        super::dft::lemma_sum_scale(f, n, inv);
        self.lemma_fft_round_trip(v, t);
        assert(dft(c, w, t) == super::dft::sum_of(g, n));
        assert(dft(d, w, t) == super::dft::sum_of(f, n));
    }

    /// Domains of the same size transform alike.
    pub proof fn lemma_same_size_transforms(self, other: EvaluationDomain, v: Seq<nat>)
        requires
            self.well_formed(),
            other.well_formed(),
            self.domain_size() == other.domain_size(),
        ensures
            self.interpolation(v) == other.interpolation(v),
            self.coset_evaluation(v) == other.coset_evaluation(v),
            self.coset_interpolation(v) == other.coset_interpolation(v),
    {
        self.lemma_domain_determined(other);
        assert(self.interpolation(v) =~= other.interpolation(v));
        assert(self.coset_evaluation(v) =~= other.coset_evaluation(v));
        assert(self.coset_interpolation(v) =~= other.coset_interpolation(v));
    }

    /// The two transforms of a domain undo each other: for `a` of the
    /// domain's size, the inverse transform of the transform of `a` is `a`,
    /// and so is the transform of its inverse transform.
    pub proof fn lemma_fft_round_trip(self, a: Seq<nat>, i: nat)
        requires
            self.well_formed(),
            a.len() == self.domain_size(),
            forall|j: int| 0 <= j < a.len() ==> #[trigger] a[j] < crate::scalar::modulus(),
            i < a.len(),
        ensures
            fmul(
                dft(dft_all(a, self.omega()), self.omega_inverse_value(), i),
                self.size_inverse_value(),
            ) == a[i as int],
            fmul(
                dft(dft_all(a, self.omega_inverse_value()), self.omega(), i),
                self.size_inverse_value(),
            ) == a[i as int],
    {
        let levels = self.log_size as nat;
        lemma_dft_inverts(a, self.omega@, self.omega_inverse@, levels, self.size_inverse@, i);
        crate::field::lemma_fmul_commutes(self.omega@, self.omega_inverse@);
        lemma_dft_inverts(a, self.omega_inverse@, self.omega@, levels, self.size_inverse@, i);
    }
}

/// `(a·b⁻¹)·b = a` in the field, for `b·b⁻¹ = 1`.
proof fn lemma_solve(a: nat, b: nat, b_inverse: nat)
    requires
        fmul(b, b_inverse) == 1,
        a < crate::scalar::modulus(),
    ensures
        fmul(fmul(a, b_inverse), b) == a,
{
    crate::field::lemma_fmul_associates(a, b_inverse, b);
    crate::field::lemma_fmul_commutes(b_inverse, b);
    crate::field::lemma_fmul_unit(a);
}

/// Squaring an exponentiation doubles the exponent.
proof fn lemma_fpow_square(a: nat, e: nat)
    ensures
        fmul(fpow(a, e), fpow(a, e)) == fpow(a, e * 2),
{
    reveal(fmul);
    let q = crate::scalar::modulus() as int;
    let p = vstd::arithmetic::power::pow(a as int, e);
    let e2: nat = e * 2;
    assert(e2 == e + e);
    vstd::arithmetic::power::lemma_pow_adds(a as int, e, e);
    assert(vstd::arithmetic::power::pow(a as int, e2) == p * p);
    vstd::arithmetic::div_mod::lemma_mul_mod_noop(p, p, q);
    let r = p % q;
    assert(r >= 0);
    assert(fpow(a, e) == r);
    assert(fmul(fpow(a, e), fpow(a, e)) == (r * r) % q);
}

/// `2^k`, below `2^32`, is the smallest power of two that is at least `m`
/// (and at least one).
pub open spec fn fits_domain(m: nat, k: nat) -> bool {
    k < 32 && m <= pow2(k) && (k == 0 || pow2((k - 1) as nat) < m)
}

/// The base-two logarithm of the size of the domain that
/// `EvaluationDomain::new(m)` builds.
pub open spec fn domain_log_for(m: nat) -> nat {
    choose|k: nat| #[trigger] fits_domain(m, k)
}

/// `EvaluationDomain::new(m)` refuses `m`: the domain would have `2^32` or
/// more elements, or its generator would be zero.
pub open spec fn domain_refused(m: nat) -> bool {
    m > pow2(31) || exists|k: nat|
        #[trigger] fits_domain(m, k) && fpow(root_of_unity_value(), pow2((32 - k) as nat)) == 0
}

/// The logarithm `domain_log_for(m)` is the one `k` that fits `m`.
pub proof fn lemma_domain_log_for(m: nat, k: nat)
    requires
        fits_domain(m, k),
    ensures
        domain_log_for(m) == k,
{
    let j = domain_log_for(m);
    assert(fits_domain(m, j));
    lemma_power_position_unique(j, k, m);
}

/// There is one `k` with `2^(k-1) < n <= 2^k`.
proof fn lemma_power_position_unique(j: nat, k: nat, n: nat)
    requires
        n <= pow2(j),
        j == 0 || pow2((j - 1) as nat) < n,
        n <= pow2(k),
        k == 0 || pow2((k - 1) as nat) < n,
    ensures
        j == k,
{
    if j < k {
        if j < (k - 1) as nat {
            vstd::arithmetic::power2::lemma_pow2_strictly_increases(j, (k - 1) as nat);
        }
    } else if k < j {
        if k < (j - 1) as nat {
            vstd::arithmetic::power2::lemma_pow2_strictly_increases(k, (j - 1) as nat);
        }
    }
}

/// A copy of `values` cut or padded with zeros to `size` entries.
fn resized(values: &[Scalar], size: usize) -> (r: Vec<Scalar>)
    ensures
        r@.len() == size,
        forall|i: int| 0 <= i < size ==> #[trigger] r@[i]@ == (if i < values@.len() {
            values@[i]@
        } else {
            0
        }),
{
    let mut out: Vec<Scalar> = Vec::new();
    let mut i: usize = 0;
    while i < size
        invariant
            i <= size,
            out@.len() == i,
            forall|j: int| 0 <= j < i ==> #[trigger] out@[j]@ == (if j < values@.len() {
                values@[j]@
            } else {
                0
            }),
        decreases size - i,
    {
        if i < values.len() {
            out.push(values[i]);
        } else {
            out.push(Scalar::zero());
        }
        i = i + 1;
    }
    out
}

/// Multiply entry `i` by `generator^i`.
fn distribute_powers(values: &mut Vec<Scalar>, generator: &Scalar)
    ensures
        final(values)@.len() == old(values)@.len(),
        forall|i: int|
            0 <= i < old(values)@.len() ==> #[trigger] final(values)@[i]@ == fmul(
                old(values)@[i]@,
                fpow(generator@, i as nat),
            ),
{
    let mut power = Scalar::one();
    let mut i: usize = 0;
    proof {
        lemma_fpow_step(generator@, 0);
    }
    while i < values.len()
        invariant
            i <= values@.len(),
            values@.len() == old(values)@.len(),
            power@ == fpow(generator@, i as nat),
            forall|j: int|
                0 <= j < i ==> #[trigger] values@[j]@ == fmul(
                    old(values)@[j]@,
                    fpow(generator@, j as nat),
                ),
            forall|j: int| i <= j < values@.len() ==> #[trigger] values@[j] == old(values)@[j],
        decreases values@.len() - i,
    {
        let scaled = values[i].mul(&power);
        values.set(i, scaled);
        proof {
            lemma_fpow_step(generator@, i as nat);
        }
        power = power.mul(generator);
        i = i + 1;
    }
}

/// Reverse the low `bits` bits of `value`.
fn bitreverse(value: u32, bits: u32) -> (r: u32)
    requires
        bits < 32,
    ensures
        r == reverse_bits(value as nat, bits as nat),
{
    let mut rest: u32 = value;
    let mut reversed: u32 = 0;
    let mut k: u32 = 0;
    proof {
        vstd::arithmetic::power2::lemma2_to64();
    }
    while k < bits
        invariant
            k <= bits < 32,
            reversed == reverse_bits(value as nat, k as nat),
            rest == value as nat / pow2(k as nat),
        decreases bits - k,
    {
        proof {
            lemma_reverse_bits_bound(value as nat, k as nat);
            vstd::arithmetic::power2::lemma_pow2_strictly_increases(k as nat, 31);
            vstd::arithmetic::power2::lemma2_to64();
            lemma_pow2_unfold((k + 1) as nat);
            vstd::arithmetic::div_mod::lemma_div_denominator(
                value as int,
                pow2(k as nat) as int,
                2,
            );
            assert(rest & 1 == rest % 2) by (bit_vector);
            assert(rest >> 1 == rest / 2) by (bit_vector);
            assert(reversed < 0x8000_0000);
            assert((reversed << 1) | (rest & 1) == reversed * 2 + rest % 2) by (bit_vector)
                requires
                    reversed < 0x8000_0000,
            ;
        }
        reversed = (reversed << 1) | (rest & 1);
        rest = rest >> 1;
        k = k + 1;
    }
    reversed
}

/// `values` cut or padded with zeros to `n` entries.
pub open spec fn padded(values: Seq<nat>, n: nat) -> Seq<nat> {
    Seq::new(n, |i: int| if i < values.len() { values[i] } else { 0 })
}

/// Entry `i` multiplied by `g^i`.
pub open spec fn coset_scaled(values: Seq<nat>, g: nat) -> Seq<nat> {
    Seq::new(values.len(), |i: int| fmul(values[i], fpow(g, i as nat)))
}

/// The field values of a vector of scalars.
pub open spec fn values_of(values: Seq<Scalar>) -> Seq<nat> {
    values.map_values(|x: Scalar| x@)
}

/// In-place radix-two decimation-in-time transform of `values` with the
/// root `omega`: a bit-reversal permutation followed by `log_size` rounds of
/// butterflies. For a root of order `2^log_size`, entry `k` becomes
/// `Σ_j values[j]·omega^(j·k)`.
fn serial_fft(values: &mut Vec<Scalar>, omega: &Scalar, log_size: u32)
    requires
        log_size < 32,
        old(values)@.len() == pow2(log_size as nat),
        half_turn(omega@, log_size as nat),
    ensures
        final(values)@.len() == old(values)@.len(),
        forall|k: int|
            0 <= k < old(values)@.len() ==> #[trigger] final(values)@[k]@ == dft(
                values_of(old(values)@),
                omega@,
                k as nat,
            ),
{
    let ghost input = values_of(values@);
    let ghost levels = log_size as nat;
    proof {
        vstd::arithmetic::power2::lemma2_to64();
        if log_size < 31 {
            vstd::arithmetic::power2::lemma_pow2_strictly_increases(log_size as nat, 31);
        }
    }
    let size: u32 = values.len() as u32;
    let mut index: u32 = 0;
    while index < size
        invariant
            index <= size,
            size == values@.len(),
            size == pow2(levels),
            levels == log_size,
            log_size < 32,
            input.len() == size,
            forall|i: int|
                0 <= i < size ==> #[trigger] values@[i]@ == (if i < index || reverse_bits(
                    i as nat,
                    levels,
                ) < index {
                    input[reverse_bits(i as nat, levels) as int]
                } else {
                    input[i]
                }),
        decreases size - index,
    {
        let reversed = bitreverse(index, log_size);
        proof {
            lemma_reverse_involution(index as nat, levels);
        }
        if index < reversed {
            let upper = values[index as usize];
            let lower = values[reversed as usize];
            values.set(index as usize, lower);
            values.set(reversed as usize, upper);
        }
        proof {
            assert forall|i: int| 0 <= i < size implies #[trigger] values@[i]@ == (if i < index + 1
                || reverse_bits(i as nat, levels) < index + 1 {
                input[reverse_bits(i as nat, levels) as int]
            } else {
                input[i]
            }) by {
                lemma_reverse_involution(i as nat, levels);
            }
        }
        index = index + 1;
    }
    proof {
        assert forall|j: int| 0 <= j < size implies #[trigger] values@[j]@ == block_value(
            input,
            omega@,
            levels,
            0,
            (j / 1) as nat,
            (j % 1) as nat,
        ) by {
            lemma_reverse_involution(j as nat, levels);
            lemma_block_start(input, omega@, levels, j as nat);
        }
    }
    let mut width: u32 = 1;
    let mut round: u32 = 0;
    while round < log_size
        invariant
            round <= log_size < 32,
            levels == log_size,
            width == pow2(round as nat),
            size == pow2(levels),
            size == values@.len(),
            size <= 0x8000_0000,
            input.len() == size,
            half_turn(omega@, levels),
            forall|j: int|
                0 <= j < size ==> #[trigger] values@[j]@ == block_value(
                    input,
                    omega@,
                    levels,
                    round as nat,
                    (j / width as int) as nat,
                    (j % width as int) as nat,
                ),
        decreases log_size - round,
    {
        let ghost blocks = pow2((log_size - round - 1) as nat);
        proof {
            vstd::arithmetic::power2::lemma_pow2_pos(round as nat);
            lemma_pow2_unfold((round + 1) as nat);
            vstd::arithmetic::power2::lemma_pow2_adds(
                (round + 1) as nat,
                (log_size - round - 1) as nat,
            );
            assert((round + 1) as nat + (log_size - round - 1) as nat == log_size as nat);
            if round + 1 < log_size {
                vstd::arithmetic::power2::lemma_pow2_strictly_increases(
                    (round + 1) as nat,
                    log_size as nat,
                );
            }
        }
        let span: u32 = 2 * width;
        assert(size as int == span as int * blocks);
        proof {
            vstd::arithmetic::div_mod::lemma_div_by_multiple(blocks as int, span as int);
            assert(size as int / span as int == blocks) by (nonlinear_arith)
                requires
                    size as int == span as int * blocks,
                    blocks as int * span as int / span as int == blocks,
            ;
        }
        let step = omega.pow_u64((size / span) as u64);
        let mut block: u32 = 0;
        let ghost mut b: nat = 0;
        while block < size
            invariant
                span == 2 * width,
                width >= 1,
                width == pow2(round as nat),
                round < log_size,
                levels == log_size,
                size as int == span as int * blocks,
                blocks == pow2((levels - round - 1) as nat),
                step@ == fpow(omega@, blocks),
                block == b * span,
                b <= blocks,
                size == values@.len(),
                size <= 0x8000_0000,
                input.len() == size,
                half_turn(omega@, levels),
                forall|j: int|
                    0 <= j < block ==> #[trigger] values@[j]@ == block_value(
                        input,
                        omega@,
                        levels,
                        (round + 1) as nat,
                        (j / span as int) as nat,
                        (j % span as int) as nat,
                    ),
                forall|j: int|
                    block <= j < size ==> #[trigger] values@[j]@ == block_value(
                        input,
                        omega@,
                        levels,
                        round as nat,
                        (j / width as int) as nat,
                        (j % width as int) as nat,
                    ),
            decreases blocks - b,
        {
            assert(block + span <= size) by (nonlinear_arith)
                requires
                    block == b * span,
                    block < size,
                    size as int == span as int * blocks,
                    b <= blocks,
            ;
            let mut twiddle = Scalar::one();
            let mut offset: u32 = 0;
            proof {
                crate::scalar::lemma_fpow_step(step@, 0);
            }
            while offset < width
                invariant
                    offset <= width,
                    span == 2 * width,
                    width >= 1,
                    width == pow2(round as nat),
                    round < log_size,
                    levels == log_size,
                    block + span <= size,
                    block == b * span,
                    blocks == pow2((levels - round - 1) as nat),
                    step@ == fpow(omega@, blocks),
                    twiddle@ == fpow(step@, offset as nat),
                    size == values@.len(),
                    input.len() == size,
                    half_turn(omega@, levels),
                    forall|j: int|
                        0 <= j < block ==> #[trigger] values@[j]@ == block_value(
                            input,
                            omega@,
                            levels,
                            (round + 1) as nat,
                            (j / span as int) as nat,
                            (j % span as int) as nat,
                        ),
                    forall|j: int|
                        (block + span <= j < size || (block + offset <= j < block + width)
                            || block + width + offset <= j < block + span) ==> #[trigger] values@[j]@
                            == block_value(
                            input,
                            omega@,
                            levels,
                            round as nat,
                            (j / width as int) as nat,
                            (j % width as int) as nat,
                        ),
                    forall|j: int|
                        (block <= j < block + offset || block + width <= j < block + width
                            + offset) ==> #[trigger] values@[j]@ == block_value(
                            input,
                            omega@,
                            levels,
                            (round + 1) as nat,
                            (j / span as int) as nat,
                            (j % span as int) as nat,
                        ),
                decreases width - offset,
            {
                let upper: usize = (block + offset) as usize;
                let lower: usize = (block + offset + width) as usize;
                let product = values[lower].mul(&twiddle);
                let difference = values[upper].sub(&product);
                let sum = values[upper].add(&product);
                proof {
                    lemma_block_indices(b as int, span as int, width as int, offset as int);
                    lemma_butterfly(input, omega@, levels, round as nat, b, offset as nat);
                }
                values.set(lower, difference);
                values.set(upper, sum);
                proof {
                    crate::scalar::lemma_fpow_step(step@, offset as nat);
                }
                twiddle = twiddle.mul(&step);
                offset = offset + 1;
            }
            proof {
                assert((b + 1) * span == b * span + span) by (nonlinear_arith);
                assert(b + 1 <= blocks) by (nonlinear_arith)
                    requires
                        b * span < span * blocks,
                        span >= 1,
                ;
                b = b + 1;
            }
            block = block + span;
        }
        width = span;
        round = round + 1;
    }
    proof {
        assert forall|k: int| 0 <= k < size implies #[trigger] values@[k]@ == dft(
            input,
            omega@,
            k as nat,
        ) by {
            vstd::arithmetic::div_mod::lemma_small_mod(k as nat, size as nat);
            vstd::arithmetic::div_mod::lemma_basic_div(k, size as int);
            lemma_block_final(input, omega@, levels, k as nat);
        }
    }
}

/// Positions of one butterfly: entry `offset` of the upper and lower
/// halves of block `b` of width `span = 2·width`.
proof fn lemma_block_indices(b: int, span: int, width: int, offset: int)
    requires
        span == 2 * width,
        0 <= offset < width,
        0 <= b,
    ensures
        (b * span + offset) / width == 2 * b,
        (b * span + offset) % width == offset,
        (b * span + offset + width) / width == 2 * b + 1,
        (b * span + offset + width) % width == offset,
        (b * span + offset) / span == b,
        (b * span + offset) % span == offset,
        (b * span + offset + width) / span == b,
        (b * span + offset + width) % span == offset + width,
{
    assert(b * span + offset == (2 * b) * width + offset) by (nonlinear_arith)
        requires
            span == 2 * width,
    ;
    assert(b * span + offset + width == (2 * b + 1) * width + offset) by (nonlinear_arith)
        requires
            span == 2 * width,
    ;
    vstd::arithmetic::div_mod::lemma_fundamental_div_mod_converse(
        b * span + offset,
        width,
        2 * b,
        offset,
    );
    vstd::arithmetic::div_mod::lemma_fundamental_div_mod_converse(
        b * span + offset + width,
        width,
        2 * b + 1,
        offset,
    );
    vstd::arithmetic::div_mod::lemma_fundamental_div_mod_converse(b * span + offset, span, b, offset);
    vstd::arithmetic::div_mod::lemma_fundamental_div_mod_converse(
        b * span + offset + width,
        span,
        b,
        offset + width,
    );
}

} // verus!
