//! Circuit-specific setup, proving, and verification.

use vstd::arithmetic::power2::pow2;
use vstd::prelude::*;

use super::error::Error;
use super::fft::{
    domain_log_for, domain_refused, fits_domain, lemma_domain_log_for, values_of, EvaluationDomain,
};
use super::group::{
    g1_add, g1_difference, g1_encodings, g1_generator, g1_generator_encoding, g1_msm, g1_mul,
    g1_scaled, g1_sub, g1_sum, g2_add, g2_encodings, g2_generator, g2_generator_encoding, g2_mul,
    g2_scaled, g2_sum, pairing_product_is_identity, pairing_product_is_one, scalar_values,
};
use super::keys::{
    proving_key_valid, verifying_key_valid, PreparedVerifyingKey, ProvingKey, ProvingKeyView,
    VerifyingKey, VerifyingKeyView,
};
use super::msm;
use super::msm::g2_msm;
use super::points::{
    g1_identity_encoding, g1_is_identity, g2_identity_encoding, g2_is_identity, G1Point, G2Point,
};
use super::proofs::Proof;
use super::qap::{
    evaluate_shape_at_tau, lemma_quotient_same_size, qap_evaluations, quotient, quotient_evaluations,
    rows_below,
};
use crate::composer::{Circuit, Composer};
use crate::lowering::{lowerable_state, lowered_from, tidy, R1cs};
use crate::r1cs::{all_satisfied, field_values, sha256, shape_encoding, R1csCircuit, R1csShape};
use crate::field::field_inverse;
use crate::scalar::{fadd, fmul, fneg, fpow, fsub, Scalar};

verus! {

broadcast use crate::scalar::lemma_scalar_canonical;

/// Compile Composer circuits into circuit-specific Groth16 keys.
pub struct Compiler;

/// Draws of a nonzero scalar before setup gives up; each draw is zero with
/// probability `1/q`.
pub const SAMPLE_ATTEMPTS: u32 = 64;

/// `BlsScalar::random` (`ff::Field::random`): a uniformly random scalar
/// drawn from `rng`. Nothing is stated of its value.
#[verifier::external_body]
fn random_scalar<R: rand_core::RngCore + rand_core::CryptoRng>(rng: &mut R) -> (r: Scalar) {
    Scalar { limbs: <dusk_curves::bls12_381::BlsScalar as ff::Field>::random(&mut *rng).0 }
}

/// A nonzero scalar drawn from `rng`, or `None` when every one of
/// [`SAMPLE_ATTEMPTS`] draws was zero.
fn random_nonzero<R: rand_core::RngCore + rand_core::CryptoRng>(rng: &mut R) -> (r: Option<Scalar>)
    ensures
        r matches Some(s) ==> s@ != 0,
{
    let mut attempt: u32 = 0;
    while attempt < SAMPLE_ATTEMPTS
        decreases SAMPLE_ATTEMPTS - attempt,
    {
        let scalar = random_scalar(rng);
        if !scalar.equals(&Scalar::zero()) {
            return Some(scalar);
        }
        attempt = attempt + 1;
    }
    None
}

/// The setup trapdoor `α, β, γ, δ, τ` with the inverses of `γ` and `δ`.
pub struct TrapdoorValues {
    /// `α`.
    pub alpha: nat,
    /// `β`.
    pub beta: nat,
    /// `γ`.
    pub gamma: nat,
    /// `δ`.
    pub delta: nat,
    /// The setup point `τ`.
    pub tau: nat,
    /// `γ⁻¹`.
    pub gamma_inverse: nat,
    /// `δ⁻¹`.
    pub delta_inverse: nat,
}

/// The trapdoor elements are nonzero, the inverses are inverses, and `τ` is
/// not a root of the domain's vanishing polynomial.
pub open spec fn trapdoor_valid(t: TrapdoorValues, domain: EvaluationDomain) -> bool {
    &&& t.alpha != 0
    &&& t.beta != 0
    &&& t.gamma != 0
    &&& t.delta != 0
    &&& t.tau != 0
    &&& fmul(t.gamma, t.gamma_inverse) == 1
    &&& fmul(t.delta, t.delta_inverse) == 1
    &&& fsub(fpow(t.tau, domain.domain_size()), 1) != 0
}

/// `β·u + α·v + w`: the value behind the public and private queries.
pub open spec fn combined_value(t: TrapdoorValues, u: nat, v: nat, w: nat) -> nat {
    fadd(fadd(fmul(t.beta, u), fmul(t.alpha, v)), w)
}

/// Every entry of `points` is the G1 generator times the matching scalar.
pub open spec fn g1_scaled_all(points: Seq<G1Point>, scalars: Seq<nat>) -> bool {
    &&& points.len() == scalars.len()
    &&& forall|i: int|
        0 <= i < points.len() ==> (#[trigger] points[i]).encoding() == g1_scaled(
            g1_generator_encoding(),
            scalars[i],
        )
}

/// Every entry of `points` is the G2 generator times the matching scalar.
pub open spec fn g2_scaled_all(points: Seq<G2Point>, scalars: Seq<nat>) -> bool {
    &&& points.len() == scalars.len()
    &&& forall|i: int|
        0 <= i < points.len() ==> (#[trigger] points[i]).encoding() == g2_scaled(
            g2_generator_encoding(),
            scalars[i],
        )
}

/// The scalars `combined_value(t, u[k], v[k], w[k])·factor`.
pub open spec fn combined_scalars(
    t: TrapdoorValues,
    u: Seq<nat>,
    v: Seq<nat>,
    w: Seq<nat>,
    factor: nat,
) -> Seq<nat> {
    Seq::new(u.len(), |k: int| fmul(combined_value(t, u[k], v[k], w[k]), factor))
}

/// The quotient-query scalars `τ^i·Z(τ)·δ⁻¹` for `i < count`.
pub open spec fn h_scalars(t: TrapdoorValues, vanishing: nat, count: nat) -> Seq<nat> {
    Seq::new(count, |i: int| fmul(fmul(fpow(t.tau, i as nat), vanishing), t.delta_inverse))
}

/// The keys are the Groth16 reference string of the QAP evaluations
/// `u, v, w, vanishing` under the trapdoor `t`.
pub open spec fn groth16_keys(
    t: TrapdoorValues,
    public_inputs: nat,
    domain_size: nat,
    u: Seq<nat>,
    v: Seq<nat>,
    w: Seq<nat>,
    vanishing: nat,
    pk: ProvingKeyView,
    vk: VerifyingKeyView,
) -> bool {
    let g1 = g1_generator_encoding();
    let g2 = g2_generator_encoding();
    let split = public_inputs + 1;
    &&& pk.alpha_g1.encoding() == g1_scaled(g1, t.alpha)
    &&& pk.beta_g1.encoding() == g1_scaled(g1, t.beta)
    &&& pk.beta_g2.encoding() == g2_scaled(g2, t.beta)
    &&& pk.delta_g1.encoding() == g1_scaled(g1, t.delta)
    &&& pk.delta_g2.encoding() == g2_scaled(g2, t.delta)
    &&& vk.alpha_g1 == pk.alpha_g1
    &&& vk.beta_g2 == pk.beta_g2
    &&& vk.delta_g2 == pk.delta_g2
    &&& vk.gamma_g2.encoding() == g2_scaled(g2, t.gamma)
    &&& g1_scaled_all(pk.a_query, u)
    &&& g1_scaled_all(pk.b_g1_query, v)
    &&& g2_scaled_all(pk.b_g2_query, v)
    &&& g1_scaled_all(
        vk.public_query,
        combined_scalars(t, u, v, w, t.gamma_inverse).subrange(0, split as int),
    )
    &&& g1_scaled_all(
        pk.private_query,
        combined_scalars(t, u, v, w, t.delta_inverse).subrange(split as int, u.len() as int),
    )
    &&& g1_scaled_all(pk.h_query, h_scalars(t, vanishing, (domain_size - 1) as nat))
}

/// `pk` and `vk` are the Groth16 reference string of `shape` for the
/// trapdoor `t` over the domain `d`, the smallest that holds its equations,
/// with QAP evaluations `u`, `v`, `w`, `z` at `t.tau`.
pub open spec fn setup_relation(
    shape: R1csShape,
    pk: ProvingKeyView,
    vk: VerifyingKeyView,
    t: TrapdoorValues,
    d: EvaluationDomain,
    u: Seq<nat>,
    v: Seq<nat>,
    w: Seq<nat>,
    z: nat,
) -> bool {
    &&& d.well_formed()
    &&& trapdoor_valid(t, d)
    &&& shape.equations().len() <= d.domain_size()
    &&& d.log_size() == 0 || pow2((d.log_size() - 1) as nat) < shape.equations().len()
    &&& qap_evaluations(shape, d, t.tau, u, v, w, z)
    &&& pk.shape_digest == sha256(
        shape_encoding(
            shape.variable_count() as nat,
            shape.public_count() as nat,
            shape.equations(),
        ),
    )
    &&& pk.variables == shape.variable_count()
    &&& pk.public_inputs == shape.public_count()
    &&& shape.public_count() < shape.variable_count()
    &&& pk.domain_size == d.domain_size()
    &&& groth16_keys(t, shape.public_count() as nat, d.domain_size(), u, v, w, z, pk, vk)
}

/// `pk` and `vk` are the Groth16 reference string of `shape` for some
/// valid trapdoor, over the smallest domain that holds its equations.
pub open spec fn setup_keys(shape: R1csShape, pk: ProvingKeyView, vk: VerifyingKeyView) -> bool {
    exists|t: TrapdoorValues, d: EvaluationDomain, u: Seq<nat>, v: Seq<nat>, w: Seq<nat>, z: nat|
        #[trigger] setup_relation(shape, pk, vk, t, d, u, v, w, z)
}

/// Keys made by setup share their fixed points and have one public-query
/// entry per public input plus the constant one.
pub proof fn lemma_setup_keys_agree(shape: R1csShape, pk: ProvingKeyView, vk: VerifyingKeyView)
    requires
        setup_keys(shape, pk, vk),
    ensures
        vk.public_query.len() == pk.public_inputs + 1,
        vk.alpha_g1 == pk.alpha_g1,
        vk.beta_g2 == pk.beta_g2,
        vk.delta_g2 == pk.delta_g2,
{
    let (t, d, u, v, w, z) = choose|
        t: TrapdoorValues,
        d: EvaluationDomain,
        u: Seq<nat>,
        v: Seq<nat>,
        w: Seq<nat>,
        z: nat,
    | setup_relation(shape, pk, vk, t, d, u, v, w, z);
    assert(u.len() == shape.variable_count()) by {
        let lagrange = choose|lagrange: Seq<nat>|
            crate::groth16::qap::lagrange_evaluations_match(shape, d, t.tau, u, v, w, lagrange);
    }
}

/// The G1 generator times each scalar.
fn g1_scale_all(base: &G1Point, scalars: &[Scalar]) -> (r: Vec<G1Point>)
    requires
        base.encoding() == g1_generator_encoding(),
    ensures
        g1_scaled_all(r@, scalar_values(scalars@)),
{
    let mut out: Vec<G1Point> = Vec::new();
    let mut i: usize = 0;
    while i < scalars.len()
        invariant
            i <= scalars@.len(),
            base.encoding() == g1_generator_encoding(),
            out@.len() == i,
            forall|j: int|
                0 <= j < i ==> (#[trigger] out@[j]).encoding() == g1_scaled(
                    g1_generator_encoding(),
                    scalars@[j]@,
                ),
        decreases scalars@.len() - i,
    {
        out.push(g1_mul(base, &scalars[i]));
        i = i + 1;
    }
    out
}

/// The G2 generator times each scalar.
fn g2_scale_all(base: &G2Point, scalars: &[Scalar]) -> (r: Vec<G2Point>)
    requires
        base.encoding() == g2_generator_encoding(),
    ensures
        g2_scaled_all(r@, scalar_values(scalars@)),
{
    let mut out: Vec<G2Point> = Vec::new();
    let mut i: usize = 0;
    while i < scalars.len()
        invariant
            i <= scalars@.len(),
            base.encoding() == g2_generator_encoding(),
            out@.len() == i,
            forall|j: int|
                0 <= j < i ==> (#[trigger] out@[j]).encoding() == g2_scaled(
                    g2_generator_encoding(),
                    scalars@[j]@,
                ),
        decreases scalars@.len() - i,
    {
        out.push(g2_mul(base, &scalars[i]));
        i = i + 1;
    }
    out
}

/// The entries `from .. to` of `combined_scalars(t, u, v, w, factor)`.
fn combined_range(
    alpha: &Scalar,
    beta: &Scalar,
    u: &[Scalar],
    v: &[Scalar],
    w: &[Scalar],
    factor: &Scalar,
    from: usize,
    to: usize,
    Ghost(t): Ghost<TrapdoorValues>,
) -> (r: Vec<Scalar>)
    requires
        from <= to <= u@.len(),
        v@.len() == u@.len(),
        w@.len() == u@.len(),
        t.alpha == alpha@,
        t.beta == beta@,
    ensures
        scalar_values(r@) == combined_scalars(
            t,
            scalar_values(u@),
            scalar_values(v@),
            scalar_values(w@),
            factor@,
        ).subrange(from as int, to as int),
{
    let mut out: Vec<Scalar> = Vec::new();
    let mut k: usize = from;
    while k < to
        invariant
            from <= k <= to <= u@.len(),
            v@.len() == u@.len(),
            w@.len() == u@.len(),
            t.alpha == alpha@,
            t.beta == beta@,
            out@.len() == k - from,
            forall|j: int|
                0 <= j < k - from ==> #[trigger] out@[j]@ == fmul(
                    combined_value(t, u@[from + j]@, v@[from + j]@, w@[from + j]@),
                    factor@,
                ),
        decreases to - k,
    {
        let value = beta.mul(&u[k]).add(&alpha.mul(&v[k])).add(&w[k]).mul(factor);
        out.push(value);
        k = k + 1;
    }
    proof {
        let expected = combined_scalars(
            t,
            scalar_values(u@),
            scalar_values(v@),
            scalar_values(w@),
            factor@,
        ).subrange(from as int, to as int);
        assert(scalar_values(out@) =~= expected);
    }
    out
}

/// Generate Groth16 proving and verification keys for a rank-1 shape: a
/// random trapdoor is drawn and the keys are the reference string of the
/// shape's QAP at `τ` under it.
fn setup<R: rand_core::RngCore + rand_core::CryptoRng>(rng: &mut R, shape: &R1csShape) -> (r: Result<
    (ProvingKey, VerifyingKey),
    Error,
>)
    requires
        tidy(shape.equations(), shape.variable_count() as nat),
    ensures
        r matches Ok((pk, vk)) ==> setup_keys(*shape, pk.view(), vk.view()),
        r matches Ok((pk, vk)) ==> proving_key_valid(pk.view()) && verifying_key_valid(vk.view()),
        shape.public_count() >= shape.variable_count() ==> r is Err,
        domain_refused(shape.equations().len()) ==> r == Err::<(ProvingKey, VerifyingKey), Error>(
            Error::InvalidEvaluationDomain,
        ),
        r matches Err(e) ==> e == Error::InvalidEvaluationDomain || (e == Error::InvalidCircuitShape
            && shape.public_count() >= shape.variable_count()),
{
    let domain = match EvaluationDomain::new(shape.constraints().len()) {
        Ok(domain) => domain,
        Err(e) => {
            return Err(e);
        },
    };
    proof {
        lemma_domain_log_for(shape.equations().len(), domain.log_size());
        assert(fits_domain(shape.equations().len(), domain.log_size()));
    }
    let alpha = match random_nonzero(rng) {
        Some(s) => s,
        None => {
            return Err(Error::InvalidEvaluationDomain);
        },
    };
    let beta = match random_nonzero(rng) {
        Some(s) => s,
        None => {
            return Err(Error::InvalidEvaluationDomain);
        },
    };
    let gamma = match random_nonzero(rng) {
        Some(s) => s,
        None => {
            return Err(Error::InvalidEvaluationDomain);
        },
    };
    let delta = match random_nonzero(rng) {
        Some(s) => s,
        None => {
            return Err(Error::InvalidEvaluationDomain);
        },
    };
    let mut tau_found: Option<Scalar> = None;
    let mut attempt: u32 = 0;
    while attempt < SAMPLE_ATTEMPTS
        invariant
            tau_found matches Some(t) ==> t@ != 0 && fsub(fpow(t@, domain.domain_size()), 1) != 0,
        decreases SAMPLE_ATTEMPTS - attempt,
    {
        if let Some(candidate) = random_nonzero(rng) {
            if !domain.vanishing(&candidate).equals(&Scalar::zero()) {
                tau_found = Some(candidate);
                break;
            }
        }
        attempt = attempt + 1;
    }
    let tau = match tau_found {
        Some(t) => t,
        None => {
            return Err(Error::InvalidEvaluationDomain);
        },
    };
    keys_from_trapdoor(shape, domain, &alpha, &beta, &gamma, &delta, &tau)
}

/// The trapdoor whose scalars are `alpha`, `beta`, `gamma`, `delta`, `tau`
/// and the inverses of `gamma` and `delta`.
pub open spec fn trapdoor_of(alpha: nat, beta: nat, gamma: nat, delta: nat, tau: nat) -> TrapdoorValues {
    TrapdoorValues {
        alpha,
        beta,
        gamma,
        delta,
        tau,
        gamma_inverse: field_inverse(gamma),
        delta_inverse: field_inverse(delta),
    }
}

/// The Groth16 keys of a rank-1 shape for a drawn trapdoor over the domain
/// built for its equations. A shape with no private variable is refused with
/// `InvalidCircuitShape`, and a setup point on the domain with
/// `InvalidEvaluationDomain`; otherwise the keys are the shape's reference
/// string under the trapdoor.
pub fn keys_from_trapdoor(
    shape: &R1csShape,
    domain: EvaluationDomain,
    alpha_drawn: &Scalar,
    beta_drawn: &Scalar,
    gamma_drawn: &Scalar,
    delta_drawn: &Scalar,
    tau_drawn: &Scalar,
) -> (r: Result<(ProvingKey, VerifyingKey), Error>)
    requires
        tidy(shape.equations(), shape.variable_count() as nat),
        domain.well_formed(),
        fits_domain(shape.equations().len(), domain.log_size()),
        alpha_drawn@ != 0,
        beta_drawn@ != 0,
        gamma_drawn@ != 0,
        delta_drawn@ != 0,
        tau_drawn@ != 0,
        fsub(fpow(tau_drawn@, domain.domain_size()), 1) != 0,
    ensures
        shape.public_count() >= shape.variable_count() ==> r == Err::<(ProvingKey, VerifyingKey), Error>(
            Error::InvalidCircuitShape,
        ),
        shape.public_count() < shape.variable_count() ==> (r is Err <==> exists|i: nat|
            i < domain.domain_size() && #[trigger] fsub(tau_drawn@, fpow(domain.omega(), i)) == 0),
        shape.public_count() < shape.variable_count() && r is Err ==> r == Err::<
            (ProvingKey, VerifyingKey),
            Error,
        >(Error::InvalidEvaluationDomain),
        r matches Ok((pk, vk)) ==> proving_key_valid(pk.view()) && verifying_key_valid(vk.view()),
        r matches Ok((pk, vk)) ==> exists|u: Seq<nat>, v: Seq<nat>, w: Seq<nat>, z: nat|
            #[trigger] setup_relation(
                *shape,
                pk.view(),
                vk.view(),
                trapdoor_of(alpha_drawn@, beta_drawn@, gamma_drawn@, delta_drawn@, tau_drawn@),
                domain,
                u,
                v,
                w,
                z,
            ),
{
    let alpha = *alpha_drawn;
    let beta = *beta_drawn;
    let gamma = *gamma_drawn;
    let delta = *delta_drawn;
    let tau = *tau_drawn;
    proof {
        domain.lemma_roots();
    }
    let gamma_inverse = match gamma.invert() {
        Some(s) => s,
        None => {
            proof {
                assert(false);
            }
            return Err(Error::InvalidEvaluationDomain);
        },
    };
    let delta_inverse = match delta.invert() {
        Some(s) => s,
        None => {
            proof {
                assert(false);
            }
            return Err(Error::InvalidEvaluationDomain);
        },
    };
    proof {
        crate::field::lemma_field_inverse_unique(gamma@, gamma_inverse@);
        crate::field::lemma_field_inverse_unique(delta@, delta_inverse@);
    }
    let ghost t = TrapdoorValues {
        alpha: alpha@,
        beta: beta@,
        gamma: gamma@,
        delta: delta@,
        tau: tau@,
        gamma_inverse: gamma_inverse@,
        delta_inverse: delta_inverse@,
    };
    let qap = match evaluate_shape_at_tau(shape, domain, &tau) {
        Ok(qap) => qap,
        Err(e) => {
            return Err(e);
        },
    };
    let g1 = g1_generator();
    let g2 = g2_generator();
    let alpha_g1 = g1_mul(&g1, &alpha);
    let beta_g1 = g1_mul(&g1, &beta);
    let beta_g2 = g2_mul(&g2, &beta);
    let gamma_g2 = g2_mul(&g2, &gamma);
    let delta_g1 = g1_mul(&g1, &delta);
    let delta_g2 = g2_mul(&g2, &delta);
    let a_query = g1_scale_all(&g1, qap.u.as_slice());
    let b_g1_query = g1_scale_all(&g1, qap.v.as_slice());
    let b_g2_query = g2_scale_all(&g2, qap.v.as_slice());
    let variables = shape.variables();
    let public_end = 1 + shape.public_inputs();
    let public_scalars = combined_range(
        &alpha,
        &beta,
        qap.u.as_slice(),
        qap.v.as_slice(),
        qap.w.as_slice(),
        &gamma_inverse,
        0,
        public_end,
        Ghost(t),
    );
    let private_scalars = combined_range(
        &alpha,
        &beta,
        qap.u.as_slice(),
        qap.v.as_slice(),
        qap.w.as_slice(),
        &delta_inverse,
        public_end,
        variables,
        Ghost(t),
    );
    let public_query = g1_scale_all(&g1, public_scalars.as_slice());
    let private_query = g1_scale_all(&g1, private_scalars.as_slice());
    proof {
        vstd::arithmetic::power2::lemma_pow2_pos(domain.log_size());
    }
    let h_count: usize = domain.size() - 1;
    let mut h_values: Vec<Scalar> = Vec::new();
    let mut power = Scalar::one();
    let mut i: usize = 0;
    proof {
        crate::scalar::lemma_fpow_step(tau@, 0);
    }
    while i < h_count
        invariant
            i <= h_count,
            h_values@.len() == i,
            power@ == fpow(tau@, i as nat),
            t.tau == tau@,
            t.delta_inverse == delta_inverse@,
            forall|j: int|
                0 <= j < i ==> #[trigger] h_values@[j]@ == fmul(
                    fmul(fpow(t.tau, j as nat), qap.vanishing@),
                    t.delta_inverse,
                ),
        decreases h_count - i,
    {
        h_values.push(power.mul(&qap.vanishing).mul(&delta_inverse));
        proof {
            crate::scalar::lemma_fpow_step(tau@, i as nat);
        }
        power = power.mul(&tau);
        i = i + 1;
    }
    let h_query = g1_scale_all(&g1, h_values.as_slice());
    let ghost u = scalar_values(qap.u@);
    let ghost v = scalar_values(qap.v@);
    let ghost w = scalar_values(qap.w@);
    proof {
        assert(scalar_values(h_values@) =~= h_scalars(t, qap.vanishing@, h_count as nat));
    }
    let verifying_key = VerifyingKey { alpha_g1, beta_g2, gamma_g2, delta_g2, public_query };
    let proving_key = ProvingKey {
        shape_digest: shape.digest(),
        variables,
        public_inputs: shape.public_inputs(),
        domain_size: domain.size(),
        alpha_g1,
        beta_g1,
        beta_g2,
        delta_g1,
        delta_g2,
        a_query,
        b_g1_query,
        b_g2_query,
        private_query,
        h_query,
    };
    proof {
        proving_key.lemma_view();
        verifying_key.lemma_view();
        assert(groth16_keys(
            t,
            shape.public_count() as nat,
            domain.domain_size(),
            u,
            v,
            w,
            qap.vanishing@,
            proving_key.view(),
            verifying_key.view(),
        ));
        assert(setup_relation(
            *shape,
            proving_key.view(),
            verifying_key.view(),
            t,
            domain,
            u,
            v,
            w,
            qap.vanishing@,
        ));
        assert(alpha@ == alpha_drawn@ && beta@ == beta_drawn@ && gamma@ == gamma_drawn@ && delta@
            == delta_drawn@ && tau@ == tau_drawn@);
        assert(t == trapdoor_of(alpha@, beta@, gamma@, delta@, tau@));
        // the fixed points are nonzero multiples of the generators
        assert(g1_generator_encoding()[0] != g1_identity_encoding()[0]);
        assert(g2_generator_encoding()[0] != g2_identity_encoding()[0]);
        assert(u.len() == shape.variable_count() && v.len() == shape.variable_count()) by {
            let lagrange = choose|lagrange: Seq<nat>|
                crate::groth16::qap::lagrange_evaluations_match(
                    *shape,
                    domain,
                    t.tau,
                    u,
                    v,
                    w,
                    lagrange,
                );
        }
        crate::plonkish::lemma_pow2_is_power_of_two(domain.log_size());
        assert(proving_key_valid(proving_key.view()));
        assert(verifying_key_valid(verifying_key.view()));
    }
    let result = Ok((proving_key, verifying_key));
    assert(setup_relation(
        *shape,
        result->Ok_0.0.view(),
        result->Ok_0.1.view(),
        trapdoor_of(alpha_drawn@, beta_drawn@, gamma_drawn@, delta_drawn@, tau_drawn@),
        domain,
        u,
        v,
        w,
        qap.vanishing@,
    ));
    result
}

/// Finish a synthesized rank-1 Composer: a Composer whose rows use
/// unallocated wires, or whose public values do not match its public rows,
/// is refused with `InvalidCircuitShape`; any other is lowered.
pub fn lower_composed(composer: Composer<R1cs>) -> (r: Result<R1csCircuit, Error>)
    ensures
        r is Ok <==> lowerable_state(composer),
        r is Err ==> r == Err::<R1csCircuit, Error>(Error::InvalidCircuitShape),
        r matches Ok(c) ==> lowered_from(composer, c),
{
    if !composer.lowerable() {
        return Err(Error::InvalidCircuitShape);
    }
    Ok(composer.into_r1cs())
}

/// Synthesize a circuit with the rank-1 backend: the circuit's own errors
/// are passed on, and the synthesized Composer is finished by
/// [`lower_composed`].
fn compose<C: Circuit>(circuit: &C) -> (r: Result<R1csCircuit, Error>)
    ensures
        r matches Ok(c) ==> {
            &&& tidy(c.shape_view().equations(), c.shape_view().variable_count() as nat)
            &&& c.shape_view().variable_count() == c.assignment_view().value_seq().len()
            &&& exists|composer: Composer<R1cs>|
                Composer::<R1cs>::canonical(composer, 0) && #[trigger] lowered_from(composer, c)
        },
{
    let mut composer = Composer::<R1cs>::initialized();
    let ghost start = composer;
    match circuit.circuit(&mut composer) {
        Ok(()) => {},
        Err(e) => {
            return Err(Error::from(e));
        },
    }
    proof {
        assert(composer.emitted()[0] == start.emitted()[0]);
        assert(composer.emitted()[1] == start.emitted()[1]);
        assert(composer.assignment()[0] == start.assignment()[0]);
        assert(composer.assignment()[1] == start.assignment()[1]);
    }
    let ghost finished = composer;
    let r = lower_composed(composer);
    proof {
        if r is Ok {
            assert(Composer::<R1cs>::canonical(finished, 0));
            assert(lowered_from(finished, r->Ok_0));
        }
    }
    r
}

impl Compiler {
    /// Perform a single-party circuit-specific trusted setup: the rank-1
    /// shape of `C::default()`, lowered from the composer that its circuit
    /// filled, gets a fresh reference string.
    #[verifier::spinoff_prover]
    #[verifier::rlimit(30)]
    pub fn trusted_setup<C: Circuit, R: rand_core::RngCore + rand_core::CryptoRng>(rng: &mut R) -> (r:
        Result<(Prover, Verifier), Error>)
        ensures
            r matches Ok((prover, verifier)) ==> {
                &&& exists|composed: R1csCircuit|
                    {
                        &&& #[trigger] setup_keys(
                            composed.shape_view(),
                            prover.key_view(),
                            verifier.key_view(),
                        )
                        &&& exists|composer: Composer<R1cs>|
                            Composer::<R1cs>::canonical(composer, 0) && #[trigger] lowered_from(
                                composer,
                                composed,
                            )
                    }
                &&& verifier.key_view().public_query.len() == prover.key_view().public_inputs + 1
                &&& verifier.key_view().alpha_g1 == prover.key_view().alpha_g1
                &&& verifier.key_view().beta_g2 == prover.key_view().beta_g2
                &&& verifier.key_view().delta_g2 == prover.key_view().delta_g2
                &&& proving_key_valid(prover.key_view())
                &&& verifying_key_valid(verifier.key_view())
            },
    {
        let circuit = compose(&C::default())?;
        let (proving_key, verifying_key) = setup(rng, circuit.shape())?;
        let prover = Prover { key: proving_key };
        let verifier = Verifier { key: verifying_key.prepare() };
        proof {
            proving_key.lemma_view();
            verifying_key.lemma_view();
            assert(setup_keys(circuit.shape_view(), prover.key_view(), verifier.key_view()));
            lemma_setup_keys_agree(circuit.shape_view(), prover.key_view(), verifier.key_view());
        }
        Ok((prover, verifier))
    }
}

/// The three proof elements that `key` gives for the assignment values
/// `values`, the quotient coefficients `h`, the blinding scalars `r` and `s`
/// and the G2 combination `combination = Σ z·B`: `a = α + Σ z·A + r·δ`,
/// `b = β + combination + s·δ`, and
/// `c = Σ_private z·L + Σ h·H + s·a + r·(β + Σ z·B + s·δ) - r·s·δ`.
pub open spec fn proof_elements(
    key: ProvingKeyView,
    values: Seq<nat>,
    h: Seq<nat>,
    r: nat,
    s: nat,
    combination: Seq<u8>,
) -> (Seq<u8>, Seq<u8>, Seq<u8>) {
    let a = g1_sum(
        g1_sum(key.alpha_g1.encoding(), g1_msm(g1_encodings(key.a_query), values)),
        g1_scaled(key.delta_g1.encoding(), r),
    );
    let b = g2_sum(g2_sum(key.beta_g2.encoding(), combination), g2_scaled(key.delta_g2.encoding(), s));
    let b_g1 = g1_sum(
        g1_sum(key.beta_g1.encoding(), g1_msm(g1_encodings(key.b_g1_query), values)),
        g1_scaled(key.delta_g1.encoding(), s),
    );
    let private = values.subrange(1int + key.public_inputs, values.len() as int);
    let c = g1_difference(
        g1_sum(
            g1_sum(
                g1_sum(
                    g1_msm(g1_encodings(key.private_query), private),
                    g1_msm(g1_encodings(key.h_query), h),
                ),
                g1_scaled(a, s),
            ),
            g1_scaled(b_g1, r),
        ),
        g1_scaled(key.delta_g1.encoding(), fmul(r, s)),
    );
    (a, b, c)
}

/// `key` was made for `shape`: the digest of the shape's encoding and its
/// variable and public-input counts are the key's.
pub open spec fn key_matches(key: ProvingKeyView, shape: R1csShape) -> bool {
    &&& sha256(
        shape_encoding(
            shape.variable_count() as nat,
            shape.public_count() as nat,
            shape.equations(),
        ),
    ) == key.shape_digest
    &&& shape.variable_count() == key.variables
    &&& shape.public_count() == key.public_inputs
}

/// `proof` and `publics` are what `key` gives for `circuit`: `publics` are
/// the assignment's public values, and the proof elements are
/// `proof_elements` for the assignment, the quotient coefficients of the
/// circuit over the key's domain, some blinding scalars and the G2
/// combination `g2_msm` of the key's G2 query with the assignment.
pub open spec fn proves(key: ProvingKeyView, circuit: R1csCircuit, proof: Proof, publics: Seq<Scalar>) -> bool {
    let shape = circuit.shape_view();
    let values = circuit.assignment_view().value_seq();
    &&& publics == values.subrange(1, 1int + key.public_inputs)
    &&& exists|domain: EvaluationDomain, blind_r: nat, blind_s: nat|
        {
            &&& domain.well_formed()
            &&& domain.domain_size() == key.domain_size
            &&& (proof.spec_a().encoding(), proof.spec_b().encoding(), proof.spec_c().encoding())
                == proof_elements(
                key,
                scalar_values(values),
                domain.coset_interpolation(
                    quotient_evaluations(domain, shape.equations(), field_values(values)),
                ).subrange(0, key.h_query.len() as int),
                blind_r,
                blind_s,
                g2_msm(g2_encodings(key.b_g2_query), scalar_values(values)),
            )
        }
}

/// Why `prove_r1cs` refuses a circuit of the key's shape whose assignment
/// satisfies it, in the order it checks; `None` when it makes a proof. The
/// domain is the one `EvaluationDomain::new` builds for the equation count,
/// and `h` the quotient coefficients over it.
pub open spec fn proving_failure(key: ProvingKeyView, circuit: R1csCircuit) -> Option<Error> {
    let shape = circuit.shape_view();
    let values = circuit.assignment_view().value_seq();
    let m = shape.equations().len();
    let n = pow2(domain_log_for(m));
    let domain = choose|d: EvaluationDomain| d.well_formed() && d.domain_size() == n;
    let h = domain.coset_interpolation(
        quotient_evaluations(domain, shape.equations(), field_values(values)),
    );
    if domain_refused(m) {
        Some(Error::InvalidEvaluationDomain)
    } else if n != key.domain_size {
        Some(Error::InvalidCircuitShape)
    } else if values.len() != shape.variable_count() || !rows_below(
        shape.equations(),
        values.len() as nat,
    ) {
        Some(Error::InvalidCircuitShape)
    } else if fsub(fpow(7, n), 1) == 0 {
        Some(Error::InvalidEvaluationDomain)
    } else if n - 1 != key.h_query.len() || h[n - 1] != 0 || key.public_inputs >= values.len() {
        Some(Error::InvalidCircuitShape)
    } else if key.a_query.len() != values.len() || key.b_g2_query.len() != values.len()
        || key.b_g1_query.len() != values.len() || key.private_query.len() + key.public_inputs + 1
        != values.len() {
        Some(Error::InvalidQueryLength)
    } else {
        None
    }
}

/// A key made by setup for a circuit's shape proves every assignment of the
/// shape's size that satisfies the circuit: the key matches the shape and
/// `prove_r1cs` refuses none of them.
pub proof fn lemma_setup_key_proves(circuit: R1csCircuit, pk: ProvingKeyView, vk: VerifyingKeyView)
    requires
        setup_keys(circuit.shape_view(), pk, vk),
        all_satisfied(circuit.shape_view().equations(), circuit.assignment_view().value_seq()),
        circuit.assignment_view().value_seq().len() == circuit.shape_view().variable_count(),
    ensures
        key_matches(pk, circuit.shape_view()),
        proving_failure(pk, circuit) is None,
{
    let shape = circuit.shape_view();
    let values = circuit.assignment_view().value_seq();
    let rows = shape.equations();
    let m = rows.len();
    let (t, d, u, v, w, z) = choose|
        t: TrapdoorValues,
        d: EvaluationDomain,
        u: Seq<nat>,
        v: Seq<nat>,
        w: Seq<nat>,
        z: nat,
    | setup_relation(shape, pk, vk, t, d, u, v, w, z);
    let levels = d.log_size();
    let n = d.domain_size();
    d.lemma_roots();
    vstd::arithmetic::power2::lemma_pow2_pos(levels);
    // the key's domain is the one built for the equation count
    assert(fits_domain(m, levels));
    lemma_domain_log_for(m, levels);
    assert(!domain_refused(m)) by {
        if levels < 31 {
            vstd::arithmetic::power2::lemma_pow2_strictly_increases(levels, 31);
        }
        assert forall|k: nat| #[trigger] fits_domain(m, k) implies fpow(
            super::fft::root_of_unity_value(),
            pow2((32 - k) as nat),
        ) != 0 by {
            lemma_domain_log_for(m, k);
            crate::field::lemma_fmul_unit(d.omega_inverse_value());
        }
    }
    // the assignment gives every variable of every equation a value
    assert(rows_below(rows, values.len() as nat)) by {
        assert forall|i: int| 0 <= i < rows.len() implies (#[trigger] rows[i]).below(
            values.len() as nat,
        ) by {
            assert(rows[i].satisfied_by(values));
        }
    }
    // the coset generator is no root of the vanishing polynomial
    super::divisibility::lemma_coset_generator_powers(levels);
    super::dft::lemma_fpow_canonical(7, n);
    crate::field::lemma_fsub_as_add(fpow(7, n), 1);
    crate::field::lemma_difference_zero(fpow(7, n), 1);
    // the quotient has no term of degree n - 1
    let chosen = choose|e: EvaluationDomain| e.well_formed() && e.domain_size() == n;
    assert(d.well_formed() && d.domain_size() == n);
    lemma_quotient_same_size(chosen, d, rows, field_values(values));
    super::divisibility::lemma_quotient_top_vanishes(d, rows, values);
    // the queries have the assignment's length
    assert(u.len() == shape.variable_count() && v.len() == shape.variable_count()) by {
        let lagrange = choose|lagrange: Seq<nat>|
            crate::groth16::qap::lagrange_evaluations_match(shape, d, t.tau, u, v, w, lagrange);
    }
}

/// The public inputs that a proof made with a key from setup returns are
/// as many as the matching verifying key expects, so its verification never
/// fails on their count.
pub proof fn lemma_proved_inputs_fit(
    circuit: R1csCircuit,
    pk: ProvingKeyView,
    vk: VerifyingKeyView,
    proof: Proof,
    publics: Seq<Scalar>,
)
    requires
        setup_keys(circuit.shape_view(), pk, vk),
        proves(pk, circuit, proof, publics),
        circuit.assignment_view().value_seq().len() == circuit.shape_view().variable_count(),
    ensures
        publics.len() == vk.public_query.len() - 1,
{
    lemma_setup_keys_agree(circuit.shape_view(), pk, vk);
    let (t, d, u, v, w, z) = choose|
        t: TrapdoorValues,
        d: EvaluationDomain,
        u: Seq<nat>,
        v: Seq<nat>,
        w: Seq<nat>,
        z: nat,
    | setup_relation(circuit.shape_view(), pk, vk, t, d, u, v, w, z);
}

/// Groth16 prover bound to one circuit shape.
#[derive(Clone, Debug)]
pub struct Prover {
    key: ProvingKey,
}

impl Prover {
    /// The proving key.
    pub closed spec fn key_view(&self) -> ProvingKeyView {
        self.key.view()
    }

    /// Construct a prover from an existing circuit-specific key.
    pub fn from_key(key: ProvingKey) -> (r: Prover)
        ensures
            r.key_view() == key.view(),
    {
        Prover { key }
    }

    /// Access the circuit-specific proving key.
    pub fn key(&self) -> (r: &ProvingKey)
        ensures
            r.view() == self.key_view(),
    {
        &self.key
    }

    /// Return the underlying proving key.
    pub fn into_key(self) -> (r: ProvingKey)
        ensures
            r.view() == self.key_view(),
    {
        self.key
    }

    /// Generate a randomized proof for a circuit and return its public
    /// inputs in emission order.
    pub fn prove<C: Circuit, R: rand_core::RngCore + rand_core::CryptoRng>(
        &self,
        rng: &mut R,
        circuit: &C,
    ) -> (r: Result<(Proof, Vec<Scalar>), Error>)
        ensures
            r matches Ok((proof, publics)) ==> exists|composed: R1csCircuit|
                {
                    &&& key_matches(self.key_view(), composed.shape_view())
                    &&& all_satisfied(
                        composed.shape_view().equations(),
                        composed.assignment_view().value_seq(),
                    )
                    &&& #[trigger] proves(self.key_view(), composed, proof, publics@)
                },
    {
        let circuit = compose(circuit)?;
        self.prove_r1cs(rng, &circuit)
    }

    /// Generate a randomized proof for a rank-1 circuit. The shape must be
    /// the one the key was made for and the assignment must satisfy it; the
    /// remaining refusals are those of `proving_failure`. The proof elements
    /// are `proof_elements` for random blinding scalars, and the returned
    /// public inputs are the assignment's public variables.
    pub fn prove_r1cs<R: rand_core::RngCore + rand_core::CryptoRng>(
        &self,
        rng: &mut R,
        circuit: &R1csCircuit,
    ) -> (r: Result<(Proof, Vec<Scalar>), Error>)
        ensures
            ({
                let shape = circuit.shape_view();
                let values = circuit.assignment_view().value_seq();
                let key = self.key_view();
                let mismatch = !key_matches(key, shape);
                &&& mismatch ==> r == Err::<(Proof, Vec<Scalar>), Error>(Error::InvalidCircuitShape)
                &&& !mismatch && !all_satisfied(shape.equations(), values) ==> r == Err::<
                    (Proof, Vec<Scalar>),
                    Error,
                >(Error::CircuitUnsatisfied)
                &&& !mismatch && all_satisfied(shape.equations(), values) ==> match proving_failure(
                    key,
                    *circuit,
                ) {
                    Some(e) => r == Err::<(Proof, Vec<Scalar>), Error>(e),
                    None => r is Ok,
                }
                &&& r matches Ok((proof, publics)) ==> proves(key, *circuit, proof, publics@)
            }),
    {
        let shape = circuit.shape();
        let digest = shape.digest();
        let mut same_digest = true;
        let mut i: usize = 0;
        while i < 32
            invariant
                i <= 32,
                same_digest == (forall|j: int|
                    0 <= j < i ==> #[trigger] digest@[j] == self.key.shape_digest@[j]),
            decreases 32 - i,
        {
            if digest[i] != self.key.shape_digest[i] {
                same_digest = false;
            }
            i = i + 1;
        }
        proof {
            self.key.lemma_view();
            if same_digest {
                assert(digest@ =~= self.key.shape_digest@);
            }
        }
        if !same_digest || shape.variables() != self.key.variables || shape.public_inputs()
            != self.key.public_inputs {
            return Err(Error::InvalidCircuitShape);
        }
        if !circuit.is_satisfied() {
            return Err(Error::CircuitUnsatisfied);
        }
        let assignment = circuit.assignment().values();
        let ghost key = self.key_view();
        let ghost rows = circuit.shape_view().equations();
        let ghost m = rows.len();
        let ghost n = pow2(domain_log_for(m));
        proof {
            self.key.lemma_view();
        }
        let domain = match EvaluationDomain::new(shape.constraints().len()) {
            Ok(domain) => domain,
            Err(e) => {
                return Err(e);
            },
        };
        let ghost chosen = choose|d: EvaluationDomain| d.well_formed() && d.domain_size() == n;
        proof {
            assert(domain.well_formed() && domain.domain_size() == n);
            lemma_quotient_same_size(domain, chosen, rows, field_values(assignment@));
        }
        if domain.size() != self.key.domain_size {
            return Err(Error::InvalidCircuitShape);
        }
        let quotient = match quotient(circuit, domain) {
            Ok(quotient) => quotient,
            Err(e) => {
                return Err(e);
            },
        };
        if quotient.len() == 0 || quotient.len() - 1 != self.key.h_query.len() {
            return Err(Error::InvalidCircuitShape);
        }
        if !quotient[quotient.len() - 1].equals(&Scalar::zero()) {
            return Err(Error::InvalidCircuitShape);
        }
        if self.key.public_inputs >= assignment.len() {
            return Err(Error::InvalidCircuitShape);
        }
        let private_start = 1 + self.key.public_inputs;
        let private = subslice(assignment, private_start, assignment.len());
        let r = random_scalar(rng);
        let s = random_scalar(rng);
        let a_combination = match msm::g1(self.key.a_query.as_slice(), assignment) {
            Ok(point) => point,
            Err(e) => {
                return Err(e);
            },
        };
        let a = g1_add(
            &g1_add(&self.key.alpha_g1, &a_combination),
            &g1_mul(&self.key.delta_g1, &r),
        );
        let b_combination = match msm::g2_term_sum(self.key.b_g2_query.as_slice(), assignment) {
            Ok(point) => point,
            Err(e) => {
                return Err(e);
            },
        };
        let b = g2_add(
            &g2_add(&self.key.beta_g2, &b_combination),
            &g2_mul(&self.key.delta_g2, &s),
        );
        let b_g1_combination = match msm::g1(self.key.b_g1_query.as_slice(), assignment) {
            Ok(point) => point,
            Err(e) => {
                return Err(e);
            },
        };
        let b_g1 = g1_add(
            &g1_add(&self.key.beta_g1, &b_g1_combination),
            &g1_mul(&self.key.delta_g1, &s),
        );
        let private_combination = match msm::g1(self.key.private_query.as_slice(), private.as_slice()) {
            Ok(point) => point,
            Err(e) => {
                return Err(e);
            },
        };
        let h = subslice(quotient.as_slice(), 0, self.key.h_query.len());
        let h_combination = match msm::g1(self.key.h_query.as_slice(), h.as_slice()) {
            Ok(point) => point,
            Err(e) => {
                return Err(e);
            },
        };
        let c = g1_sub(
            &g1_add(
                &g1_add(
                    &g1_add(&private_combination, &h_combination),
                    &g1_mul(&a, &s),
                ),
                &g1_mul(&b_g1, &r),
            ),
            &g1_mul(&self.key.delta_g1, &r.mul(&s)),
        );
        let public_inputs = subslice(assignment, 1, private_start);
        let proof = Proof { a, b, c };
        proof {
            proof.lemma_parts();
            self.key.lemma_view();
            let key = self.key_view();
            let values = scalar_values(assignment@);
            assert(scalar_values(private@) =~= values.subrange(1int + key.public_inputs, values.len() as int));
            assert(scalar_values(h@) =~= values_of(quotient@).subrange(0, key.h_query.len() as int));
            assert(field_values(assignment@) =~= values);
            assert((proof.spec_a().encoding(), proof.spec_b().encoding(), proof.spec_c().encoding())
                == proof_elements(
                key,
                values,
                domain.coset_interpolation(
                    quotient_evaluations(domain, circuit.shape_view().equations(), field_values(assignment@)),
                ).subrange(0, key.h_query.len() as int),
                r@,
                s@,
                b_combination.encoding(),
            ));
        }
        Ok((proof, public_inputs))
    }
}

/// A copy of `values[from..to]`.
fn subslice(values: &[Scalar], from: usize, to: usize) -> (r: Vec<Scalar>)
    requires
        from <= to <= values@.len(),
    ensures
        r@ == values@.subrange(from as int, to as int),
{
    let mut out: Vec<Scalar> = Vec::new();
    let mut i: usize = from;
    while i < to
        invariant
            from <= i <= to <= values@.len(),
            out@ == values@.subrange(from as int, i as int),
        decreases to - i,
    {
        out.push(values[i]);
        proof {
            assert(values@.subrange(from as int, i + 1) =~= values@.subrange(from as int, i as int).push(
                values@[i as int],
            ));
        }
        i = i + 1;
    }
    out
}

/// Groth16 verifier bound to one circuit shape.
#[derive(Clone, Debug)]
pub struct Verifier {
    key: PreparedVerifyingKey,
}

impl Verifier {
    /// The verification key.
    pub closed spec fn key_view(&self) -> VerifyingKeyView {
        self.key.key_view()
    }

    /// Construct a verifier for a verification key.
    pub fn from_key(key: VerifyingKey) -> (r: Verifier)
        ensures
            r.key_view() == key.view(),
    {
        Verifier { key: key.prepare() }
    }

    /// Access the circuit-specific verification key.
    pub fn key(&self) -> (r: &VerifyingKey)
        ensures
            r.view() == self.key_view(),
    {
        self.key.key()
    }

    /// Return the underlying verification key.
    pub fn into_key(self) -> (r: VerifyingKey)
        ensures
            r.view() == self.key_view(),
    {
        proof {
            self.key.lemma_key_view();
        }
        self.key.key
    }

    /// Verify a proof against public inputs, with the same outcome as
    /// [`PreparedVerifyingKey::verify`].
    pub fn verify(&self, proof: &Proof, public_inputs: &[Scalar]) -> (r: Result<(), Error>)
        requires
            !verification_reads_missing_query(self.key_view(), proof, public_inputs@),
        ensures
            r == verification_outcome(self.key_view(), proof, public_inputs@),
    {
        self.key.verify(proof, public_inputs)
    }
}

/// Verification would read the constant-one entry of an empty public query:
/// the key has no query, no inputs are given, and no proof element is the
/// identity.
pub open spec fn verification_reads_missing_query(key: VerifyingKeyView, proof: &Proof, inputs: Seq<Scalar>) -> bool {
    &&& key.public_query.len() == 0
    &&& inputs.len() == 0
    &&& proof.spec_a().encoding() != g1_identity_encoding()
    &&& proof.spec_b().encoding() != g2_identity_encoding()
    &&& proof.spec_c().encoding() != g1_identity_encoding()
}

/// The outcome of verifying `proof` against `inputs` under `key`: a count
/// error when the inputs are not one per public variable, a verification
/// error when a proof element is the identity or when the product of the
/// pairings `e(-a, b)·e(α, β)·e(public, γ)·e(c, δ)` is not the identity, for
/// the public point `public = query[0] + Σ inputs[i]·query[i+1]`; `-a` is
/// `(q - 1)·a`.
pub open spec fn verification_outcome(key: VerifyingKeyView, proof: &Proof, inputs: Seq<Scalar>) -> Result<
    (),
    Error,
> {
    let expected: nat = if key.public_query.len() == 0 {
        0
    } else {
        (key.public_query.len() - 1) as nat
    };
    if inputs.len() != expected {
        Err(Error::InvalidPublicInputCount { expected: expected as usize, provided: inputs.len() as usize })
    } else if proof.spec_a().encoding() == g1_identity_encoding() || proof.spec_b().encoding()
        == g2_identity_encoding() || proof.spec_c().encoding() == g1_identity_encoding() {
        Err(Error::ProofVerification)
    } else if pairing_product_is_one(
        seq![
            g1_scaled(proof.spec_a().encoding(), fneg(1)),
            key.alpha_g1.encoding(),
            g1_sum(
                key.public_query[0].encoding(),
                g1_msm(g1_encodings(key.public_query.drop_first()), scalar_values(inputs)),
            ),
            proof.spec_c().encoding(),
        ],
        seq![
            proof.spec_b().encoding(),
            key.beta_g2.encoding(),
            key.gamma_g2.encoding(),
            key.delta_g2.encoding(),
        ],
    ) {
        Ok(())
    } else {
        Err(Error::ProofVerification)
    }
}

impl PreparedVerifyingKey {
    /// Verify a proof: check the input count and the proof elements, then the
    /// Groth16 pairing product.
    pub fn verify(&self, proof: &Proof, public_inputs: &[Scalar]) -> (r: Result<(), Error>)
        requires
            !verification_reads_missing_query(self.key_view(), proof, public_inputs@),
        ensures
            r == verification_outcome(self.key_view(), proof, public_inputs@),
    {
        let key = self.key();
        let query = key.public_query();
        let expected = key.public_inputs();
        proof {
            proof.lemma_parts();
            assert(query@.drop_first() =~= query@.subrange(1, query@.len() as int));
        }
        if public_inputs.len() != expected {
            return Err(
                Error::InvalidPublicInputCount { expected, provided: public_inputs.len() },
            );
        }
        if g1_is_identity(&proof.a) || g2_is_identity(&proof.b) || g1_is_identity(&proof.c) {
            return Err(Error::ProofVerification);
        }
        let rest = subslice_g1(query, 1);
        let combination = match msm::g1(rest.as_slice(), public_inputs) {
            Ok(point) => point,
            Err(e) => {
                return Err(e);
            },
        };
        let public = g1_add(&query[0], &combination);
        let negated_a = g1_mul(&proof.a, &Scalar::one().neg());
        let g1_terms = vec![negated_a, key.alpha_g1, public, proof.c];
        let g2_terms = vec![proof.b, key.beta_g2, key.gamma_g2, key.delta_g2];
        proof {
            key.lemma_view();
            assert(g1_encodings(g1_terms@) =~= seq![
                negated_a.encoding(),
                key.alpha_g1.encoding(),
                public.encoding(),
                proof.c.encoding(),
            ]);
            assert(g2_encodings(g2_terms@) =~= seq![
                proof.b.encoding(),
                key.beta_g2.encoding(),
                key.gamma_g2.encoding(),
                key.delta_g2.encoding(),
            ]);
        }
        if pairing_product_is_identity(g1_terms.as_slice(), g2_terms.as_slice()) {
            Ok(())
        } else {
            Err(Error::ProofVerification)
        }
    }
}

/// A copy of `points[from..]`.
fn subslice_g1(points: &[G1Point], from: usize) -> (r: Vec<G1Point>)
    requires
        from <= points@.len(),
    ensures
        r@ == points@.subrange(from as int, points@.len() as int),
{
    let mut out: Vec<G1Point> = Vec::new();
    let mut i: usize = from;
    while i < points.len()
        invariant
            from <= i <= points@.len(),
            out@ == points@.subrange(from as int, i as int),
        decreases points@.len() - i,
    {
        out.push(points[i]);
        proof {
            assert(points@.subrange(from as int, i + 1) =~= points@.subrange(from as int, i as int).push(
                points@[i as int],
            ));
        }
        i = i + 1;
    }
    out
}

} // verus!
