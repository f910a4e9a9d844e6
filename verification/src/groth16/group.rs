//! Group arithmetic on BLS12-381 points, computed by the curve library and
//! described by the canonical compressed encodings of the results.

use dusk_bytes::Serializable;
use dusk_curves::bls12_381::{
    msm_variable_base, BlsScalar, G1Affine, G1Projective, G2Affine, G2Projective,
};
use vstd::prelude::*;

use super::points::{g1_identity_encoding, g2_identity_encoding, G1Point, G2Point};
use crate::scalar::Scalar;

verus! {

/// Encoding of the sum of the two G1 points encoded by `a` and `b`.
pub uninterp spec fn g1_sum(a: Seq<u8>, b: Seq<u8>) -> Seq<u8>;

/// Encoding of `a - b` in G1.
pub uninterp spec fn g1_difference(a: Seq<u8>, b: Seq<u8>) -> Seq<u8>;

/// Encoding of the G1 point encoded by `p`, multiplied by the scalar `s`.
pub uninterp spec fn g1_scaled(p: Seq<u8>, s: nat) -> Seq<u8>;

/// Encoding of `Σ scalars[i]·points[i]` in G1, as the curve library's
/// variable-base multi-scalar multiplication computes it.
pub uninterp spec fn g1_msm(points: Seq<Seq<u8>>, scalars: Seq<nat>) -> Seq<u8>;

/// Encoding of the sum of two G2 points.
pub uninterp spec fn g2_sum(a: Seq<u8>, b: Seq<u8>) -> Seq<u8>;

/// Encoding of a G2 point multiplied by a scalar.
pub uninterp spec fn g2_scaled(p: Seq<u8>, s: nat) -> Seq<u8>;

/// The compressed encoding of the fixed generator of G1.
pub open spec fn g1_generator_encoding() -> Seq<u8> {
    seq![
        0x97u8, 0xf1, 0xd3, 0xa7, 0x31, 0x97, 0xd7, 0x94, 0x26, 0x95, 0x63, 0x8c,
        0x4f, 0xa9, 0xac, 0x0f, 0xc3, 0x68, 0x8c, 0x4f, 0x97, 0x74, 0xb9, 0x05,
        0xa1, 0x4e, 0x3a, 0x3f, 0x17, 0x1b, 0xac, 0x58, 0x6c, 0x55, 0xe8, 0x3f,
        0xf9, 0x7a, 0x1a, 0xef, 0xfb, 0x3a, 0xf0, 0x0a, 0xdb, 0x22, 0xc6, 0xbb,
    ]
}

/// The compressed encoding of the fixed generator of G2.
pub open spec fn g2_generator_encoding() -> Seq<u8> {
    seq![
        0x93u8, 0xe0, 0x2b, 0x60, 0x52, 0x71, 0x9f, 0x60, 0x7d, 0xac, 0xd3, 0xa0,
        0x88, 0x27, 0x4f, 0x65, 0x59, 0x6b, 0xd0, 0xd0, 0x99, 0x20, 0xb6, 0x1a,
        0xb5, 0xda, 0x61, 0xbb, 0xdc, 0x7f, 0x50, 0x49, 0x33, 0x4c, 0xf1, 0x12,
        0x13, 0x94, 0x5d, 0x57, 0xe5, 0xac, 0x7d, 0x05, 0x5d, 0x04, 0x2b, 0x7e,
        0x02, 0x4a, 0xa2, 0xb2, 0xf0, 0x8f, 0x0a, 0x91, 0x26, 0x08, 0x05, 0x27,
        0x2d, 0xc5, 0x10, 0x51, 0xc6, 0xe4, 0x7a, 0xd4, 0xfa, 0x40, 0x3b, 0x02,
        0xb4, 0x51, 0x0b, 0x64, 0x7a, 0xe3, 0xd1, 0x77, 0x0b, 0xac, 0x03, 0x26,
        0xa8, 0x05, 0xbb, 0xef, 0xd4, 0x80, 0x56, 0xc8, 0xc1, 0x21, 0xbd, 0xb8,
    ]
}

/// The encodings of a list of G1 points.
pub open spec fn g1_encodings(points: Seq<G1Point>) -> Seq<Seq<u8>> {
    points.map_values(|p: G1Point| p.encoding())
}

/// The encodings of a list of G2 points.
pub open spec fn g2_encodings(points: Seq<G2Point>) -> Seq<Seq<u8>> {
    points.map_values(|p: G2Point| p.encoding())
}

/// Whether the product of the pairings `e(g1s[i], g2s[i])` of the points
/// with these encodings is the identity of `Gt`.
pub uninterp spec fn pairing_product_is_one(g1s: Seq<Seq<u8>>, g2s: Seq<Seq<u8>>) -> bool;

/// The field values of a list of scalars.
pub open spec fn scalar_values(scalars: Seq<Scalar>) -> Seq<nat> {
    scalars.map_values(|s: Scalar| s@)
}

/// `G1Projective + G1Affine` followed by the affine conversion.
#[verifier::external_body]
pub(crate) fn g1_add(a: &G1Point, b: &G1Point) -> (r: G1Point)
    ensures
        r.encoding() == g1_sum(a.encoding(), b.encoding()),
{
    let a = G1Affine::from_compressed_unchecked(&a.encoded).unwrap();
    let b = G1Affine::from_compressed_unchecked(&b.encoded).unwrap();
    G1Point { encoded: G1Affine::from(G1Projective::from(a) + b).to_bytes() }
}

/// `G1Projective - G1Projective` followed by the affine conversion.
#[verifier::external_body]
pub(crate) fn g1_sub(a: &G1Point, b: &G1Point) -> (r: G1Point)
    ensures
        r.encoding() == g1_difference(a.encoding(), b.encoding()),
{
    let a = G1Affine::from_compressed_unchecked(&a.encoded).unwrap();
    let b = G1Affine::from_compressed_unchecked(&b.encoded).unwrap();
    G1Point { encoded: G1Affine::from(G1Projective::from(a) - G1Projective::from(b)).to_bytes() }
}

/// `G1Affine * BlsScalar` followed by the affine conversion. G1 has prime
/// order `q` and a scalar's value is below `q`, so a nonzero multiple of a
/// point other than the identity is not the identity.
#[verifier::external_body]
pub(crate) fn g1_mul(p: &G1Point, s: &Scalar) -> (r: G1Point)
    ensures
        r.encoding() == g1_scaled(p.encoding(), s@),
        p.encoding() != g1_identity_encoding() && s@ != 0 ==> r.encoding() != g1_identity_encoding(),
{
    let p = G1Affine::from_compressed_unchecked(&p.encoded).unwrap();
    G1Point { encoded: G1Affine::from(p * BlsScalar(s.limbs)).to_bytes() }
}

/// `msm_variable_base` over points and scalars of equal length, followed by
/// the affine conversion.
#[verifier::external_body]
pub(crate) fn g1_multi_scalar_mul(points: &[G1Point], scalars: &[Scalar]) -> (r: G1Point)
    requires
        points@.len() == scalars@.len(),
    ensures
        r.encoding() == g1_msm(g1_encodings(points@), scalar_values(scalars@)),
{
    let bases: Vec<G1Affine> =
        points.iter().map(|p| G1Affine::from_compressed_unchecked(&p.encoded).unwrap()).collect();
    let values: Vec<BlsScalar> = scalars.iter().map(|s| BlsScalar(s.limbs)).collect();
    G1Point { encoded: G1Affine::from(msm_variable_base(&bases, &values)).to_bytes() }
}

/// `G1Affine::generator`, the fixed generator of G1.
#[verifier::external_body]
pub(crate) fn g1_generator() -> (r: G1Point)
    ensures
        r.encoding() == g1_generator_encoding(),
{
    G1Point { encoded: G1Affine::generator().to_bytes() }
}

/// `G2Affine::generator`, the fixed generator of G2.
#[verifier::external_body]
pub(crate) fn g2_generator() -> (r: G2Point)
    ensures
        r.encoding() == g2_generator_encoding(),
{
    G2Point { encoded: G2Affine::generator().to_bytes() }
}

/// `G2Affine::identity`, whose encoding is the identity encoding.
#[verifier::external_body]
pub(crate) fn g2_identity() -> (r: G2Point)
    ensures
        r.encoding() == g2_identity_encoding(),
{
    G2Point { encoded: G2Affine::identity().to_bytes() }
}

/// `G2Projective + G2Projective` followed by the affine conversion.
#[verifier::external_body]
pub(crate) fn g2_add(a: &G2Point, b: &G2Point) -> (r: G2Point)
    ensures
        r.encoding() == g2_sum(a.encoding(), b.encoding()),
{
    let a = G2Affine::from_compressed_unchecked(&a.encoded).unwrap();
    let b = G2Affine::from_compressed_unchecked(&b.encoded).unwrap();
    G2Point { encoded: G2Affine::from(G2Projective::from(a) + G2Projective::from(b)).to_bytes() }
}

/// `G2Affine * BlsScalar` followed by the affine conversion. G2 has prime
/// order `q` and a scalar's value is below `q`, so a nonzero multiple of a
/// point other than the identity is not the identity.
#[verifier::external_body]
pub(crate) fn g2_mul(p: &G2Point, s: &Scalar) -> (r: G2Point)
    ensures
        r.encoding() == g2_scaled(p.encoding(), s@),
        p.encoding() != g2_identity_encoding() && s@ != 0 ==> r.encoding() != g2_identity_encoding(),
{
    let p = G2Affine::from_compressed_unchecked(&p.encoded).unwrap();
    G2Point { encoded: G2Affine::from(p * BlsScalar(s.limbs)).to_bytes() }
}

/// `pairing_product_is_identity` over the pairs `(g1s[i], g2s[i])`: one
/// multi-Miller loop and final exponentiation, compared with the identity
/// of `Gt`.
#[verifier::external_body]
pub(crate) fn pairing_product_is_identity(g1s: &[G1Point], g2s: &[G2Point]) -> (r: bool)
    requires
        g1s@.len() == g2s@.len(),
    ensures
        r == pairing_product_is_one(g1_encodings(g1s@), g2_encodings(g2s@)),
{
    let a: Vec<G1Affine> =
        g1s.iter().map(|p| G1Affine::from_compressed_unchecked(&p.encoded).unwrap()).collect();
    let b: Vec<G2Affine> =
        g2s.iter().map(|p| G2Affine::from_compressed_unchecked(&p.encoded).unwrap()).collect();
    let terms: Vec<(&G1Affine, &G2Affine)> = a.iter().zip(b.iter()).collect();
    dusk_curves::bls12_381::pairing_product_is_identity(&terms)
}

/// `dusk_curves::bls12_381::G2Projective`, a G2 point in projective
/// coordinates, carried opaquely.
#[verifier::external_type_specification]
#[verifier::external_body]
pub struct ExG2Projective(G2Projective);

/// `G2Projective::identity`. Nothing is stated of the opaque result.
#[verifier::external_body]
pub(crate) fn g2_projective_identity() -> G2Projective {
    G2Projective::identity()
}

/// `G2Projective::from(G2Affine)`. Nothing is stated of the opaque result.
#[verifier::external_body]
pub(crate) fn g2_projective(p: &G2Point) -> G2Projective {
    G2Projective::from(G2Affine::from_compressed_unchecked(&p.encoded).unwrap())
}

/// `G2Projective::double`. Nothing is stated of the opaque result.
#[verifier::external_body]
pub(crate) fn g2_projective_double(p: &G2Projective) -> G2Projective {
    p.double()
}

/// `G2Projective + G2Projective`. Nothing is stated of the opaque result.
#[verifier::external_body]
pub(crate) fn g2_projective_add(a: &G2Projective, b: &G2Projective) -> G2Projective {
    a + b
}

/// `G2Affine::from(G2Projective)` with the compressed encoding of the
/// result. Nothing is stated of the point, which is computed from an opaque
/// projective point.
#[verifier::external_body]
pub(crate) fn g2_affine(p: &G2Projective) -> G2Point {
    G2Point { encoded: G2Affine::from(p).to_bytes() }
}

} // verus!
