//! Multi-scalar multiplication with length checks: the curve library's MSM
//! in G1 and a portable bucket method in G2.

use vstd::arithmetic::power2::{lemma_pow2_unfold, pow2};
use vstd::prelude::*;

use super::error::Error;
use super::group::{
    g1_encodings, g1_msm, g1_multi_scalar_mul, g2_add, g2_affine, g2_encodings, g2_identity,
    g2_mul, g2_projective, g2_projective_add, g2_projective_double, g2_projective_identity,
    g2_scaled, g2_sum, scalar_values,
};
use super::points::{g2_identity_encoding, G1Point, G2Point};
use crate::scalar::Scalar;

verus! {

/// Bit `index` of a little-endian byte string.
pub open spec fn bit_at(bytes: Seq<u8>, index: nat) -> nat {
    (bytes[(index / 8) as int] as nat / pow2(index % 8)) % 2
}

/// The integer formed by the `width` bits of a little-endian 255-bit scalar
/// encoding that start at bit `offset`; bits at or past position 255 count
/// as zero.
pub open spec fn window_bits(bytes: Seq<u8>, offset: nat, width: nat) -> nat
    decreases width,
{
    if width == 0 {
        0
    } else {
        let bit = (width - 1) as nat;
        window_bits(bytes, offset, bit) + if offset + bit < 255 {
            bit_at(bytes, offset + bit) * pow2(bit)
        } else {
            0
        }
    }
}

proof fn lemma_window_bits_bound(bytes: Seq<u8>, offset: nat, width: nat)
    ensures
        window_bits(bytes, offset, width) < pow2(width),
    decreases width,
{
    if width == 0 {
        vstd::arithmetic::power2::lemma2_to64();
    } else {
        let bit = (width - 1) as nat;
        lemma_window_bits_bound(bytes, offset, bit);
        lemma_pow2_unfold(width);
        let b = bit_at(bytes, offset + bit);
        assert(b <= 1);
        assert(b * pow2(bit) <= pow2(bit)) by (nonlinear_arith)
            requires
                b <= 1,
        ;
    }
}

/// The bucket index of one scalar in one window: the bits
/// `offset .. offset + width` of its canonical encoding.
fn window_value(bytes: &[u8; 32], offset: usize, width: usize) -> (r: usize)
    requires
        width <= 8,
        offset <= 255,
    ensures
        r == window_bits(bytes@, offset as nat, width as nat),
        r < pow2(width as nat),
{
    let mut value: usize = 0;
    let mut bit: usize = 0;
    while bit < width
        invariant
            bit <= width <= 8,
            offset <= 255,
            value == window_bits(bytes@, offset as nat, bit as nat),
        decreases width - bit,
    {
        proof {
            vstd::arithmetic::power2::lemma2_to64();
            lemma_window_bits_bound(bytes@, offset as nat, bit as nat);
            lemma_pow2_unfold((bit + 1) as nat);
            vstd::bits::lemma_usize_pow2_no_overflow(bit as nat);
            vstd::bits::lemma_usize_shl_is_mul(1, bit);
        }
        let index = offset + bit;
        if index < 255 {
            let byte: u8 = bytes[index / 8];
            let shift: u8 = (index % 8) as u8;
            let b: u8 = (byte >> shift) & 1;
            proof {
                vstd::bits::lemma_u8_shr_is_div(byte, shift);
                assert((byte >> shift) & 1 == (byte >> shift) % 2) by (bit_vector);
                assert(b as nat == bit_at(bytes@, index as nat));
            }
            let shifted: usize = (b as usize) << bit;
            proof {
                let bu = b as usize;
                assert(bu <= 1);
                assert(bit < 8);
                assert(bu << bit == bu * pow2(bit as nat)) by {
                    vstd::arithmetic::power2::lemma2_to64();
                    assert(pow2(bit as nat) <= 128);
                    assert(bu * pow2(bit as nat) <= pow2(bit as nat)) by (nonlinear_arith)
                        requires
                            bu <= 1,
                    ;
                    vstd::bits::lemma_usize_shl_is_mul(bu, bit);
                }
                assert(value < (1usize << bit));
                assert(value | (bu << bit) == value + (bu << bit)) by (bit_vector)
                    requires
                        value < (1usize << bit),
                        bu <= 1,
                        bit < 8,
                ;
            }
            value = value | shifted;
        }
        bit = bit + 1;
    }
    proof {
        lemma_window_bits_bound(bytes@, offset as nat, width as nat);
    }
    value
}

/// A G1 multi-scalar multiplication after checking that the query and the
/// scalars have the same length.
pub fn g1(points: &[G1Point], scalars: &[Scalar]) -> (r: Result<G1Point, Error>)
    ensures
        r is Err <==> points@.len() != scalars@.len(),
        r is Err ==> r == Err::<G1Point, Error>(Error::InvalidQueryLength),
        r matches Ok(p) ==> p.encoding() == g1_msm(g1_encodings(points@), scalar_values(scalars@)),
{
    if points.len() != scalars.len() {
        return Err(Error::InvalidQueryLength);
    }
    Ok(g1_multi_scalar_mul(points, scalars))
}

/// The G2 multi-scalar sum `Σ scalars[i]·points[i]` over point encodings,
/// added term by term from the identity in list order.
pub open spec fn g2_msm(points: Seq<Seq<u8>>, scalars: Seq<nat>) -> Seq<u8>
    decreases points.len(),
{
    if points.len() == 0 {
        g2_identity_encoding()
    } else {
        g2_sum(
            g2_msm(points.drop_last(), scalars.drop_last()),
            g2_scaled(points.last(), scalars[points.len() - 1]),
        )
    }
}

/// A G2 multi-scalar multiplication after checking that the query and the
/// scalars have the same length: each point times its scalar, summed in list
/// order from the identity.
pub fn g2_term_sum(points: &[G2Point], scalars: &[Scalar]) -> (r: Result<G2Point, Error>)
    ensures
        r is Err <==> points@.len() != scalars@.len(),
        r is Err ==> r == Err::<G2Point, Error>(Error::InvalidQueryLength),
        r matches Ok(p) ==> p.encoding() == g2_msm(g2_encodings(points@), scalar_values(scalars@)),
{
    if points.len() != scalars.len() {
        return Err(Error::InvalidQueryLength);
    }
    let ghost encodings = g2_encodings(points@);
    let ghost values = scalar_values(scalars@);
    let mut sum = g2_identity();
    let mut i: usize = 0;
    proof {
        assert(encodings.take(0) =~= Seq::<Seq<u8>>::empty());
    }
    while i < points.len()
        invariant
            i <= points@.len(),
            points@.len() == scalars@.len(),
            encodings == g2_encodings(points@),
            values == scalar_values(scalars@),
            sum.encoding() == g2_msm(encodings.take(i as int), values.take(i as int)),
        decreases points@.len() - i,
    {
        let term = g2_mul(&points[i], &scalars[i]);
        sum = g2_add(&sum, &term);
        proof {
            let next = (i + 1) as int;
            assert(encodings.take(next).drop_last() =~= encodings.take(i as int));
            assert(values.take(next).drop_last() =~= values.take(i as int));
            assert(encodings.take(next).last() == points@[i as int].encoding());
            assert(values.take(next)[i as int] == scalars@[i as int]@);
        }
        i = i + 1;
    }
    proof {
        assert(encodings.take(i as int) =~= encodings);
        assert(values.take(i as int) =~= values);
    }
    Ok(sum)
}

/// The bucket window width used for `length` points.
pub open spec fn g2_window(length: nat) -> nat {
    if length <= 4 {
        2
    } else if length <= 32 {
        4
    } else if length <= 256 {
        6
    } else {
        8
    }
}

/// A G2 multi-scalar multiplication by the bucket method, after checking
/// that the query and the scalars have the same length. With no points the
/// sum is the identity.
pub fn g2(points: &[G2Point], scalars: &[Scalar]) -> (r: Result<G2Point, Error>)
    ensures
        r is Err <==> points@.len() != scalars@.len(),
        r is Err ==> r == Err::<G2Point, Error>(Error::InvalidQueryLength),
        points@.len() == 0 && scalars@.len() == 0 ==> (r matches Ok(p) && p.encoding()
            == g2_identity_encoding()),
{
    if points.len() != scalars.len() {
        return Err(Error::InvalidQueryLength);
    }
    if points.len() == 0 {
        return Ok(g2_identity());
    }
    let window: usize = if points.len() <= 4 {
        2
    } else if points.len() <= 32 {
        4
    } else if points.len() <= 256 {
        6
    } else {
        8
    };
    assert(window == g2_window(points@.len()));
    let windows: usize = (255 + window - 1) / window;
    assert(windows * window >= 255 && (windows - 1) * window < 255) by (nonlinear_arith)
        requires
            windows as int == (254 + window as int) / (window as int),
            2 <= window <= 8,
    ;
    let mut bases: Vec<dusk_curves::bls12_381::G2Projective> = Vec::new();
    let mut scalar_bytes: Vec<[u8; 32]> = Vec::new();
    let mut i: usize = 0;
    while i < scalars.len()
        invariant
            i <= scalars@.len(),
            scalars@.len() == points@.len(),
            scalar_bytes@.len() == i,
            bases@.len() == i,
        decreases scalars@.len() - i,
    {
        bases.push(g2_projective(&points[i]));
        scalar_bytes.push(scalars[i].to_bytes());
        i = i + 1;
    }
    proof {
        vstd::arithmetic::power2::lemma2_to64();
        vstd::bits::lemma_usize_shl_is_mul(1, window);
    }
    let bucket_count: usize = (1usize << window) - 1;
    assert(bucket_count + 1 == pow2(window as nat));
    let mut result = g2_projective_identity();
    let mut window_index: usize = windows;
    while window_index > 0
        invariant
            window_index <= windows,
            windows * window >= 255,
            (windows - 1) * window < 255,
            2 <= window <= 8,
            bucket_count + 1 == pow2(window as nat),
            scalar_bytes@.len() == points@.len(),
            bases@.len() == points@.len(),
        decreases window_index,
    {
        window_index = window_index - 1;
        let mut d: usize = 0;
        while d < window
            invariant
                d <= window,
            decreases window - d,
        {
            result = g2_projective_double(&result);
            d = d + 1;
        }
        let mut buckets: Vec<dusk_curves::bls12_381::G2Projective> = Vec::new();
        let mut k: usize = 0;
        while k < bucket_count
            invariant
                k <= bucket_count,
                buckets@.len() == k,
            decreases bucket_count - k,
        {
            buckets.push(g2_projective_identity());
            k = k + 1;
        }
        assert(window_index * window <= 255) by (nonlinear_arith)
            requires
                window_index < windows,
                (windows - 1) * window < 255,
        ;
        let bit_offset: usize = window_index * window;
        let mut p: usize = 0;
        while p < points.len()
            invariant
                p <= points@.len(),
                scalar_bytes@.len() == points@.len(),
                bases@.len() == points@.len(),
                buckets@.len() == bucket_count,
                bucket_count + 1 == pow2(window as nat),
                bit_offset <= 255,
                window <= 8,
            decreases points@.len() - p,
        {
            let value = window_value(&scalar_bytes[p], bit_offset, window);
            if value != 0 {
                let updated = g2_projective_add(&buckets[value - 1], &bases[p]);
                buckets.set(value - 1, updated);
            }
            p = p + 1;
        }
        let mut running = g2_projective_identity();
        let mut j: usize = buckets.len();
        while j > 0
            invariant
                j <= buckets@.len(),
            decreases j,
        {
            j = j - 1;
            running = g2_projective_add(&running, &buckets[j]);
            result = g2_projective_add(&result, &running);
        }
    }
    Ok(g2_affine(&result))
}

} // verus!
