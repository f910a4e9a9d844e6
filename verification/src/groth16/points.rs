//! BLS12-381 group elements carried through the Groth16 logic together with
//! their canonical compressed encodings.

use dusk_bytes::{DeserializableSlice, Serializable};
use vstd::prelude::*;

verus! {

/// The 48-byte string is the compressed encoding of a point of the G1
/// subgroup, as `G1Affine::from_slice` accepts it.
pub uninterp spec fn g1_decodes(bytes: Seq<u8>) -> bool;

/// The 96-byte string is the compressed encoding of a point of the G2
/// subgroup, as `G2Affine::from_slice` accepts it.
pub uninterp spec fn g2_decodes(bytes: Seq<u8>) -> bool;

/// The compressed encoding of the identity of G1: compression and infinity
/// flags set, every other bit clear.
pub open spec fn g1_identity_encoding() -> Seq<u8> {
    seq![0xc0u8] + Seq::new(47, |i: int| 0u8)
}

/// The compressed encoding of the identity of G2.
pub open spec fn g2_identity_encoding() -> Seq<u8> {
    seq![0xc0u8] + Seq::new(95, |i: int| 0u8)
}

/// A G1 subgroup element, held as its canonical compressed encoding, which
/// determines it. Points are made only by the curve library's arithmetic
/// and decoding, which yield subgroup elements, so the encoding held always
/// decodes.
#[derive(Debug, Clone, Copy, PartialEq, Eq)]
pub struct G1Point {
    pub(crate) encoded: [u8; 48],
}

/// A G2 subgroup element, held as its canonical compressed encoding, which
/// determines it. Points are made only by the curve library's arithmetic
/// and decoding, which yield subgroup elements, so the encoding held always
/// decodes.
#[derive(Debug, Clone, Copy, PartialEq, Eq)]
pub struct G2Point {
    pub(crate) encoded: [u8; 96],
}

impl G1Point {
    /// The encoding held is that of a subgroup element.
    #[verifier::type_invariant]
    spec fn held_encoding_decodes(self) -> bool {
        g1_decodes(self.encoded@)
    }

    /// The canonical compressed encoding.
    pub closed spec fn encoding(&self) -> Seq<u8> {
        self.encoded@
    }

    /// Encodings are 48 bytes long.
    pub broadcast proof fn lemma_encoding_length(p: G1Point)
        ensures
            #[trigger] p.encoding().len() == 48,
    {
    }

    /// The encoding determines the point.
    pub proof fn lemma_encoding_determines(p: G1Point, q: G1Point)
        requires
            p.encoding() == q.encoding(),
        ensures
            p == q,
    {
        assert(p.encoded =~= q.encoded) by {
            assert forall|i: int| 0 <= i < 48 implies p.encoded[i] == q.encoded[i] by {
                assert(p.encoded@[i] == q.encoded@[i]);
            }
        }
    }

    /// The canonical compressed encoding.
    pub fn to_bytes(&self) -> (r: [u8; 48])
        ensures
            r@ == self.encoding(),
            g1_decodes(r@),
    {
        proof {
            use_type_invariant(self);
        }
        self.encoded
    }

    /// Decode a compressed point, accepting exactly the canonical encodings
    /// of subgroup elements.
    pub fn from_bytes(bytes: &[u8; 48]) -> (r: Option<G1Point>)
        ensures
            r is Some <==> g1_decodes(bytes@),
            r matches Some(p) ==> p.encoding() == bytes@,
    {
        g1_decode(bytes.as_slice())
    }
}

impl G2Point {
    /// The encoding held is that of a subgroup element.
    #[verifier::type_invariant]
    spec fn held_encoding_decodes(self) -> bool {
        g2_decodes(self.encoded@)
    }

    /// The canonical compressed encoding.
    pub closed spec fn encoding(&self) -> Seq<u8> {
        self.encoded@
    }

    /// Encodings are 96 bytes long.
    pub broadcast proof fn lemma_encoding_length(p: G2Point)
        ensures
            #[trigger] p.encoding().len() == 96,
    {
    }

    /// The encoding determines the point.
    pub proof fn lemma_encoding_determines(p: G2Point, q: G2Point)
        requires
            p.encoding() == q.encoding(),
        ensures
            p == q,
    {
        assert(p.encoded =~= q.encoded) by {
            assert forall|i: int| 0 <= i < 96 implies p.encoded[i] == q.encoded[i] by {
                assert(p.encoded@[i] == q.encoded@[i]);
            }
        }
    }

    /// The canonical compressed encoding.
    pub fn to_bytes(&self) -> (r: [u8; 96])
        ensures
            r@ == self.encoding(),
            g2_decodes(r@),
    {
        proof {
            use_type_invariant(self);
        }
        self.encoded
    }

    /// Decode a compressed point, accepting exactly the canonical encodings
    /// of subgroup elements.
    pub fn from_bytes(bytes: &[u8; 96]) -> (r: Option<G2Point>)
        ensures
            r is Some <==> g2_decodes(bytes@),
            r matches Some(p) ==> p.encoding() == bytes@,
    {
        g2_decode(bytes.as_slice())
    }
}

/// `G1Affine::from_slice`: decode a compressed G1 point, accepting only
/// canonical encodings of subgroup elements. The encoding kept is the
/// point's re-encoding (`G1Affine::to_bytes`), which the format makes equal
/// to the input for every accepted input.
#[verifier::external_body]
pub(crate) fn g1_decode(bytes: &[u8]) -> (r: Option<G1Point>)
    requires
        bytes@.len() == 48,
    ensures
        r is Some <==> g1_decodes(bytes@),
        r matches Some(p) ==> p.encoding() == bytes@,
{
    match dusk_curves::bls12_381::G1Affine::from_slice(bytes) {
        Ok(point) => Some(G1Point { encoded: point.to_bytes() }),
        Err(_) => None,
    }
}

/// `G2Affine::from_slice`: decode a compressed G2 point, accepting only
/// canonical encodings of subgroup elements. The encoding kept is the
/// point's re-encoding, equal to the input for every accepted input.
#[verifier::external_body]
pub(crate) fn g2_decode(bytes: &[u8]) -> (r: Option<G2Point>)
    requires
        bytes@.len() == 96,
    ensures
        r is Some <==> g2_decodes(bytes@),
        r matches Some(p) ==> p.encoding() == bytes@,
{
    match dusk_curves::bls12_381::G2Affine::from_slice(bytes) {
        Ok(point) => Some(G2Point { encoded: point.to_bytes() }),
        Err(_) => None,
    }
}

/// `G1Affine::is_identity`: the point is the identity exactly when its
/// encoding is the identity's encoding.
#[verifier::external_body]
pub(crate) fn g1_is_identity(p: &G1Point) -> (r: bool)
    ensures
        r == (p.encoding() == g1_identity_encoding()),
{
    bool::from(
        dusk_curves::bls12_381::G1Affine::from_compressed_unchecked(&p.encoded).unwrap().is_identity(),
    )
}

/// `G2Affine::is_identity`: the point is the identity exactly when its
/// encoding is the identity's encoding.
#[verifier::external_body]
pub(crate) fn g2_is_identity(p: &G2Point) -> (r: bool)
    ensures
        r == (p.encoding() == g2_identity_encoding()),
{
    bool::from(
        dusk_curves::bls12_381::G2Affine::from_compressed_unchecked(&p.encoded).unwrap().is_identity(),
    )
}

} // verus!
