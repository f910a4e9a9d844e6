//! Groth16 proofs and their canonical 192-byte encoding.

use vstd::prelude::*;

use crate::plonk::BytesError;

use super::points::{
    g1_decode, g1_decodes, g1_identity_encoding, g1_is_identity, g2_decode, g2_decodes,
    g2_identity_encoding, g2_is_identity, G1Point, G2Point,
};

verus! {

broadcast use {G1Point::lemma_encoding_length, G2Point::lemma_encoding_length};

/// Canonical compressed size of a Groth16 proof.
pub const PROOF_SIZE: usize = 192;

/// A Groth16 proof: two G1 elements and one G2 element.
#[derive(Debug, Clone, Copy, PartialEq, Eq)]
pub struct Proof {
    pub(crate) a: G1Point,
    pub(crate) b: G2Point,
    pub(crate) c: G1Point,
}

/// The encoding of a proof: `a`, `b`, `c` compressed, in that order.
pub open spec fn proof_encoding(a: G1Point, b: G2Point, c: G1Point) -> Seq<u8> {
    a.encoding() + b.encoding() + c.encoding()
}

/// `bytes` encodes three subgroup points, none of them the identity.
pub open spec fn proof_bytes_valid(bytes: Seq<u8>) -> bool {
    &&& g1_decodes(bytes.subrange(0, 48))
    &&& g2_decodes(bytes.subrange(48, 144))
    &&& g1_decodes(bytes.subrange(144, 192))
    &&& bytes.subrange(0, 48) != g1_identity_encoding()
    &&& bytes.subrange(48, 144) != g2_identity_encoding()
    &&& bytes.subrange(144, 192) != g1_identity_encoding()
}

/// Decoding accepts the encoding of every proof whose three points decode
/// and are not the identity: [`Proof::from_bytes`] of [`Proof::to_bytes`]
/// gives back a proof with the same encoding.
pub proof fn lemma_proof_round_trip(a: G1Point, b: G2Point, c: G1Point)
    requires
        g1_decodes(a.encoding()),
        g2_decodes(b.encoding()),
        g1_decodes(c.encoding()),
        a.encoding() != g1_identity_encoding(),
        b.encoding() != g2_identity_encoding(),
        c.encoding() != g1_identity_encoding(),
    ensures
        proof_bytes_valid(proof_encoding(a, b, c)),
{
    let e = proof_encoding(a, b, c);
    assert(e.subrange(0, 48) =~= a.encoding());
    assert(e.subrange(48, 144) =~= b.encoding());
    assert(e.subrange(144, 192) =~= c.encoding());
}

fn copy_into(out: &mut [u8; 192], start: usize, bytes: &[u8])
    requires
        start + bytes@.len() <= 192,
    ensures
        final(out)@.subrange(start as int, start + bytes@.len()) == bytes@,
        forall|i: int|
            0 <= i < 192 && !(start <= i < start + bytes@.len()) ==> final(out)@[i] == old(out)@[i],
{
    let mut i: usize = 0;
    while i < bytes.len()
        invariant
            i <= bytes@.len(),
            start + bytes@.len() <= 192,
            forall|t: int| 0 <= t < i ==> out@[start + t] == bytes@[t],
            forall|t: int|
                0 <= t < 192 && !(start <= t < start + i) ==> out@[t] == old(out)@[t],
        decreases bytes.len() - i,
    {
        out.set(start + i, bytes[i]);
        i = i + 1;
    }
    assert(out@.subrange(start as int, start + bytes@.len()) =~= bytes@);
}

fn slice_of(bytes: &[u8; 192], start: usize, end: usize) -> (r: Vec<u8>)
    requires
        start <= end <= 192,
    ensures
        r@ == bytes@.subrange(start as int, end as int),
{
    let mut out: Vec<u8> = Vec::new();
    let mut i: usize = start;
    while i < end
        invariant
            start <= i <= end <= 192,
            out@ == bytes@.subrange(start as int, i as int),
        decreases end - i,
    {
        out.push(bytes[i]);
        i = i + 1;
        assert(out@ =~= bytes@.subrange(start as int, i as int));
    }
    out
}

impl Proof {
    /// First G1 element.
    pub closed spec fn spec_a(&self) -> G1Point {
        self.a
    }

    /// G2 element.
    pub closed spec fn spec_b(&self) -> G2Point {
        self.b
    }

    /// Second G1 element.
    pub closed spec fn spec_c(&self) -> G1Point {
        self.c
    }

    /// The spec accessors read the fields.
    pub(crate) proof fn lemma_parts(&self)
        ensures
            self.spec_a() == self.a,
            self.spec_b() == self.b,
            self.spec_c() == self.c,
    {
    }

    /// The encoding of this proof.
    pub open spec fn encoding(&self) -> Seq<u8> {
        proof_encoding(self.spec_a(), self.spec_b(), self.spec_c())
    }

    /// The encoding determines the proof.
    pub proof fn lemma_encoding_determines(p: Proof, q: Proof)
        requires
            p.encoding() == q.encoding(),
        ensures
            p == q,
    {
        let e = p.encoding();
        assert(e.subrange(0, 48) =~= p.a.encoding());
        assert(e.subrange(0, 48) =~= q.a.encoding());
        assert(e.subrange(48, 144) =~= p.b.encoding());
        assert(e.subrange(48, 144) =~= q.b.encoding());
        assert(e.subrange(144, 192) =~= p.c.encoding());
        assert(e.subrange(144, 192) =~= q.c.encoding());
        G1Point::lemma_encoding_determines(p.a, q.a);
        G2Point::lemma_encoding_determines(p.b, q.b);
        G1Point::lemma_encoding_determines(p.c, q.c);
    }

    /// First G1 proof element.
    pub fn a(&self) -> (r: &G1Point)
        ensures
            *r == self.spec_a(),
    {
        &self.a
    }

    /// G2 proof element.
    pub fn b(&self) -> (r: &G2Point)
        ensures
            *r == self.spec_b(),
    {
        &self.b
    }

    /// Second G1 proof element.
    pub fn c(&self) -> (r: &G1Point)
        ensures
            *r == self.spec_c(),
    {
        &self.c
    }

    /// The canonical encoding: `a`, `b`, `c` compressed. Every point
    /// decodes, so [`Proof::from_bytes`] accepts the encoding of a proof with
    /// no element at the identity.
    pub fn to_bytes(&self) -> (r: [u8; 192])
        ensures
            r@ == self.encoding(),
            g1_decodes(self.spec_a().encoding()),
            g2_decodes(self.spec_b().encoding()),
            g1_decodes(self.spec_c().encoding()),
            self.spec_a().encoding() != g1_identity_encoding() && self.spec_b().encoding()
                != g2_identity_encoding() && self.spec_c().encoding() != g1_identity_encoding()
                ==> proof_bytes_valid(r@),
    {
        let mut bytes = [0u8; 192];
        let a = self.a.to_bytes();
        let b = self.b.to_bytes();
        let c = self.c.to_bytes();
        copy_into(&mut bytes, 0, &a);
        let ghost after_a = bytes@;
        copy_into(&mut bytes, 48, &b);
        let ghost after_b = bytes@;
        copy_into(&mut bytes, 144, &c);
        assert(bytes@ =~= self.encoding()) by {
            assert forall|i: int| 0 <= i < 192 implies bytes@[i] == self.encoding()[i] by {
                if i < 48 {
                    assert(after_a.subrange(0, 48)[i] == a@[i]);
                } else if i < 144 {
                    assert(after_b.subrange(48, 144)[i - 48] == b@[i - 48]);
                } else {
                    assert(bytes@.subrange(144, 192)[i - 144] == c@[i - 144]);
                }
            }
        }
        proof {
            if self.a.encoding() != g1_identity_encoding() && self.b.encoding()
                != g2_identity_encoding() && self.c.encoding() != g1_identity_encoding() {
                lemma_proof_round_trip(self.a, self.b, self.c);
            }
        }
        bytes
    }

    /// Decode a canonical encoding; `InvalidData` unless it holds three
    /// subgroup points none of which is the identity.
    pub fn from_bytes(bytes: &[u8; 192]) -> (r: Result<Proof, BytesError>)
        ensures
            r is Ok <==> proof_bytes_valid(bytes@),
            r is Err ==> r == Err::<Proof, BytesError>(BytesError::InvalidData),
            r matches Ok(p) ==> p.encoding() == bytes@,
            r matches Ok(p) ==> forall|q: Proof| #[trigger] q.encoding() == bytes@ ==> p == q,
    {
        let a_bytes = slice_of(bytes, 0, 48);
        let b_bytes = slice_of(bytes, 48, 144);
        let c_bytes = slice_of(bytes, 144, 192);
        let a = match g1_decode(a_bytes.as_slice()) {
            Some(p) => p,
            None => {
                return Err(BytesError::InvalidData);
            },
        };
        let b = match g2_decode(b_bytes.as_slice()) {
            Some(p) => p,
            None => {
                return Err(BytesError::InvalidData);
            },
        };
        let c = match g1_decode(c_bytes.as_slice()) {
            Some(p) => p,
            None => {
                return Err(BytesError::InvalidData);
            },
        };
        if g1_is_identity(&a) || g2_is_identity(&b) || g1_is_identity(&c) {
            return Err(BytesError::InvalidData);
        }
        let proof = Proof { a, b, c };
        assert(proof.encoding() =~= bytes@);
        assert forall|q: Proof| #[trigger] q.encoding() == bytes@ implies proof == q by {
            Proof::lemma_encoding_determines(proof, q);
        }
        Ok(proof)
    }
}

} // verus!
