//! Groth16 proving and verification keys and their canonical encodings.

use vstd::prelude::*;

use super::codec::{
    g1_all_decode, g1_list_encoding, g1_list_fits, g2_all_decode, g2_list_encoding, g2_list_fits,
    header_encoding, le64, lemma_g1_list_injective, lemma_g1_points_encoding_length,
    lemma_g2_list_injective, lemma_g2_points_encoding_length,
    lemma_le_encode_length, lemma_usize_fits_le64, write_g1, write_g1_vec, write_g2, write_g2_vec,
    write_header, write_usize, Reader,
};
use super::error::Error;
use super::points::{
    g1_decodes, g2_decodes,
    g1_identity_encoding, g1_is_identity, g2_identity_encoding, g2_is_identity, G1Point, G2Point,
};
use crate::plonkish::{is_power_of_two, power_of_two};
use crate::scalar::le_bytes_value;

verus! {

broadcast use {G1Point::lemma_encoding_length, G2Point::lemma_encoding_length};

/// Key kind byte of proving keys.
pub const PROVING_KEY_KIND: u8 = 1;

/// Key kind byte of verifying keys.
pub const VERIFYING_KEY_KIND: u8 = 2;

/// Circuit-specific Groth16 proving key.
#[derive(Debug, Clone, PartialEq, Eq)]
pub struct ProvingKey {
    pub(crate) shape_digest: [u8; 32],
    pub(crate) variables: usize,
    pub(crate) public_inputs: usize,
    pub(crate) domain_size: usize,
    pub(crate) alpha_g1: G1Point,
    pub(crate) beta_g1: G1Point,
    pub(crate) beta_g2: G2Point,
    pub(crate) delta_g1: G1Point,
    pub(crate) delta_g2: G2Point,
    pub(crate) a_query: Vec<G1Point>,
    pub(crate) b_g1_query: Vec<G1Point>,
    pub(crate) b_g2_query: Vec<G2Point>,
    pub(crate) private_query: Vec<G1Point>,
    pub(crate) h_query: Vec<G1Point>,
}

/// The plain contents of a proving key.
pub struct ProvingKeyView {
    /// Digest of the bound rank-1 shape.
    pub shape_digest: Seq<u8>,
    /// Assignment length.
    pub variables: nat,
    /// Public-input count.
    pub public_inputs: nat,
    /// FFT domain size.
    pub domain_size: nat,
    /// `α·G1`.
    pub alpha_g1: G1Point,
    /// `β·G1`.
    pub beta_g1: G1Point,
    /// `β·G2`.
    pub beta_g2: G2Point,
    /// `δ·G1`.
    pub delta_g1: G1Point,
    /// `δ·G2`.
    pub delta_g2: G2Point,
    /// Left-matrix query.
    pub a_query: Seq<G1Point>,
    /// Right-matrix query in G1.
    pub b_g1_query: Seq<G1Point>,
    /// Right-matrix query in G2.
    pub b_g2_query: Seq<G2Point>,
    /// Private-variable query.
    pub private_query: Seq<G1Point>,
    /// Quotient query.
    pub h_query: Seq<G1Point>,
}

/// The canonical encoding of a proving key: header, digest, three counts,
/// the five fixed points, then the five length-prefixed queries.
pub open spec fn proving_key_encoding(k: ProvingKeyView) -> Seq<u8> {
    header_encoding(1) + k.shape_digest + le64(k.variables) + le64(k.public_inputs) + le64(
        k.domain_size,
    ) + k.alpha_g1.encoding() + k.beta_g1.encoding() + k.beta_g2.encoding() + k.delta_g1.encoding()
        + k.delta_g2.encoding() + g1_list_encoding(k.a_query) + g1_list_encoding(k.b_g1_query)
        + g2_list_encoding(k.b_g2_query) + g1_list_encoding(k.private_query) + g1_list_encoding(
        k.h_query,
    )
}

/// The structural conditions a decoded proving key meets: a nonzero
/// power-of-two domain, no fixed point at the identity, and query lengths
/// consistent with the counts.
pub open spec fn proving_key_valid(k: ProvingKeyView) -> bool {
    &&& k.variables >= k.public_inputs + 1
    &&& k.domain_size > 0
    &&& is_power_of_two(k.domain_size)
    &&& k.alpha_g1.encoding() != g1_identity_encoding()
    &&& k.beta_g1.encoding() != g1_identity_encoding()
    &&& k.beta_g2.encoding() != g2_identity_encoding()
    &&& k.delta_g1.encoding() != g1_identity_encoding()
    &&& k.delta_g2.encoding() != g2_identity_encoding()
    &&& k.a_query.len() == k.variables
    &&& k.b_g1_query.len() == k.variables
    &&& k.b_g2_query.len() == k.variables
    &&& k.private_query.len() == k.variables - (k.public_inputs + 1)
    &&& k.h_query.len() == k.domain_size - 1
}

impl ProvingKey {
    /// The plain contents.
    pub closed spec fn view(&self) -> ProvingKeyView {
        ProvingKeyView {
            shape_digest: self.shape_digest@,
            variables: self.variables as nat,
            public_inputs: self.public_inputs as nat,
            domain_size: self.domain_size as nat,
            alpha_g1: self.alpha_g1,
            beta_g1: self.beta_g1,
            beta_g2: self.beta_g2,
            delta_g1: self.delta_g1,
            delta_g2: self.delta_g2,
            a_query: self.a_query@,
            b_g1_query: self.b_g1_query@,
            b_g2_query: self.b_g2_query@,
            private_query: self.private_query@,
            h_query: self.h_query@,
        }
    }

    /// The view lists the fields.
    pub(crate) proof fn lemma_view(&self)
        ensures
            self.view() == (ProvingKeyView {
                shape_digest: self.shape_digest@,
                variables: self.variables as nat,
                public_inputs: self.public_inputs as nat,
                domain_size: self.domain_size as nat,
                alpha_g1: self.alpha_g1,
                beta_g1: self.beta_g1,
                beta_g2: self.beta_g2,
                delta_g1: self.delta_g1,
                delta_g2: self.delta_g2,
                a_query: self.a_query@,
                b_g1_query: self.b_g1_query@,
                b_g2_query: self.b_g2_query@,
                private_query: self.private_query@,
                h_query: self.h_query@,
            }),
    {
    }

    /// Digest of the R1CS shape bound by this key.
    pub fn shape_digest(&self) -> (r: &[u8; 32])
        ensures
            r@ == self.view().shape_digest,
    {
        &self.shape_digest
    }

    /// Number of public inputs expected by this key.
    pub fn public_inputs(&self) -> (r: usize)
        ensures
            r == self.view().public_inputs,
    {
        self.public_inputs
    }

    /// Serialize this key using the versioned canonical key format. Every
    /// point of the key decodes, so the encoding of a key that meets
    /// [`proving_key_valid`] is accepted by [`ProvingKey::try_from_bytes`].
    pub fn to_bytes(&self) -> (r: Vec<u8>)
        ensures
            r@ == proving_key_encoding(self.view()),
            proving_key_points_decode(self.view()),
            proving_key_valid(self.view()) ==> proving_key_decodes(r@),
    {
        let mut bytes: Vec<u8> = Vec::new();
        write_header(&mut bytes, PROVING_KEY_KIND);
        let mut i: usize = 0;
        while i < 32
            invariant
                i <= 32,
                bytes@ == header_encoding(1) + self.shape_digest@.subrange(0, i as int),
            decreases 32 - i,
        {
            bytes.push(self.shape_digest[i]);
            i = i + 1;
            assert(bytes@ =~= header_encoding(1) + self.shape_digest@.subrange(0, i as int));
        }
        assert(self.shape_digest@.subrange(0, 32) =~= self.shape_digest@);
        write_usize(&mut bytes, self.variables);
        write_usize(&mut bytes, self.public_inputs);
        write_usize(&mut bytes, self.domain_size);
        write_g1(&mut bytes, &self.alpha_g1);
        write_g1(&mut bytes, &self.beta_g1);
        write_g2(&mut bytes, &self.beta_g2);
        write_g1(&mut bytes, &self.delta_g1);
        write_g2(&mut bytes, &self.delta_g2);
        write_g1_vec(&mut bytes, self.a_query.as_slice());
        write_g1_vec(&mut bytes, self.b_g1_query.as_slice());
        write_g2_vec(&mut bytes, self.b_g2_query.as_slice());
        write_g1_vec(&mut bytes, self.private_query.as_slice());
        write_g1_vec(&mut bytes, self.h_query.as_slice());
        proof {
            self.lemma_view();
            if proving_key_valid(self.view()) {
                lemma_proving_key_round_trip(self.view());
            }
        }
        bytes
    }

    /// Decode and validate a key produced by [`ProvingKey::to_bytes`]: a key
    /// is returned only when the bytes are exactly its encoding and it meets
    /// [`proving_key_valid`]; any other input is `InvalidEncoding`.
    #[verifier::spinoff_prover]
    #[verifier::rlimit(60)]
    pub fn try_from_bytes(bytes: &[u8]) -> (r: Result<ProvingKey, Error>)
        ensures
            r matches Ok(k) ==> proving_key_encoding(k.view()) == bytes@ && proving_key_valid(k.view()),
            r is Err ==> r == Err::<ProvingKey, Error>(Error::InvalidEncoding),
            r is Ok <==> proving_key_decodes(bytes@),
            forall|k: ProvingKeyView|
                proving_key_decodable(k) && #[trigger] proving_key_encoding(k) == bytes@ ==> (r matches Ok(
                    d,
                ) && d.view() == k),
    {
        let ghost data = bytes@;
        let ghost accepted = proving_key_decodes(data);
        let ghost k = choose|k: ProvingKeyView| proving_key_decodable(k)
            && proving_key_encoding(k) == data;
        proof {
            if accepted {
                lemma_proving_key_layout(k, data);
            }
        }
        let mut reader = Reader::new(bytes);
        reader.header(PROVING_KEY_KIND)?;
        let digest_bytes = reader.array(32)?;
        let mut shape_digest = [0u8; 32];
        let mut i: usize = 0;
        while i < 32
            invariant
                i <= 32,
                digest_bytes@.len() == 32,
                forall|t: int| 0 <= t < i ==> shape_digest@[t] == digest_bytes@[t],
            decreases 32 - i,
        {
            shape_digest.set(i, digest_bytes[i]);
            i = i + 1;
        }
        assert(shape_digest@ =~= digest_bytes@);
        let ghost p0 = reader.position();
        let variables = reader.usize()?;
        let public_inputs = reader.usize()?;
        let domain_size = reader.usize()?;
        let ghost p1 = reader.position();
        let alpha_g1 = reader.g1()?;
        let beta_g1 = reader.g1()?;
        let beta_g2 = reader.g2()?;
        let delta_g1 = reader.g1()?;
        let delta_g2 = reader.g2()?;
        let ghost p2 = reader.position();
        let a_query = reader.g1_vec()?;
        let ghost p3 = reader.position();
        proof {
            reader.lemma_position_within();
            assert(a_query@.len() == a_query.len());
            if accepted {
                lemma_same_g1_list(data, p2, a_query@, k.a_query);
                assert(p3 == p2 + g1_list_encoding(k.a_query).len());
            }
        }
        let b_g1_query = reader.g1_vec()?;
        let ghost p4 = reader.position();
        proof {
            reader.lemma_position_within();
            assert(b_g1_query@.len() == b_g1_query.len());
            if accepted {
                lemma_same_g1_list(data, p3, b_g1_query@, k.b_g1_query);
            }
        }
        let b_g2_query = reader.g2_vec()?;
        let ghost p5 = reader.position();
        proof {
            reader.lemma_position_within();
            assert(b_g2_query@.len() == b_g2_query.len());
            if accepted {
                lemma_same_g2_list(data, p4, b_g2_query@, k.b_g2_query);
            }
        }
        let private_query = reader.g1_vec()?;
        let ghost p6 = reader.position();
        proof {
            reader.lemma_position_within();
            assert(private_query@.len() == private_query.len());
            if accepted {
                lemma_same_g1_list(data, p5, private_query@, k.private_query);
            }
        }
        let h_query = reader.g1_vec()?;
        let ghost p7 = reader.position();
        proof {
            reader.lemma_position_within();
            assert(h_query@.len() == h_query.len());
            if accepted {
                lemma_same_g1_list(data, p6, h_query@, k.h_query);
            }
        }
        reader.finish()?;
        if public_inputs == usize::MAX || variables < public_inputs + 1 {
            return Err(Error::InvalidEncoding);
        }
        let private_variables = variables - (public_inputs + 1);
        if domain_size == 0 || !power_of_two(domain_size) || g1_is_identity(&alpha_g1)
            || g1_is_identity(&beta_g1) || g2_is_identity(&beta_g2) || g1_is_identity(&delta_g1)
            || g2_is_identity(&delta_g2) || a_query.len() != variables || b_g1_query.len()
            != variables || b_g2_query.len() != variables || private_query.len()
            != private_variables || h_query.len() != domain_size - 1 {
            return Err(Error::InvalidEncoding);
        }
        let key = ProvingKey {
            shape_digest,
            variables,
            public_inputs,
            domain_size,
            alpha_g1,
            beta_g1,
            beta_g2,
            delta_g1,
            delta_g2,
            a_query,
            b_g1_query,
            b_g2_query,
            private_query,
            h_query,
        };
        proof {
            super::codec::lemma_le64_of_value(data.subrange(p0, p0 + 8));
            super::codec::lemma_le64_of_value(data.subrange(p0 + 8, p0 + 16));
            super::codec::lemma_le64_of_value(data.subrange(p0 + 16, p0 + 24));
            assert(data.subrange(0, p7) =~= data);
            assert(proving_key_encoding(key.view()) =~= data);
            assert(proving_key_decodable(key.view()));
            assert forall|k: ProvingKeyView|
                proving_key_decodable(k) && #[trigger] proving_key_encoding(k) == bytes@ implies key.view()
                == k by {
                lemma_proving_key_encoding_injective(key.view(), k);
            }
        }
        Ok(key)
    }
}

/// Circuit-specific Groth16 verification key.
#[derive(Debug, Clone, PartialEq, Eq)]
pub struct VerifyingKey {
    pub(crate) alpha_g1: G1Point,
    pub(crate) beta_g2: G2Point,
    pub(crate) gamma_g2: G2Point,
    pub(crate) delta_g2: G2Point,
    pub(crate) public_query: Vec<G1Point>,
}

/// The plain contents of a verification key.
pub struct VerifyingKeyView {
    /// `α·G1`.
    pub alpha_g1: G1Point,
    /// `β·G2`.
    pub beta_g2: G2Point,
    /// `γ·G2`.
    pub gamma_g2: G2Point,
    /// `δ·G2`.
    pub delta_g2: G2Point,
    /// Public-input query, the constant-one entry first.
    pub public_query: Seq<G1Point>,
}

/// The canonical encoding of a verification key: header, the four fixed
/// points, then the length-prefixed public-input query.
pub open spec fn verifying_key_encoding(k: VerifyingKeyView) -> Seq<u8> {
    header_encoding(2) + k.alpha_g1.encoding() + k.beta_g2.encoding() + k.gamma_g2.encoding()
        + k.delta_g2.encoding() + g1_list_encoding(k.public_query)
}

/// The structural conditions a decoded verification key meets: a nonempty
/// public query and no fixed point at the identity.
pub open spec fn verifying_key_valid(k: VerifyingKeyView) -> bool {
    &&& k.public_query.len() > 0
    &&& k.alpha_g1.encoding() != g1_identity_encoding()
    &&& k.beta_g2.encoding() != g2_identity_encoding()
    &&& k.gamma_g2.encoding() != g2_identity_encoding()
    &&& k.delta_g2.encoding() != g2_identity_encoding()
}

impl VerifyingKey {
    /// The plain contents.
    pub closed spec fn view(&self) -> VerifyingKeyView {
        VerifyingKeyView {
            alpha_g1: self.alpha_g1,
            beta_g2: self.beta_g2,
            gamma_g2: self.gamma_g2,
            delta_g2: self.delta_g2,
            public_query: self.public_query@,
        }
    }

    /// The view lists the fields.
    pub(crate) proof fn lemma_view(&self)
        ensures
            self.view() == (VerifyingKeyView {
                alpha_g1: self.alpha_g1,
                beta_g2: self.beta_g2,
                gamma_g2: self.gamma_g2,
                delta_g2: self.delta_g2,
                public_query: self.public_query@,
            }),
    {
    }

    /// Number of public inputs expected by this key: the query length less
    /// the constant-one entry, and zero for an empty query.
    pub fn public_inputs(&self) -> (r: usize)
        ensures
            r == (if self.view().public_query.len() == 0 {
                0
            } else {
                self.view().public_query.len() - 1
            }),
    {
        self.public_query.len().saturating_sub(1)
    }

    /// Public-input query, including the constant-one entry at index zero.
    pub fn public_query(&self) -> (r: &[G1Point])
        ensures
            r@ == self.view().public_query,
    {
        self.public_query.as_slice()
    }

    /// The key in the form used for verification. The pairing terms are
    /// chosen at each verification, so the prepared key carries this key
    /// unchanged.
    pub fn prepare(&self) -> (r: PreparedVerifyingKey)
        ensures
            r.key_view() == self.view(),
    {
        let mut public_query: Vec<G1Point> = Vec::new();
        let mut i: usize = 0;
        while i < self.public_query.len()
            invariant
                i <= self.public_query@.len(),
                public_query@ == self.public_query@.subrange(0, i as int),
            decreases self.public_query@.len() - i,
        {
            public_query.push(self.public_query[i]);
            i = i + 1;
            assert(public_query@ =~= self.public_query@.subrange(0, i as int));
        }
        assert(public_query@ =~= self.public_query@);
        let key = VerifyingKey {
            alpha_g1: self.alpha_g1,
            beta_g2: self.beta_g2,
            gamma_g2: self.gamma_g2,
            delta_g2: self.delta_g2,
            public_query,
        };
        proof {
            key.lemma_view();
            self.lemma_view();
        }
        PreparedVerifyingKey { key }
    }

    /// Serialize this key using the versioned canonical key format.
    /// Every point of the key decodes, so the encoding of a key that meets
    /// [`verifying_key_valid`] is accepted by [`VerifyingKey::try_from_bytes`].
    pub fn to_bytes(&self) -> (r: Vec<u8>)
        ensures
            r@ == verifying_key_encoding(self.view()),
            verifying_key_points_decode(self.view()),
            verifying_key_valid(self.view()) ==> verifying_key_decodes(r@),
    {
        let mut bytes: Vec<u8> = Vec::new();
        write_header(&mut bytes, VERIFYING_KEY_KIND);
        write_g1(&mut bytes, &self.alpha_g1);
        write_g2(&mut bytes, &self.beta_g2);
        write_g2(&mut bytes, &self.gamma_g2);
        write_g2(&mut bytes, &self.delta_g2);
        write_g1_vec(&mut bytes, self.public_query.as_slice());
        let query_length: usize = self.public_query.len();
        proof {
            self.lemma_view();
            assert(self.view().public_query.len() == query_length);
            if verifying_key_valid(self.view()) {
                lemma_verifying_key_round_trip(self.view());
            }
        }
        bytes
    }

    /// Decode and validate a key produced by [`VerifyingKey::to_bytes`]: a
    /// key is returned exactly when the bytes are the encoding of a key that
    /// meets [`verifying_key_valid`] and whose points decode; any other input
    /// is `InvalidEncoding`.
    pub fn try_from_bytes(bytes: &[u8]) -> (r: Result<VerifyingKey, Error>)
        ensures
            r matches Ok(k) ==> verifying_key_encoding(k.view()) == bytes@ && verifying_key_valid(
                k.view(),
            ),
            r is Err ==> r == Err::<VerifyingKey, Error>(Error::InvalidEncoding),
            r is Ok <==> verifying_key_decodes(bytes@),
            forall|k: VerifyingKeyView|
                verifying_key_decodable(k) && #[trigger] verifying_key_encoding(k) == bytes@ ==> (r matches Ok(
                    d,
                ) && d.view() == k),
    {
        let ghost data = bytes@;
        let ghost accepted = verifying_key_decodes(data);
        let ghost k = choose|k: VerifyingKeyView| verifying_key_decodable(k)
            && verifying_key_encoding(k) == data;
        proof {
            if accepted {
                lemma_verifying_key_layout(k, data);
            }
        }
        let mut reader = Reader::new(bytes);
        match reader.header(VERIFYING_KEY_KIND) {
            Ok(()) => {},
            Err(e) => {
                return Err(e);
            },
        }
        let alpha_g1 = match reader.g1() {
            Ok(p) => p,
            Err(e) => {
                return Err(e);
            },
        };
        let beta_g2 = match reader.g2() {
            Ok(p) => p,
            Err(e) => {
                return Err(e);
            },
        };
        let gamma_g2 = match reader.g2() {
            Ok(p) => p,
            Err(e) => {
                return Err(e);
            },
        };
        let delta_g2 = match reader.g2() {
            Ok(p) => p,
            Err(e) => {
                return Err(e);
            },
        };
        proof {
            if accepted {
                assert(g1_list_fits(data, 346, k.public_query));
            }
        }
        let public_query = match reader.g1_vec() {
            Ok(p) => p,
            Err(e) => {
                return Err(e);
            },
        };
        let ghost end = reader.position();
        proof {
            reader.lemma_position_within();
            assert(public_query@.len() == public_query.len());
            if accepted {
                lemma_same_g1_list(data, 346, public_query@, k.public_query);
            }
        }
        match reader.finish() {
            Ok(()) => {},
            Err(e) => {
                return Err(e);
            },
        }
        if public_query.len() == 0 || g1_is_identity(&alpha_g1) || g2_is_identity(&beta_g2)
            || g2_is_identity(&gamma_g2) || g2_is_identity(&delta_g2) {
            return Err(Error::InvalidEncoding);
        }
        let key = VerifyingKey { alpha_g1, beta_g2, gamma_g2, delta_g2, public_query };
        proof {
            assert(data.subrange(0, end) =~= data);
            assert(verifying_key_encoding(key.view()) =~= data);
            assert(verifying_key_decodable(key.view()));
            assert forall|k: VerifyingKeyView|
                verifying_key_decodable(k) && #[trigger] verifying_key_encoding(k) == bytes@ implies key.view()
                == k by {
                lemma_verifying_key_encoding_injective(key.view(), k);
            }
        }
        Ok(key)
    }
}

/// Every point of a verification key decodes.
pub open spec fn verifying_key_points_decode(k: VerifyingKeyView) -> bool {
    &&& g1_decodes(k.alpha_g1.encoding())
    &&& g2_decodes(k.beta_g2.encoding())
    &&& g2_decodes(k.gamma_g2.encoding())
    &&& g2_decodes(k.delta_g2.encoding())
    &&& g1_all_decode(k.public_query)
}

/// A verification key that decoding reproduces: valid, with decodable
/// points and a query length that fits in `usize`.
pub open spec fn verifying_key_decodable(k: VerifyingKeyView) -> bool {
    &&& verifying_key_valid(k)
    &&& verifying_key_points_decode(k)
    &&& k.public_query.len() <= usize::MAX
}

/// The bytes are the encoding of a decodable verification key.
pub open spec fn verifying_key_decodes(bytes: Seq<u8>) -> bool {
    exists|k: VerifyingKeyView| verifying_key_decodable(k) && verifying_key_encoding(k) == bytes
}

/// The parts of a verification key's encoding, at their offsets.
proof fn lemma_verifying_key_layout(k: VerifyingKeyView, data: Seq<u8>)
    requires
        verifying_key_encoding(k) == data,
        verifying_key_decodable(k),
    ensures
        data.subrange(0, 10) == header_encoding(2),
        data.subrange(10, 58) == k.alpha_g1.encoding(),
        data.subrange(58, 154) == k.beta_g2.encoding(),
        data.subrange(154, 250) == k.gamma_g2.encoding(),
        data.subrange(250, 346) == k.delta_g2.encoding(),
        data.subrange(346, data.len() as int) == g1_list_encoding(k.public_query),
        g1_list_fits(data, 346, k.public_query),
{
    lemma_g1_points_encoding_length(k.public_query);
    assert(header_encoding(2).len() == 10);
    assert(data.subrange(0, 10) =~= header_encoding(2));
    assert(data.subrange(10, 58) =~= k.alpha_g1.encoding());
    assert(data.subrange(58, 154) =~= k.beta_g2.encoding());
    assert(data.subrange(154, 250) =~= k.gamma_g2.encoding());
    assert(data.subrange(250, 346) =~= k.delta_g2.encoding());
    assert(data.subrange(346, data.len() as int) =~= g1_list_encoding(k.public_query));
}

/// Every point of a proving key decodes.
pub open spec fn proving_key_points_decode(k: ProvingKeyView) -> bool {
    &&& g1_decodes(k.alpha_g1.encoding())
    &&& g1_decodes(k.beta_g1.encoding())
    &&& g2_decodes(k.beta_g2.encoding())
    &&& g1_decodes(k.delta_g1.encoding())
    &&& g2_decodes(k.delta_g2.encoding())
    &&& g1_all_decode(k.a_query)
    &&& g1_all_decode(k.b_g1_query)
    &&& g2_all_decode(k.b_g2_query)
    &&& g1_all_decode(k.private_query)
    &&& g1_all_decode(k.h_query)
}

/// A proving key that decoding reproduces: valid, with decodable points,
/// a 32-byte digest, and counts that fit in `usize`.
pub open spec fn proving_key_decodable(k: ProvingKeyView) -> bool {
    &&& proving_key_valid(k)
    &&& proving_key_points_decode(k)
    &&& k.shape_digest.len() == 32
    &&& k.variables <= usize::MAX
    &&& k.domain_size <= usize::MAX
}

/// The bytes are the encoding of a decodable proving key.
pub open spec fn proving_key_decodes(bytes: Seq<u8>) -> bool {
    exists|k: ProvingKeyView| proving_key_decodable(k) && proving_key_encoding(k) == bytes
}

/// Decoding accepts the encoding of every decodable proving key:
/// [`ProvingKey::try_from_bytes`] of [`ProvingKey::to_bytes`] succeeds, and
/// what it returns encodes to the same bytes.
pub proof fn lemma_proving_key_round_trip(k: ProvingKeyView)
    requires
        proving_key_decodable(k),
    ensures
        proving_key_decodes(proving_key_encoding(k)),
{
}

/// Decoding accepts the encoding of every decodable verification key:
/// [`VerifyingKey::try_from_bytes`] of [`VerifyingKey::to_bytes`]
/// succeeds, and what it returns encodes to the same bytes.
pub proof fn lemma_verifying_key_round_trip(k: VerifyingKeyView)
    requires
        verifying_key_decodable(k),
    ensures
        verifying_key_decodes(verifying_key_encoding(k)),
{
}

/// The encoding determines the key: two decodable proving keys with the
/// same encoding have the same digest and counts, and the same encoding of
/// every fixed point and query.
pub proof fn lemma_proving_key_encoding_determines(k1: ProvingKeyView, k2: ProvingKeyView)
    requires
        proving_key_decodable(k1),
        proving_key_decodable(k2),
        proving_key_encoding(k1) == proving_key_encoding(k2),
    ensures
        k1.shape_digest == k2.shape_digest,
        k1.variables == k2.variables,
        k1.public_inputs == k2.public_inputs,
        k1.domain_size == k2.domain_size,
        k1.alpha_g1.encoding() == k2.alpha_g1.encoding(),
        k1.beta_g1.encoding() == k2.beta_g1.encoding(),
        k1.beta_g2.encoding() == k2.beta_g2.encoding(),
        k1.delta_g1.encoding() == k2.delta_g1.encoding(),
        k1.delta_g2.encoding() == k2.delta_g2.encoding(),
        g1_list_encoding(k1.a_query) == g1_list_encoding(k2.a_query),
        g1_list_encoding(k1.b_g1_query) == g1_list_encoding(k2.b_g1_query),
        g2_list_encoding(k1.b_g2_query) == g2_list_encoding(k2.b_g2_query),
        g1_list_encoding(k1.private_query) == g1_list_encoding(k2.private_query),
        g1_list_encoding(k1.h_query) == g1_list_encoding(k2.h_query),
{
    let data = proving_key_encoding(k1);
    lemma_proving_key_layout(k1, data);
    lemma_proving_key_layout(k2, data);
    lemma_g1_points_encoding_length(k1.a_query);
    lemma_g1_points_encoding_length(k2.a_query);
    lemma_same_g1_list(data, 402, k1.a_query, k2.a_query);
    let p3 = 402int + g1_list_encoding(k1.a_query).len();
    lemma_g1_points_encoding_length(k1.b_g1_query);
    lemma_same_g1_list(data, p3, k1.b_g1_query, k2.b_g1_query);
    let p4 = p3 + g1_list_encoding(k1.b_g1_query).len();
    lemma_g2_points_encoding_length(k1.b_g2_query);
    lemma_same_g2_list(data, p4, k1.b_g2_query, k2.b_g2_query);
    let p5 = p4 + g2_list_encoding(k1.b_g2_query).len();
    lemma_g1_points_encoding_length(k1.private_query);
    lemma_same_g1_list(data, p5, k1.private_query, k2.private_query);
    let p6 = p5 + g1_list_encoding(k1.private_query).len();
    lemma_g1_points_encoding_length(k1.h_query);
    lemma_same_g1_list(data, p6, k1.h_query, k2.h_query);
}

/// The parts of a proving key's encoding, at their offsets.
#[verifier::spinoff_prover]
#[verifier::rlimit(40)]
proof fn lemma_proving_key_layout(k: ProvingKeyView, data: Seq<u8>)
    requires
        proving_key_encoding(k) == data,
        proving_key_decodable(k),
    ensures
        data.subrange(0, 10) == header_encoding(1),
        data.subrange(10, 42) == k.shape_digest,
        data.subrange(42, 50) == le64(k.variables),
        data.subrange(50, 58) == le64(k.public_inputs),
        data.subrange(58, 66) == le64(k.domain_size),
        data.subrange(66, 114) == k.alpha_g1.encoding(),
        data.subrange(114, 162) == k.beta_g1.encoding(),
        data.subrange(162, 258) == k.beta_g2.encoding(),
        data.subrange(258, 306) == k.delta_g1.encoding(),
        data.subrange(306, 402) == k.delta_g2.encoding(),
        g1_list_fits(data, 402, k.a_query),
        g1_list_fits(data, 402int + g1_list_encoding(k.a_query).len(), k.b_g1_query),
        g2_list_fits(
            data,
            402int + g1_list_encoding(k.a_query).len() + g1_list_encoding(k.b_g1_query).len(),
            k.b_g2_query,
        ),
        g1_list_fits(
            data,
            402int + g1_list_encoding(k.a_query).len() + g1_list_encoding(k.b_g1_query).len()
                + g2_list_encoding(k.b_g2_query).len(),
            k.private_query,
        ),
        g1_list_fits(
            data,
            402int + g1_list_encoding(k.a_query).len() + g1_list_encoding(k.b_g1_query).len()
                + g2_list_encoding(k.b_g2_query).len() + g1_list_encoding(k.private_query).len(),
            k.h_query,
        ),
        402 + g1_list_encoding(k.a_query).len() + g1_list_encoding(k.b_g1_query).len()
            + g2_list_encoding(k.b_g2_query).len() + g1_list_encoding(k.private_query).len()
            + g1_list_encoding(k.h_query).len() == data.len(),
        le_bytes_value(data.subrange(42, 50)) == k.variables,
        le_bytes_value(data.subrange(50, 58)) == k.public_inputs,
        le_bytes_value(data.subrange(58, 66)) == k.domain_size,
{
    lemma_g1_points_encoding_length(k.a_query);
    lemma_g1_points_encoding_length(k.b_g1_query);
    lemma_g2_points_encoding_length(k.b_g2_query);
    lemma_g1_points_encoding_length(k.private_query);
    lemma_g1_points_encoding_length(k.h_query);
    lemma_le_encode_length(k.variables, 8);
    lemma_le_encode_length(k.public_inputs, 8);
    lemma_le_encode_length(k.domain_size, 8);
    lemma_usize_fits_le64(k.variables);
    lemma_usize_fits_le64(k.public_inputs);
    lemma_usize_fits_le64(k.domain_size);
    crate::scalar::lemma_le_encode_value(k.variables, 8);
    crate::scalar::lemma_le_encode_value(k.public_inputs, 8);
    crate::scalar::lemma_le_encode_value(k.domain_size, 8);
    let la = g1_list_encoding(k.a_query).len() as int;
    let lb = g1_list_encoding(k.b_g1_query).len() as int;
    let lc = g2_list_encoding(k.b_g2_query).len() as int;
    let ld = g1_list_encoding(k.private_query).len() as int;
    let le = g1_list_encoding(k.h_query).len() as int;
    assert(data.subrange(0, 10) =~= header_encoding(1));
    assert(data.subrange(10, 42) =~= k.shape_digest);
    assert(data.subrange(42, 50) =~= le64(k.variables));
    assert(data.subrange(50, 58) =~= le64(k.public_inputs));
    assert(data.subrange(58, 66) =~= le64(k.domain_size));
    assert(data.subrange(66, 114) =~= k.alpha_g1.encoding());
    assert(data.subrange(114, 162) =~= k.beta_g1.encoding());
    assert(data.subrange(162, 258) =~= k.beta_g2.encoding());
    assert(data.subrange(258, 306) =~= k.delta_g1.encoding());
    assert(data.subrange(306, 402) =~= k.delta_g2.encoding());
    assert(data.subrange(402, 402 + la) =~= g1_list_encoding(k.a_query));
    assert(data.subrange(402 + la, 402 + la + lb) =~= g1_list_encoding(k.b_g1_query));
    assert(data.subrange(402 + la + lb, 402 + la + lb + lc) =~= g2_list_encoding(k.b_g2_query));
    assert(data.subrange(402 + la + lb + lc, 402 + la + lb + lc + ld) =~= g1_list_encoding(
        k.private_query,
    ));
    assert(data.subrange(402 + la + lb + lc + ld, 402 + la + lb + lc + ld + le) =~= g1_list_encoding(
        k.h_query,
    ));
}

/// Two lists read back from the same position of the same bytes, one by
/// the reader and one known to be there, are the same list of encodings.
proof fn lemma_same_g2_list(data: Seq<u8>, pos: int, read: Seq<G2Point>, known: Seq<G2Point>)
    requires
        g2_list_fits(data, pos, known),
        read.len() <= usize::MAX,
        0 <= pos,
        pos + g2_list_encoding(read).len() <= data.len(),
        data.subrange(pos, pos + g2_list_encoding(read).len()) == g2_list_encoding(read),
    ensures
        read.len() == known.len(),
        g2_list_encoding(read) == g2_list_encoding(known),
{
    lemma_g2_points_encoding_length(read);
    lemma_g2_points_encoding_length(known);
    lemma_le_encode_length(read.len(), 8);
    lemma_le_encode_length(known.len(), 8);
    assert(data.subrange(pos, pos + 8) =~= g2_list_encoding(read).subrange(0, 8));
    assert(data.subrange(pos, pos + 8) =~= g2_list_encoding(known).subrange(0, 8));
    assert(g2_list_encoding(read).subrange(0, 8) =~= le64(read.len()));
    assert(g2_list_encoding(known).subrange(0, 8) =~= le64(known.len()));
    lemma_usize_fits_le64(known.len());
    crate::scalar::lemma_le_encode_value(known.len(), 8);
    lemma_usize_fits_le64(read.len());
    crate::scalar::lemma_le_encode_value(read.len(), 8);
    assert(read.len() == known.len());
}

/// Two lists read back from the same position of the same bytes, one by
/// the reader and one known to be there, are the same list of encodings.
proof fn lemma_same_g1_list(data: Seq<u8>, pos: int, read: Seq<G1Point>, known: Seq<G1Point>)
    requires
        g1_list_fits(data, pos, known),
        read.len() <= usize::MAX,
        0 <= pos,
        pos + g1_list_encoding(read).len() <= data.len(),
        data.subrange(pos, pos + g1_list_encoding(read).len()) == g1_list_encoding(read),
    ensures
        read.len() == known.len(),
        g1_list_encoding(read) == g1_list_encoding(known),
{
    lemma_g1_points_encoding_length(read);
    lemma_g1_points_encoding_length(known);
    lemma_le_encode_length(read.len(), 8);
    lemma_le_encode_length(known.len(), 8);
    assert(data.subrange(pos, pos + 8) =~= g1_list_encoding(read).subrange(0, 8));
    assert(data.subrange(pos, pos + 8) =~= g1_list_encoding(known).subrange(0, 8));
    assert(g1_list_encoding(read).subrange(0, 8) =~= le64(read.len()));
    assert(g1_list_encoding(known).subrange(0, 8) =~= le64(known.len()));
    lemma_usize_fits_le64(known.len());
    crate::scalar::lemma_le_encode_value(known.len(), 8);
    lemma_usize_fits_le64(read.len());
    crate::scalar::lemma_le_encode_value(read.len(), 8);
    assert(read.len() == known.len());
}

/// A verification key in the form used for verification.
#[derive(Clone, Debug)]
pub struct PreparedVerifyingKey {
    pub(crate) key: VerifyingKey,
}

impl PreparedVerifyingKey {
    /// The plain contents of the underlying key.
    pub closed spec fn key_view(&self) -> VerifyingKeyView {
        self.key.view()
    }

    /// The key view is the underlying key's view.
    pub(crate) proof fn lemma_key_view(&self)
        ensures
            self.key_view() == self.key.view(),
    {
    }

    /// Access the underlying canonical verification key.
    pub fn key(&self) -> (r: &VerifyingKey)
        ensures
            r.view() == self.key_view(),
    {
        &self.key
    }
}


/// Two decodable proving keys with the same encoding are the same key, so
/// [`ProvingKey::try_from_bytes`] of [`ProvingKey::to_bytes`] gives back the
/// key that was encoded.
pub proof fn lemma_proving_key_encoding_injective(k1: ProvingKeyView, k2: ProvingKeyView)
    requires
        proving_key_decodable(k1),
        proving_key_decodable(k2),
        proving_key_encoding(k1) == proving_key_encoding(k2),
    ensures
        k1 == k2,
{
    lemma_proving_key_encoding_determines(k1, k2);
    G1Point::lemma_encoding_determines(k1.alpha_g1, k2.alpha_g1);
    G1Point::lemma_encoding_determines(k1.beta_g1, k2.beta_g1);
    G2Point::lemma_encoding_determines(k1.beta_g2, k2.beta_g2);
    G1Point::lemma_encoding_determines(k1.delta_g1, k2.delta_g1);
    G2Point::lemma_encoding_determines(k1.delta_g2, k2.delta_g2);
    lemma_g1_list_injective(k1.a_query, k2.a_query);
    lemma_g1_list_injective(k1.b_g1_query, k2.b_g1_query);
    lemma_g2_list_injective(k1.b_g2_query, k2.b_g2_query);
    lemma_g1_list_injective(k1.private_query, k2.private_query);
    lemma_g1_list_injective(k1.h_query, k2.h_query);
}

/// Two decodable verification keys with the same encoding are the same key,
/// so [`VerifyingKey::try_from_bytes`] of [`VerifyingKey::to_bytes`] gives
/// back the key that was encoded.
pub proof fn lemma_verifying_key_encoding_injective(k1: VerifyingKeyView, k2: VerifyingKeyView)
    requires
        verifying_key_decodable(k1),
        verifying_key_decodable(k2),
        verifying_key_encoding(k1) == verifying_key_encoding(k2),
    ensures
        k1 == k2,
{
    let data = verifying_key_encoding(k1);
    lemma_verifying_key_layout(k1, data);
    lemma_verifying_key_layout(k2, data);
    G1Point::lemma_encoding_determines(k1.alpha_g1, k2.alpha_g1);
    G2Point::lemma_encoding_determines(k1.beta_g2, k2.beta_g2);
    G2Point::lemma_encoding_determines(k1.gamma_g2, k2.gamma_g2);
    G2Point::lemma_encoding_determines(k1.delta_g2, k2.delta_g2);
    lemma_g1_list_injective(k1.public_query, k2.public_query);
}

} // verus!
