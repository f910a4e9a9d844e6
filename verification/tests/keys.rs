use dusk_bytes::Serializable;
use dusk_curves::bls12_381::{BlsScalar, G1Affine, G2Affine};
use sha2::{Digest, Sha256};
use zk_tools::groth16::error::Error;
use zk_tools::groth16::keys::{ProvingKey, VerifyingKey, VERIFYING_KEY_KIND};

fn g1(value: u64) -> Vec<u8> {
    G1Affine::from(G1Affine::generator() * BlsScalar::from(value)).to_bytes().to_vec()
}

fn g2(value: u64) -> Vec<u8> {
    G2Affine::from(G2Affine::generator() * BlsScalar::from(value)).to_bytes().to_vec()
}

fn header(kind: u8) -> Vec<u8> {
    let mut bytes = b"DUSKG16K".to_vec();
    bytes.push(1);
    bytes.push(kind);
    bytes
}

fn count(value: u64) -> Vec<u8> {
    value.to_le_bytes().to_vec()
}

fn list(points: &[Vec<u8>]) -> Vec<u8> {
    let mut bytes = count(points.len() as u64);
    for point in points {
        bytes.extend_from_slice(point);
    }
    bytes
}

/// The encoding of the proving key with digest `[7; 32]`, three variables,
/// one public input, a domain of two, and points `k·G` for small `k`.
fn proving_key_bytes() -> Vec<u8> {
    let mut bytes = header(1);
    bytes.extend_from_slice(&[7u8; 32]);
    bytes.extend(count(3));
    bytes.extend(count(1));
    bytes.extend(count(2));
    bytes.extend(g1(2));
    bytes.extend(g1(3));
    bytes.extend(g2(3));
    bytes.extend(g1(4));
    bytes.extend(g2(4));
    bytes.extend(list(&[g1(5), g1(6), g1(7)]));
    bytes.extend(list(&[g1(8), g1(9), g1(10)]));
    bytes.extend(list(&[g2(8), g2(9), g2(10)]));
    bytes.extend(list(&[g1(11)]));
    bytes.extend(list(&[g1(12)]));
    bytes
}

fn verifying_key_bytes(public_query: &[Vec<u8>]) -> Vec<u8> {
    let mut bytes = header(VERIFYING_KEY_KIND);
    bytes.extend(g1(2));
    bytes.extend(g2(3));
    bytes.extend(g2(4));
    bytes.extend(g2(5));
    bytes.extend(list(public_query));
    bytes
}

#[test]
fn proving_key_encoding_round_trip_and_rejections() {
    let bytes = proving_key_bytes();
    let key = ProvingKey::try_from_bytes(&bytes).unwrap();
    assert_eq!(key.to_bytes(), bytes);
    assert_eq!(ProvingKey::try_from_bytes(&key.to_bytes()).unwrap(), key);
    assert_eq!(
        <[u8; 32]>::from(Sha256::digest(&bytes)),
        [
            76, 141, 15, 48, 163, 67, 42, 114, 118, 170, 46, 187, 134, 50, 115, 194, 126, 152,
            141, 27, 247, 185, 51, 183, 180, 20, 107, 211, 230, 247, 21, 139,
        ]
    );

    let mut trailing = bytes.clone();
    trailing.push(0);
    assert_eq!(ProvingKey::try_from_bytes(&trailing), Err(Error::InvalidEncoding));
    assert_eq!(
        ProvingKey::try_from_bytes(&bytes[..bytes.len() - 1]),
        Err(Error::InvalidEncoding)
    );

    let mut wrong_version = bytes.clone();
    wrong_version[8] ^= 1;
    assert_eq!(ProvingKey::try_from_bytes(&wrong_version), Err(Error::InvalidEncoding));

    let mut wrong_kind = bytes.clone();
    wrong_kind[9] = VERIFYING_KEY_KIND;
    assert_eq!(ProvingKey::try_from_bytes(&wrong_kind), Err(Error::InvalidEncoding));

    let mut malformed_point = bytes.clone();
    malformed_point[66..66 + G1Affine::SIZE].fill(0);
    assert_eq!(ProvingKey::try_from_bytes(&malformed_point), Err(Error::InvalidEncoding));

    let mut identity_parameter = bytes.clone();
    identity_parameter[66..66 + G1Affine::SIZE].copy_from_slice(&G1Affine::identity().to_bytes());
    assert_eq!(ProvingKey::try_from_bytes(&identity_parameter), Err(Error::InvalidEncoding));

    let mut length_overflow = bytes;
    length_overflow[402..410].fill(0xff);
    assert_eq!(ProvingKey::try_from_bytes(&length_overflow), Err(Error::InvalidEncoding));
}

#[test]
fn verifying_key_encoding_round_trip_and_rejections() {
    let bytes = verifying_key_bytes(&[g1(6), g1(7)]);
    let key = VerifyingKey::try_from_bytes(&bytes).unwrap();
    assert_eq!(key.to_bytes(), bytes);
    assert_eq!(VerifyingKey::try_from_bytes(&key.to_bytes()).unwrap(), key);
    assert_eq!(
        <[u8; 32]>::from(Sha256::digest(&bytes)),
        [
            239, 42, 0, 51, 184, 105, 2, 88, 35, 59, 244, 251, 117, 4, 175, 230, 247, 214, 74,
            99, 102, 247, 184, 90, 177, 195, 215, 221, 105, 26, 187, 112,
        ]
    );

    let mut trailing = bytes.clone();
    trailing.push(0);
    assert_eq!(VerifyingKey::try_from_bytes(&trailing), Err(Error::InvalidEncoding));

    let mut identity_parameter = bytes.clone();
    identity_parameter[10..10 + G1Affine::SIZE].copy_from_slice(&G1Affine::identity().to_bytes());
    assert_eq!(VerifyingKey::try_from_bytes(&identity_parameter), Err(Error::InvalidEncoding));

    let empty_query = verifying_key_bytes(&[]);
    assert_eq!(VerifyingKey::try_from_bytes(&empty_query), Err(Error::InvalidEncoding));
}
