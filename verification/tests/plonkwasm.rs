use zk_tools::plonkwasm::wasm::{decode_hex, decode_seed, encode_hex};
use zk_tools::plonkwasm::{deserialize_public_inputs, serialize_public_inputs};
use zk_tools::scalar::Scalar;

#[test]
fn hex_encoding_is_lower_case_two_digits_per_byte() {
    assert_eq!(encode_hex(&[0x00, 0x0f, 0xa5, 0xff]), "000fa5ff");
    assert_eq!(encode_hex(&[]), "");
}

#[test]
fn hex_decoding_undoes_encoding() {
    let bytes: Vec<u8> = (0u8..=255).collect();
    let text = encode_hex(&bytes);
    assert_eq!(decode_hex(&text), Ok(bytes));
}

#[test]
fn hex_decoding_accepts_a_prefix_and_either_case() {
    assert_eq!(decode_hex("0xABcd"), Ok(vec![0xab, 0xcd]));
    assert_eq!(decode_hex("0x"), Ok(vec![]));
}

#[test]
fn hex_decoding_reports_odd_length_and_bad_digits() {
    assert_eq!(decode_hex("abc"), Err(String::from("hex string must have even length")));
    assert_eq!(decode_hex("0g"), Err(String::from("invalid hex character: g")));
}

#[test]
fn seeds_must_have_thirty_two_bytes() {
    let seed = [7u8; 32];
    assert_eq!(decode_seed(&encode_hex(&seed)), Ok(seed));
    assert_eq!(decode_seed("0011"), Err(String::from("seed must be 32 bytes, got 2")));
}

#[test]
fn public_inputs_deserialize_what_serialization_wrote() {
    let values = vec![Scalar::from_u64(0), Scalar::from_u64(42), Scalar::from_u64(7).neg()];
    let bytes = serialize_public_inputs(&values);
    assert_eq!(bytes.len(), 96);
    assert_eq!(&bytes[32..40], &[42, 0, 0, 0, 0, 0, 0, 0]);
    assert_eq!(deserialize_public_inputs(&bytes), Ok(values));
}

#[test]
fn public_inputs_of_a_bad_length_or_encoding_are_refused() {
    assert_eq!(
        deserialize_public_inputs(&[0u8; 33]),
        Err(String::from("public inputs length must be a multiple of 32 bytes, got 33"))
    );
    assert_eq!(
        deserialize_public_inputs(&[0xffu8; 32]),
        Err(String::from("invalid public input scalar encoding"))
    );
}

#[test]
fn scalar_bytes_read_back_as_the_same_value() {
    let values = [Scalar::from_u64(0), Scalar::from_u64(1), Scalar::from_u64(5).neg()];
    for value in values {
        let bytes = value.to_bytes();
        assert_eq!(Scalar::from_bytes(&bytes), Some(value));
    }
    assert_eq!(Scalar::from_bytes(&[0xff; 32]), None);
}

#[test]
fn seed_decoding_passes_on_hex_errors() {
    assert_eq!(decode_seed(&"09".repeat(32)), Ok([9u8; 32]));
    assert_eq!(decode_seed("abcd"), Err(String::from("seed must be 32 bytes, got 2")));
    assert_eq!(decode_seed("0xzz"), Err(String::from("invalid hex character: z")));
    assert_eq!(decode_seed("zz"), Err(String::from("invalid hex character: z")));
    assert_eq!(decode_seed("123"), Err(String::from("hex string must have even length")));
}
