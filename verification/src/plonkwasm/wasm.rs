//! Hexadecimal transport helpers used by WebAssembly request handlers.

use vstd::prelude::*;

use crate::text::{decimal, push_char, with_decimal};
use vstd::string::StringSliceAdditionalSpecFns;

verus! {

/// Value of one hexadecimal digit byte (either case), if it is one.
pub open spec fn nibble_value(byte: u8) -> Option<u8> {
    if 48 <= byte <= 57 {
        Some((byte - 48) as u8)
    } else if 97 <= byte <= 102 {
        Some((byte - 87) as u8)
    } else if 65 <= byte <= 70 {
        Some((byte - 55) as u8)
    } else {
        None
    }
}

/// The digits of a hex string: its bytes without one leading `0x`.
pub open spec fn hex_digits(bytes: Seq<u8>) -> Seq<u8> {
    if bytes.len() >= 2 && bytes[0] == 48 && bytes[1] == 120 {
        bytes.skip(2)
    } else {
        bytes
    }
}

/// Every byte of `digits` is a hexadecimal digit.
pub open spec fn all_nibbles(digits: Seq<u8>) -> bool {
    forall|i: int| 0 <= i < digits.len() ==> #[trigger] nibble_value(digits[i]) is Some
}

/// The bytes denoted by pairs of hexadecimal digits, high digit first.
pub open spec fn hex_decoded(digits: Seq<u8>) -> Seq<u8> {
    Seq::new(
        digits.len() / 2,
        |i: int|
            (nibble_value(digits[2 * i])->0 * 16 + nibble_value(digits[2 * i + 1])->0) as u8,
    )
}

/// The message reporting a byte that is not a hexadecimal digit.
pub open spec fn invalid_character_message(byte: u8) -> Seq<char> {
    "invalid hex character: "@.push(byte as char)
}

/// `k` is the first position of `digits` that is not a hexadecimal digit.
pub open spec fn first_invalid(digits: Seq<u8>, k: int) -> bool {
    &&& 0 <= k < digits.len()
    &&& nibble_value(digits[k]) is None
    &&& forall|j: int| 0 <= j < k ==> #[trigger] nibble_value(digits[j]) is Some
}

/// The lower-case hexadecimal digit character for `n < 16`.
pub open spec fn hex_char(n: nat) -> char {
    if n < 10 {
        (48 + n) as char
    } else {
        (87 + n) as char
    }
}

/// Lower-case hexadecimal rendering, two characters per byte.
pub open spec fn hex_encoding(bytes: Seq<u8>) -> Seq<char>
    decreases bytes.len(),
{
    if bytes.len() == 0 {
        Seq::empty()
    } else {
        hex_encoding(bytes.drop_last()).push(hex_char(bytes.last() as nat / 16)).push(
            hex_char(bytes.last() as nat % 16),
        )
    }
}

/// The encoding has two characters per byte: the high and the low digit.
pub proof fn lemma_hex_encoding_digits(bytes: Seq<u8>)
    ensures
        hex_encoding(bytes).len() == 2 * bytes.len(),
        forall|i: int|
            0 <= i < bytes.len() ==> {
                &&& #[trigger] hex_encoding(bytes)[2 * i] == hex_char(bytes[i] as nat / 16)
                &&& hex_encoding(bytes)[2 * i + 1] == hex_char(bytes[i] as nat % 16)
            },
    decreases bytes.len(),
{
    if bytes.len() > 0 {
        lemma_hex_encoding_digits(bytes.drop_last());
    }
}

/// A digit character is ASCII, and reading it back as a byte gives its
/// value.
proof fn lemma_hex_char_value(n: nat)
    requires
        n < 16,
    ensures
        hex_char(n) as u32 <= 0x7f,
        nibble_value(hex_char(n) as u8) == Some(n as u8),
{
}

/// Decoding the hex encoding of `bytes` gives `bytes` back: a string whose
/// characters are `hex_encoding(bytes)` has an even number of digits, all of
/// them hexadecimal, which `decode_hex` decodes to `bytes`.
pub proof fn lemma_hex_round_trip(bytes: Seq<u8>, s: &str)
    requires
        s@ == hex_encoding(bytes),
    ensures
        hex_digits(s.spec_bytes()).len() % 2 == 0,
        all_nibbles(hex_digits(s.spec_bytes())),
        hex_decoded(hex_digits(s.spec_bytes())) == bytes,
{
    lemma_hex_encoding_digits(bytes);
    let chars = s@;
    assert forall|j: int| 0 <= j < chars.len() implies '\0' <= #[trigger] chars[j] <= '\u{7f}' by {
        let i = j / 2;
        lemma_hex_char_value(bytes[i] as nat / 16);
        lemma_hex_char_value(bytes[i] as nat % 16);
        assert(hex_encoding(bytes)[2 * i] == hex_char(bytes[i] as nat / 16));
        if j == 2 * i {
            assert(chars[j] == hex_char(bytes[i] as nat / 16));
        } else {
            assert(j == 2 * i + 1);
            assert(chars[j] == hex_char(bytes[i] as nat % 16));
        }
    }
    assert(vstd::string::is_ascii(s));
    vstd::string::is_ascii_spec_bytes(s);
    let raw = s.spec_bytes();
    assert(raw.len() == chars.len());
    assert forall|i: int| 0 <= i < bytes.len() implies nibble_value(#[trigger] raw[2 * i]) == Some(
        (bytes[i] / 16) as u8,
    ) && nibble_value(raw[2 * i + 1]) == Some((bytes[i] % 16) as u8) by {
        lemma_hex_char_value(bytes[i] as nat / 16);
        lemma_hex_char_value(bytes[i] as nat % 16);
        assert(hex_encoding(bytes)[2 * i] == hex_char(bytes[i] as nat / 16));
        assert(raw[2 * i] == chars[2 * i] as u8);
        assert(raw[2 * i + 1] == chars[2 * i + 1] as u8);
    }
    if bytes.len() > 0 {
        assert(nibble_value(raw[2 * 0int + 1]) is Some);
        assert(raw[1] != 120);
    }
    assert(hex_digits(raw) == raw);
    assert forall|j: int| 0 <= j < raw.len() implies #[trigger] nibble_value(raw[j]) is Some by {
        let i = j / 2;
        assert(j == 2 * i || j == 2 * i + 1);
        assert(nibble_value(raw[2 * i]) is Some && nibble_value(raw[2 * i + 1]) is Some);
    }
    assert forall|i: int| 0 <= i < bytes.len() implies #[trigger] hex_decoded(raw)[i] == bytes[i] by {
        assert(nibble_value(raw[2 * i]) == Some((bytes[i] / 16) as u8));
        assert(nibble_value(raw[2 * i + 1]) == Some((bytes[i] % 16) as u8));
        assert((bytes[i] / 16) * 16 + bytes[i] % 16 == bytes[i]);
    }
    assert(hex_decoded(raw) =~= bytes);
}

fn hex_digit(n: u8) -> (c: char)
    requires
        n < 16,
    ensures
        c == hex_char(n as nat),
{
    if n < 10 {
        (48 + n) as char
    } else {
        (87 + n) as char
    }
}

/// Render bytes as lower-case hexadecimal.
pub fn encode_hex(bytes: &[u8]) -> (r: String)
    ensures
        r@ == hex_encoding(bytes@),
{
    let mut out = String::new();
    let mut i: usize = 0;
    while i < bytes.len()
        invariant
            i <= bytes.len(),
            out@ == hex_encoding(bytes@.subrange(0, i as int)),
        decreases bytes.len() - i,
    {
        let byte = bytes[i];
        assert(byte >> 4u8 == byte / 16 && byte & 0x0fu8 == byte % 16) by (bit_vector);
        push_char(&mut out, hex_digit(byte >> 4));
        push_char(&mut out, hex_digit(byte & 0x0f));
        assert(bytes@.subrange(0, i as int + 1).drop_last() =~= bytes@.subrange(0, i as int));
        i += 1;
    }
    assert(bytes@.subrange(0, bytes@.len() as int) =~= bytes@);
    out
}

/// Decode one hexadecimal digit byte.
fn decode_hex_nibble(nibble: u8) -> (r: Result<u8, String>)
    ensures
        nibble_value(nibble) matches Some(v) ==> r == Ok::<u8, String>(v),
        nibble_value(nibble) is None ==> (r matches Err(e) && e@ == invalid_character_message(nibble)),
{
    if 48 <= nibble && nibble <= 57 {
        Ok(nibble - 48)
    } else if 97 <= nibble && nibble <= 102 {
        Ok(nibble - 87)
    } else if 65 <= nibble && nibble <= 70 {
        Ok(nibble - 55)
    } else {
        let mut message = String::from_str("invalid hex character: ");
        push_char(&mut message, nibble as char);
        Err(message)
    }
}

/// Decode a hexadecimal string, with or without a `0x` prefix.
pub fn decode_hex(hex: &str) -> (r: Result<Vec<u8>, String>)
    ensures
        ({
            let digits = hex_digits(hex.spec_bytes());
            &&& digits.len() % 2 != 0 ==> (r matches Err(e) && e@
                == "hex string must have even length"@)
            &&& digits.len() % 2 == 0 ==> (r is Ok <==> all_nibbles(digits))
            &&& r matches Ok(v) ==> v@ == hex_decoded(digits)
            &&& digits.len() % 2 == 0 && !all_nibbles(digits) ==> (r matches Err(e) && exists|k: int|
                first_invalid(digits, k) && e@ == invalid_character_message(digits[k]))
        }),
{
    let bytes = hex.as_bytes();
    let start: usize = if bytes.len() >= 2 && bytes[0] == 48 && bytes[1] == 120 {
        2
    } else {
        0
    };
    let ghost digits = hex_digits(hex.spec_bytes());
    assert(digits =~= bytes@.skip(start as int));
    if (bytes.len() - start) % 2 != 0 {
        return Err(String::from_str("hex string must have even length"));
    }
    let mut out: Vec<u8> = Vec::new();
    let mut i: usize = start;
    while i < bytes.len()
        invariant
            start <= i <= bytes@.len(),
            (i - start) % 2 == 0,
            (bytes@.len() - start) % 2 == 0,
            digits == bytes@.skip(start as int),
            digits == hex_digits(hex.spec_bytes()),
            out@.len() == (i - start) / 2,
            forall|k: int| 0 <= k < i - start ==> #[trigger] nibble_value(digits[k]) is Some,
            forall|k: int|
                0 <= k < out@.len() ==> #[trigger] out@[k] == hex_decoded(digits)[k],
        decreases bytes@.len() - i,
    {
        let high = match decode_hex_nibble(bytes[i]) {
            Ok(v) => v,
            Err(e) => {
                assert(digits[i - start] == bytes@[i as int]);
                assert(first_invalid(digits, i - start));
                assert(e@ == invalid_character_message(digits[i - start]));
                assert(all_nibbles(digits) ==> nibble_value(digits[i - start]) is Some);
                return Err(e);
            },
        };
        let low = match decode_hex_nibble(bytes[i + 1]) {
            Ok(v) => v,
            Err(e) => {
                assert(digits[i + 1 - start] == bytes@[i + 1]);
                assert(digits[i - start] == bytes@[i as int]);
                assert(first_invalid(digits, i + 1 - start));
                assert(e@ == invalid_character_message(digits[i + 1 - start]));
                assert(all_nibbles(digits) ==> nibble_value(digits[i + 1 - start]) is Some);
                return Err(e);
            },
        };
        assert(high < 16 && low < 16 ==> (high << 4u8) | low == high * 16 + low) by (bit_vector);
        out.push((high << 4) | low);
        assert(2 * ((i - start) / 2) == i - start);
        i += 2;
    }
    assert(out@ =~= hex_decoded(digits));
    Ok(out)
}

/// Decode a 32-byte seed from hexadecimal.
pub fn decode_seed(hex: &str) -> (r: Result<[u8; 32], String>)
    ensures
        ({
            let digits = hex_digits(hex.spec_bytes());
            &&& r is Ok <==> digits.len() % 2 == 0 && all_nibbles(digits) && digits.len() == 64
            &&& r matches Ok(seed) ==> seed@ == hex_decoded(digits)
            &&& digits.len() % 2 == 0 && all_nibbles(digits) && digits.len() != 64 ==> (r matches Err(e)
                && e@ == "seed must be 32 bytes, got "@ + decimal(digits.len() / 2))
            &&& digits.len() % 2 != 0 ==> (r matches Err(e) && e@ == "hex string must have even length"@)
            &&& digits.len() % 2 == 0 && !all_nibbles(digits) ==> (r matches Err(e) && exists|k: int|
                first_invalid(digits, k) && e@ == invalid_character_message(digits[k]))
        }),
{
    let bytes = match decode_hex(hex) {
        Ok(bytes) => bytes,
        Err(e) => {
            return Err(e);
        },
    };
    if bytes.len() != 32 {
        return Err(with_decimal("seed must be 32 bytes, got ", bytes.len()));
    }
    let mut seed = [0u8; 32];
    let mut i: usize = 0;
    while i < 32
        invariant
            i <= 32,
            bytes@.len() == 32,
            forall|k: int| 0 <= k < i ==> seed@[k] == bytes@[k],
        decreases 32 - i,
    {
        seed[i] = bytes[i];
        i += 1;
    }
    assert(seed@ =~= bytes@);
    Ok(seed)
}

} // verus!
