//! Byte-level helpers for WebAssembly frontends: proof output and the
//! public-input transport encoding.

use vstd::prelude::*;

use crate::scalar::{le_bytes_value, le_encode, modulus, Scalar};
use crate::text::{decimal, with_decimal};

pub mod wasm;

verus! {

/// A serialized proof together with its serialized public inputs.
#[derive(Debug, Clone, PartialEq, Eq)]
pub struct ProofOutput {
    /// Serialized proof bytes.
    pub proof: Vec<u8>,
    /// Public inputs as concatenated 32-byte scalar encodings.
    pub public_inputs: Vec<u8>,
}

/// Concatenated canonical 32-byte encodings of a sequence of field values.
pub open spec fn serialized_values(values: Seq<nat>) -> Seq<u8>
    decreases values.len(),
{
    if values.len() == 0 {
        Seq::empty()
    } else {
        serialized_values(values.drop_last()) + le_encode(values.last(), 32)
    }
}

/// The field values carried by a sequence of scalars.
pub open spec fn scalar_values(scalars: Seq<Scalar>) -> Seq<nat> {
    scalars.map_values(|s: Scalar| s@)
}

/// The `i`-th 32-byte chunk of `bytes`.
pub open spec fn chunk(bytes: Seq<u8>, i: int) -> Seq<u8> {
    bytes.subrange(32 * i, 32 * i + 32)
}

/// Every 32-byte chunk encodes a canonical scalar.
pub open spec fn canonical_chunks(bytes: Seq<u8>) -> bool {
    forall|i: int| 0 <= i < bytes.len() / 32 ==> le_bytes_value(#[trigger] chunk(bytes, i)) < modulus()
}

/// Serialized public inputs read back as the same values: the bytes that
/// `serialize_public_inputs` writes for canonical values are a whole number
/// of canonical chunks, and chunk `i` encodes value `i`, so
/// `deserialize_public_inputs` accepts them and returns the values.
pub proof fn lemma_public_inputs_round_trip(values: Seq<nat>)
    requires
        forall|i: int| 0 <= i < values.len() ==> #[trigger] values[i] < modulus(),
    ensures
        serialized_values(values).len() == 32 * values.len(),
        canonical_chunks(serialized_values(values)),
        forall|i: int|
            0 <= i < values.len() ==> le_bytes_value(#[trigger] chunk(serialized_values(values), i))
                == values[i],
    decreases values.len(),
{
    if values.len() > 0 {
        let prefix = values.drop_last();
        let last = values.last();
        let bytes = serialized_values(values);
        let head = serialized_values(prefix);
        let n = values.len();
        lemma_public_inputs_round_trip(prefix);
        crate::scalar::lemma_modulus_fits();
        crate::scalar::lemma_le_encode_value(last, 32);
        assert(bytes == head + le_encode(last, 32));
        assert forall|i: int| 0 <= i < n implies le_bytes_value(#[trigger] chunk(bytes, i))
            == values[i] by {
            if i < n - 1 {
                assert(chunk(bytes, i) =~= chunk(head, i));
                assert(prefix[i] == values[i]);
            } else {
                assert(chunk(bytes, i) =~= le_encode(last, 32));
            }
        }
        assert forall|i: int| 0 <= i < bytes.len() / 32 implies le_bytes_value(
            #[trigger] chunk(bytes, i),
        ) < modulus() by {
            assert(bytes.len() / 32 == n);
            assert(le_bytes_value(chunk(bytes, i)) == values[i]);
        }
    }
}

/// Serialize public inputs as concatenated canonical 32-byte encodings.
pub fn serialize_public_inputs(public_inputs: &[Scalar]) -> (r: Vec<u8>)
    ensures
        r@ == serialized_values(scalar_values(public_inputs@)),
{
    let mut out: Vec<u8> = Vec::new();
    let mut i: usize = 0;
    while i < public_inputs.len()
        invariant
            i <= public_inputs.len(),
            out@ == serialized_values(scalar_values(public_inputs@.subrange(0, i as int))),
        decreases public_inputs.len() - i,
    {
        let bytes = public_inputs[i].to_bytes();
        let mut j: usize = 0;
        let ghost before = out@;
        while j < 32
            invariant
                j <= 32,
                out@ == before + bytes@.subrange(0, j as int),
            decreases 32 - j,
        {
            out.push(bytes[j]);
            j += 1;
            assert(out@ =~= before + bytes@.subrange(0, j as int));
        }
        proof {
            let prefix = public_inputs@.subrange(0, i as int + 1);
            assert(scalar_values(prefix).drop_last() =~= scalar_values(public_inputs@.subrange(0, i as int)));
            assert(bytes@.subrange(0, 32) =~= bytes@);
        }
        i += 1;
    }
    assert(public_inputs@.subrange(0, public_inputs@.len() as int) =~= public_inputs@);
    out
}

/// Deserialize public inputs from concatenated canonical 32-byte encodings.
pub fn deserialize_public_inputs(public_inputs: &[u8]) -> (r: Result<Vec<Scalar>, String>)
    ensures
        public_inputs@.len() % 32 != 0 ==> (r matches Err(e) && e@
            == "public inputs length must be a multiple of 32 bytes, got "@ + decimal(
            public_inputs@.len(),
        )),
        public_inputs@.len() % 32 == 0 ==> (r is Ok <==> canonical_chunks(public_inputs@)),
        public_inputs@.len() % 32 == 0 && !canonical_chunks(public_inputs@) ==> (r matches Err(e)
            && e@ == "invalid public input scalar encoding"@),
        r matches Ok(values) ==> (values@.len() == public_inputs@.len() / 32 && forall|i: int|
            0 <= i < values@.len() ==> #[trigger] values@[i]@ == le_bytes_value(
                chunk(public_inputs@, i),
            )),
{
    if public_inputs.len() % 32 != 0 {
        return Err(
            with_decimal("public inputs length must be a multiple of 32 bytes, got ", public_inputs.len()),
        );
    }
    let total = public_inputs.len();
    let count = total / 32;
    assert(32 * count == public_inputs@.len());
    let mut values: Vec<Scalar> = Vec::new();
    let mut i: usize = 0;
    while i < count
        invariant
            count == public_inputs@.len() / 32,
            32 * count == public_inputs@.len(),
            total == public_inputs@.len(),
            public_inputs@.len() % 32 == 0,
            i <= count,
            values@.len() == i,
            forall|k: int| 0 <= k < i ==> le_bytes_value(#[trigger] chunk(public_inputs@, k)) < modulus(),
            forall|k: int| 0 <= k < i ==> #[trigger] values@[k]@ == le_bytes_value(chunk(public_inputs@, k)),
        decreases count - i,
    {
        let mut bytes = [0u8; 32];
        let mut j: usize = 0;
        assert(32 * i + 32 <= 32 * count) by (nonlinear_arith)
            requires
                i < count,
        ;
        let base: usize = 32 * i;
        while j < 32
            invariant
                j <= 32,
                i < count,
                count == public_inputs@.len() / 32,
                public_inputs@.len() % 32 == 0,
                32 * i + 32 <= 32 * count,
                32 * count == public_inputs@.len(),
                base == 32 * i,
                forall|k: int| 0 <= k < j ==> bytes@[k] == public_inputs@[32 * i + k],
            decreases 32 - j,
        {
            bytes[j] = public_inputs[base + j];
            j += 1;
        }
        assert(bytes@ =~= chunk(public_inputs@, i as int));
        match Scalar::from_bytes(&bytes) {
            Some(value) => values.push(value),
            None => {
                return Err(String::from_str("invalid public input scalar encoding"));
            },
        }
        i += 1;
    }
    Ok(values)
}

} // verus!
