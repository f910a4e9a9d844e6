//! The byte-level layer of the key format: a header, little-endian lengths,
//! compressed points and length-prefixed point lists, and a bounds-checked
//! reader for them.

use vstd::prelude::*;

use super::error::Error;
use super::points::{g1_decode, g1_decodes, g2_decode, g2_decodes, G1Point, G2Point};
use crate::scalar::{byte_power, le_bytes_value, le_encode, lemma_le_encode_value};

verus! {

broadcast use {G1Point::lemma_encoding_length, G2Point::lemma_encoding_length};

/// The key format magic `DUSKG16K`.
pub open spec fn key_magic() -> Seq<u8> {
    seq![68u8, 85, 83, 75, 71, 49, 54, 75]
}

/// The key header: magic, format version one, key kind.
pub open spec fn header_encoding(kind: u8) -> Seq<u8> {
    key_magic() + seq![1u8, kind]
}

/// The eight-byte little-endian encoding of a length or count.
pub open spec fn le64(v: nat) -> Seq<u8> {
    le_encode(v, 8)
}

/// Compressed G1 points, one after the other.
pub open spec fn g1_points_encoding(points: Seq<G1Point>) -> Seq<u8>
    decreases points.len(),
{
    if points.len() == 0 {
        Seq::empty()
    } else {
        g1_points_encoding(points.drop_last()) + points.last().encoding()
    }
}

/// Compressed G2 points, one after the other.
pub open spec fn g2_points_encoding(points: Seq<G2Point>) -> Seq<u8>
    decreases points.len(),
{
    if points.len() == 0 {
        Seq::empty()
    } else {
        g2_points_encoding(points.drop_last()) + points.last().encoding()
    }
}

/// A length-prefixed list of G1 points.
pub open spec fn g1_list_encoding(points: Seq<G1Point>) -> Seq<u8> {
    le64(points.len()) + g1_points_encoding(points)
}

/// A length-prefixed list of G2 points.
pub open spec fn g2_list_encoding(points: Seq<G2Point>) -> Seq<u8> {
    le64(points.len()) + g2_points_encoding(points)
}

/// Append `tail` to `bytes`.
fn extend(bytes: &mut Vec<u8>, tail: &[u8])
    ensures
        final(bytes)@ == old(bytes)@ + tail@,
{
    let mut i: usize = 0;
    while i < tail.len()
        invariant
            i <= tail@.len(),
            bytes@ == old(bytes)@ + tail@.subrange(0, i as int),
        decreases tail.len() - i,
    {
        bytes.push(tail[i]);
        i = i + 1;
        assert(bytes@ =~= old(bytes)@ + tail@.subrange(0, i as int));
    }
    assert(tail@.subrange(0, tail@.len() as int) =~= tail@);
}

/// Append the key header for `kind`.
pub fn write_header(bytes: &mut Vec<u8>, kind: u8)
    ensures
        final(bytes)@ == old(bytes)@ + header_encoding(kind),
{
    let magic: [u8; 8] = [68, 85, 83, 75, 71, 49, 54, 75];
    extend(bytes, &magic);
    bytes.push(1);
    bytes.push(kind);
    assert(bytes@ =~= old(bytes)@ + header_encoding(kind));
}

/// Append `value` as eight little-endian bytes.
pub fn write_usize(bytes: &mut Vec<u8>, value: usize)
    ensures
        final(bytes)@ == old(bytes)@ + le64(value as nat),
{
    let mut x: u64 = value as u64;
    let mut i: usize = 0;
    while i < 8
        invariant
            i <= 8,
            bytes@.len() == old(bytes)@.len() + i,
            bytes@.subrange(0, old(bytes)@.len() as int) == old(bytes)@,
            le64(value as nat) == bytes@.subrange(old(bytes)@.len() as int, bytes@.len() as int)
                + le_encode(x as nat, (8 - i) as nat),
        decreases 8 - i,
    {
        let ghost before = bytes@;
        bytes.push((x % 256) as u8);
        proof {
            assert(le_encode(x as nat, (8 - i) as nat) == seq![(x % 256) as u8] + le_encode(
                (x / 256) as nat,
                (8 - i - 1) as nat,
            ));
            assert(bytes@.subrange(old(bytes)@.len() as int, bytes@.len() as int) =~= before.subrange(
                old(bytes)@.len() as int,
                before.len() as int,
            ).push((x % 256) as u8));
            assert(bytes@.subrange(0, old(bytes)@.len() as int) =~= before.subrange(0, old(bytes)@.len() as int));
        }
        x = x / 256;
        i = i + 1;
    }
    assert(le_encode(x as nat, 0) =~= Seq::<u8>::empty());
    assert(bytes@ =~= old(bytes)@ + le64(value as nat));
}

/// Append a compressed G1 point.
pub fn write_g1(bytes: &mut Vec<u8>, point: &G1Point)
    ensures
        final(bytes)@ == old(bytes)@ + point.encoding(),
        g1_decodes(point.encoding()),
{
    let encoded = point.to_bytes();
    extend(bytes, &encoded);
}

/// Append a compressed G2 point.
pub fn write_g2(bytes: &mut Vec<u8>, point: &G2Point)
    ensures
        final(bytes)@ == old(bytes)@ + point.encoding(),
        g2_decodes(point.encoding()),
{
    let encoded = point.to_bytes();
    extend(bytes, &encoded);
}

/// Append a length-prefixed list of G1 points.
pub fn write_g1_vec(bytes: &mut Vec<u8>, points: &[G1Point])
    ensures
        final(bytes)@ == old(bytes)@ + g1_list_encoding(points@),
        g1_all_decode(points@),
{
    write_usize(bytes, points.len());
    let ghost head = bytes@;
    let mut i: usize = 0;
    while i < points.len()
        invariant
            i <= points@.len(),
            bytes@ == head + g1_points_encoding(points@.take(i as int)),
            forall|j: int| 0 <= j < i ==> g1_decodes(#[trigger] points@[j].encoding()),
        decreases points.len() - i,
    {
        write_g1(bytes, &points[i]);
        proof {
            assert(points@.take(i + 1).drop_last() =~= points@.take(i as int));
        }
        i = i + 1;
    }
    assert(points@.take(points@.len() as int) =~= points@);
}

/// Append a length-prefixed list of G2 points.
pub fn write_g2_vec(bytes: &mut Vec<u8>, points: &[G2Point])
    ensures
        final(bytes)@ == old(bytes)@ + g2_list_encoding(points@),
        g2_all_decode(points@),
{
    write_usize(bytes, points.len());
    let ghost head = bytes@;
    let mut i: usize = 0;
    while i < points.len()
        invariant
            i <= points@.len(),
            bytes@ == head + g2_points_encoding(points@.take(i as int)),
            forall|j: int| 0 <= j < i ==> g2_decodes(#[trigger] points@[j].encoding()),
        decreases points.len() - i,
    {
        write_g2(bytes, &points[i]);
        proof {
            assert(points@.take(i + 1).drop_last() =~= points@.take(i as int));
        }
        i = i + 1;
    }
    assert(points@.take(points@.len() as int) =~= points@);
}

/// A bounds-checked cursor over encoded bytes.
pub struct Reader<'a> {
    bytes: &'a [u8],
    offset: usize,
}

impl<'a> Reader<'a> {
    /// The bytes being read.
    pub closed spec fn data(&self) -> Seq<u8> {
        self.bytes@
    }

    /// How many bytes were consumed.
    pub closed spec fn position(&self) -> int {
        self.offset as int
    }

    /// The consumed bytes never run past the end.
    pub closed spec fn valid(&self) -> bool {
        self.offset <= self.bytes@.len()
    }

    /// A valid reader's position lies within the bytes.
    pub proof fn lemma_position_within(&self)
        requires
            self.valid(),
        ensures
            0 <= self.position() <= self.data().len(),
    {
    }

    /// A reader at the start of `bytes`.
    pub fn new(bytes: &'a [u8]) -> (r: Self)
        ensures
            r.data() == bytes@,
            r.position() == 0,
            r.valid(),
    {
        Reader { bytes, offset: 0 }
    }

    /// Consume the next `n` bytes.
    pub fn array(&mut self, n: usize) -> (r: Result<Vec<u8>, Error>)
        requires
            old(self).valid(),
        ensures
            final(self).valid(),
            final(self).data() == old(self).data(),
            old(self).position() + n <= old(self).data().len() ==> (r matches Ok(v) && v@
                == old(self).data().subrange(old(self).position(), old(self).position() + n)
                && final(self).position() == old(self).position() + n),
            old(self).position() + n > old(self).data().len() ==> r == Err::<Vec<u8>, Error>(
                Error::InvalidEncoding,
            ),
    {
        if n > self.bytes.len() - self.offset {
            return Err(Error::InvalidEncoding);
        }
        let end = self.offset + n;
        let mut out: Vec<u8> = Vec::new();
        let mut i: usize = self.offset;
        while i < end
            invariant
                self.offset <= i <= end,
                end <= self.bytes@.len(),
                out@ == self.bytes@.subrange(self.offset as int, i as int),
            decreases end - i,
        {
            out.push(self.bytes[i]);
            i = i + 1;
            assert(out@ =~= self.bytes@.subrange(self.offset as int, i as int));
        }
        self.offset = end;
        Ok(out)
    }

    /// Consume a key header and require kind `kind`.
    pub fn header(&mut self, kind: u8) -> (r: Result<(), Error>)
        requires
            old(self).valid(),
        ensures
            final(self).valid(),
            final(self).data() == old(self).data(),
            r is Ok <==> (old(self).position() + 10 <= old(self).data().len() && old(self).data().subrange(
                old(self).position(),
                old(self).position() + 10,
            ) == header_encoding(kind)),
            r is Ok ==> final(self).position() == old(self).position() + 10,
            r is Err ==> r == Err::<(), Error>(Error::InvalidEncoding),
    {
        let ghost start = self.offset as int;
        let ghost data = self.bytes@;
        let magic = self.array(8)?;
        let expected: [u8; 8] = [68, 85, 83, 75, 71, 49, 54, 75];
        let mut same = true;
        let mut i: usize = 0;
        assert(magic@.subrange(0, 0) =~= expected@.subrange(0, 0));
        while i < 8
            invariant
                i <= 8,
                magic@.len() == 8,
                expected@ == key_magic(),
                same == (magic@.subrange(0, i as int) == expected@.subrange(0, i as int)),
            decreases 8 - i,
        {
            if magic[i] != expected[i] {
                same = false;
            }
            proof {
                if same {
                    assert(magic@.subrange(0, i + 1) =~= expected@.subrange(0, i + 1));
                } else if magic@.subrange(0, i + 1) == expected@.subrange(0, i + 1) {
                    if magic[i as int] != expected[i as int] {
                        assert(magic@.subrange(0, i + 1)[i as int] == magic[i as int]);
                    } else {
                        assert(magic@.subrange(0, i as int) =~= magic@.subrange(0, i + 1).subrange(0, i as int));
                        assert(expected@.subrange(0, i as int) =~= expected@.subrange(0, i + 1).subrange(0, i as int));
                    }
                }
            }
            i = i + 1;
        }
        assert(magic@.subrange(0, 8) =~= magic@);
        assert(expected@.subrange(0, 8) =~= expected@);
        if !same {
            proof {
                if start + 10 <= data.len() && data.subrange(start, start + 10) == header_encoding(kind) {
                    assert(data.subrange(start, start + 8) =~= data.subrange(start, start + 10).subrange(0, 8));
                    assert(header_encoding(kind).subrange(0, 8) =~= key_magic());
                }
            }
            return Err(Error::InvalidEncoding);
        }
        let version = match self.array(1) {
            Ok(v) => v,
            Err(e) => {
                return Err(e);
            },
        };
        if version[0] != 1 {
            proof {
                if start + 10 <= data.len() && data.subrange(start, start + 10) == header_encoding(kind) {
                    assert(data.subrange(start, start + 10)[8] == data[start + 8]);
                }
            }
            return Err(Error::InvalidEncoding);
        }
        let found = match self.array(1) {
            Ok(v) => v,
            Err(e) => {
                return Err(e);
            },
        };
        if found[0] != kind {
            proof {
                if start + 10 <= data.len() && data.subrange(start, start + 10) == header_encoding(kind) {
                    assert(data.subrange(start, start + 10)[9] == data[start + 9]);
                }
            }
            return Err(Error::InvalidEncoding);
        }
        assert(data.subrange(start, start + 10) =~= header_encoding(kind)) by {
            assert forall|t: int| 0 <= t < 10 implies data.subrange(start, start + 10)[t] == header_encoding(kind)[t] by {
                if t < 8 {
                    assert(magic@[t] == data[start + t]);
                }
            }
        }
        Ok(())
    }

    /// Consume an eight-byte little-endian count that fits in `usize`.
    pub fn usize(&mut self) -> (r: Result<usize, Error>)
        requires
            old(self).valid(),
        ensures
            final(self).valid(),
            final(self).data() == old(self).data(),
            r is Ok <==> (old(self).position() + 8 <= old(self).data().len() && le_bytes_value(
                old(self).data().subrange(old(self).position(), old(self).position() + 8),
            ) <= usize::MAX),
            r matches Ok(v) ==> v == le_bytes_value(
                old(self).data().subrange(old(self).position(), old(self).position() + 8),
            ) && final(self).position() == old(self).position() + 8,
            r is Err ==> r == Err::<usize, Error>(Error::InvalidEncoding),
    {
        let bytes = self.array(8)?;
        let mut value: u64 = 0;
        let mut k: usize = 8;
        proof {
            assert(bytes@.subrange(8, 8) =~= Seq::<u8>::empty());
        }
        while k > 0
            invariant
                k <= 8,
                bytes@.len() == 8,
                value as nat == le_bytes_value(bytes@.subrange(k as int, 8)),
                (value as nat) < byte_power((8 - k) as nat),
            decreases k,
        {
            k = k - 1;
            proof {
                let tail = bytes@.subrange(k as int, 8);
                assert(tail.drop_first() =~= bytes@.subrange(k + 1, 8));
                assert(byte_power((8 - k) as nat) == 256 * byte_power((8 - k - 1) as nat));
                assert(byte_power(8) == 0x1_0000_0000_0000_0000) by {
                    reveal_with_fuel(byte_power, 9);
                }
                lemma_byte_power_monotone((8 - k) as nat, 8);
                assert((value as nat) * 256 + bytes[k as int] < byte_power((8 - k) as nat)) by (nonlinear_arith)
                    requires
                        (value as nat) < byte_power((8 - k - 1) as nat),
                        byte_power((8 - k) as nat) == 256 * byte_power((8 - k - 1) as nat),
                        bytes[k as int] < 256,
                ;
            }
            value = value * 256 + bytes[k] as u64;
        }
        assert(bytes@.subrange(0, 8) =~= bytes@);
        if value > usize::MAX as u64 {
            return Err(Error::InvalidEncoding);
        }
        Ok(value as usize)
    }

    /// Consume a compressed G1 point of the subgroup.
    pub fn g1(&mut self) -> (r: Result<G1Point, Error>)
        requires
            old(self).valid(),
        ensures
            final(self).valid(),
            final(self).data() == old(self).data(),
            r is Ok <==> (old(self).position() + 48 <= old(self).data().len() && g1_decodes(
                old(self).data().subrange(old(self).position(), old(self).position() + 48),
            )),
            r matches Ok(p) ==> p.encoding() == old(self).data().subrange(
                old(self).position(),
                old(self).position() + 48,
            ) && final(self).position() == old(self).position() + 48,
            r is Err ==> r == Err::<G1Point, Error>(Error::InvalidEncoding),
    {
        let bytes = self.array(48)?;
        match g1_decode(bytes.as_slice()) {
            Some(point) => Ok(point),
            None => Err(Error::InvalidEncoding),
        }
    }

    /// Consume a compressed G2 point of the subgroup.
    pub fn g2(&mut self) -> (r: Result<G2Point, Error>)
        requires
            old(self).valid(),
        ensures
            final(self).valid(),
            final(self).data() == old(self).data(),
            r is Ok <==> (old(self).position() + 96 <= old(self).data().len() && g2_decodes(
                old(self).data().subrange(old(self).position(), old(self).position() + 96),
            )),
            r matches Ok(p) ==> p.encoding() == old(self).data().subrange(
                old(self).position(),
                old(self).position() + 96,
            ) && final(self).position() == old(self).position() + 96,
            r is Err ==> r == Err::<G2Point, Error>(Error::InvalidEncoding),
    {
        let bytes = self.array(96)?;
        match g2_decode(bytes.as_slice()) {
            Some(point) => Ok(point),
            None => Err(Error::InvalidEncoding),
        }
    }

    /// Consume a length-prefixed list of G1 points; the list must fit in the
    /// remaining bytes. Every list of decodable points whose encoding is next
    /// in the input is read back.
    pub fn g1_vec(&mut self) -> (r: Result<Vec<G1Point>, Error>)
        requires
            old(self).valid(),
        ensures
            final(self).valid(),
            final(self).data() == old(self).data(),
            r matches Ok(points) ==> final(self).position() == old(self).position()
                + g1_list_encoding(points@).len() && old(self).data().subrange(
                old(self).position(),
                final(self).position(),
            ) == g1_list_encoding(points@),
            r is Err ==> r == Err::<Vec<G1Point>, Error>(Error::InvalidEncoding),
            r matches Ok(points) ==> g1_all_decode(points@),
            forall|ps: Seq<G1Point>|
                #[trigger] g1_list_fits(old(self).data(), old(self).position(), ps) ==> r is Ok,
    {
        let ghost start = self.offset as int;
        let ghost data = self.bytes@;
        proof {
            assert forall|ps: Seq<G1Point>| #[trigger] g1_list_fits(data, start, ps) implies {
                &&& start + 8 + 48 * ps.len() <= data.len()
                &&& data.subrange(start, start + 8) == le64(ps.len())
                &&& le_bytes_value(data.subrange(start, start + 8)) == ps.len()
                &&& data.subrange(start + 8, start + 8 + 48 * ps.len()) == g1_points_encoding(ps)
            } by {
                lemma_g1_points_encoding_length(ps);
                lemma_le_encode_length(ps.len(), 8);
                let whole = g1_list_encoding(ps);
                assert(data.subrange(start, start + 8) =~= whole.subrange(0, 8));
                assert(whole.subrange(0, 8) =~= le64(ps.len()));
                assert(data.subrange(start + 8, start + 8 + 48 * ps.len()) =~= whole.subrange(8, whole.len() as int));
                assert(whole.subrange(8, whole.len() as int) =~= g1_points_encoding(ps));
                lemma_usize_fits_le64(ps.len());
                crate::scalar::lemma_le_encode_value(ps.len(), 8);
            }
        }
        let length = match self.usize() {
            Ok(n) => n,
            Err(e) => {
                return Err(e);
            },
        };
        let byte_length = match length.checked_mul(48) {
            Some(b) => b,
            None => {
                proof {
                    let total = self.bytes.len();
                    assert forall|ps: Seq<G1Point>| #[trigger] g1_list_fits(data, start, ps) implies false by {
                        assert(ps.len() == length);
                        assert(data.len() == total);
                    }
                }
                return Err(Error::InvalidEncoding);
            },
        };
        if byte_length > self.bytes.len() - self.offset {
            proof {
                assert forall|ps: Seq<G1Point>| #[trigger] g1_list_fits(data, start, ps) implies false by {
                    assert(ps.len() == length);
                    assert(byte_length == 48 * ps.len());
                }
            }
            return Err(Error::InvalidEncoding);
        }
        let ghost body = self.offset as int;
        proof {
            lemma_le64_of_value(data.subrange(start, start + 8));
        }
        let mut points: Vec<G1Point> = Vec::new();
        let mut i: usize = 0;
        while i < length
            invariant
                i <= length,
                self.valid(),
                self.data() == data,
                data == old(self).data(),
                body == start + 8,
                start == old(self).position(),
                0 <= start,
                start + 8 <= data.len(),
                body + 48 * length <= data.len(),
                self.position() == body + 48 * i,
                data.subrange(start, body) == le64(length as nat),
                length == le_bytes_value(data.subrange(start, start + 8)),
                points@.len() == i,
                g1_all_decode(points@),
                data.subrange(body, self.position()) == g1_points_encoding(points@),
                forall|ps: Seq<G1Point>|
                    #[trigger] g1_list_fits(data, start, ps) ==> {
                        &&& ps.len() == length
                        &&& data.subrange(body, body + 48 * ps.len()) == g1_points_encoding(ps)
                    },
            decreases length - i,
        {
            let ghost before = self.offset as int;
            let ghost old_points = points@;
            proof {
                assert(before + 48 <= data.len()) by (nonlinear_arith)
                    requires
                        before == body + 48 * i,
                        i < length,
                        body + 48 * length <= data.len(),
                ;
            }
            let point = match self.g1() {
                Ok(p) => p,
                Err(e) => {
                    proof {
                        assert forall|ps: Seq<G1Point>| #[trigger] g1_list_fits(data, start, ps) implies false by {
                            lemma_g1_points_chunk(ps, i as int);
                            assert(data.subrange(before, before + 48) =~= data.subrange(
                                body,
                                body + 48 * ps.len(),
                            ).subrange(48 * i, 48 * i + 48));
                            assert(g1_decodes(ps[i as int].encoding()));
                        }
                    }
                    return Err(e);
                },
            };
            points.push(point);
            proof {
                assert(points@.drop_last() =~= old_points);
                assert(points@.last() == point);
                assert(body <= before);
                assert(before + 48 == self.position());
                assert(self.position() <= data.len());
                lemma_subrange_split(data, body, before, self.position());
            }
            i = i + 1;
        }
        proof {
            lemma_subrange_split(data, start, body, self.position());
            lemma_g1_points_encoding_length(points@);
        }
        Ok(points)
    }

    /// Consume a length-prefixed list of G2 points; the list must fit in the
    /// remaining bytes. Every list of decodable points whose encoding is next
    /// in the input is read back.
    pub fn g2_vec(&mut self) -> (r: Result<Vec<G2Point>, Error>)
        requires
            old(self).valid(),
        ensures
            final(self).valid(),
            final(self).data() == old(self).data(),
            r matches Ok(points) ==> final(self).position() == old(self).position()
                + g2_list_encoding(points@).len() && old(self).data().subrange(
                old(self).position(),
                final(self).position(),
            ) == g2_list_encoding(points@),
            r is Err ==> r == Err::<Vec<G2Point>, Error>(Error::InvalidEncoding),
            r matches Ok(points) ==> g2_all_decode(points@),
            forall|ps: Seq<G2Point>|
                #[trigger] g2_list_fits(old(self).data(), old(self).position(), ps) ==> r is Ok,
    {
        let ghost start = self.offset as int;
        let ghost data = self.bytes@;
        proof {
            assert forall|ps: Seq<G2Point>| #[trigger] g2_list_fits(data, start, ps) implies {
                &&& start + 8 + 96 * ps.len() <= data.len()
                &&& data.subrange(start, start + 8) == le64(ps.len())
                &&& le_bytes_value(data.subrange(start, start + 8)) == ps.len()
                &&& data.subrange(start + 8, start + 8 + 96 * ps.len()) == g2_points_encoding(ps)
            } by {
                lemma_g2_points_encoding_length(ps);
                lemma_le_encode_length(ps.len(), 8);
                let whole = g2_list_encoding(ps);
                assert(data.subrange(start, start + 8) =~= whole.subrange(0, 8));
                assert(whole.subrange(0, 8) =~= le64(ps.len()));
                assert(data.subrange(start + 8, start + 8 + 96 * ps.len()) =~= whole.subrange(8, whole.len() as int));
                assert(whole.subrange(8, whole.len() as int) =~= g2_points_encoding(ps));
                lemma_usize_fits_le64(ps.len());
                crate::scalar::lemma_le_encode_value(ps.len(), 8);
            }
        }
        let length = match self.usize() {
            Ok(n) => n,
            Err(e) => {
                return Err(e);
            },
        };
        let byte_length = match length.checked_mul(96) {
            Some(b) => b,
            None => {
                proof {
                    let total = self.bytes.len();
                    assert forall|ps: Seq<G2Point>| #[trigger] g2_list_fits(data, start, ps) implies false by {
                        assert(ps.len() == length);
                        assert(data.len() == total);
                    }
                }
                return Err(Error::InvalidEncoding);
            },
        };
        if byte_length > self.bytes.len() - self.offset {
            proof {
                assert forall|ps: Seq<G2Point>| #[trigger] g2_list_fits(data, start, ps) implies false by {
                    assert(ps.len() == length);
                    assert(byte_length == 96 * ps.len());
                }
            }
            return Err(Error::InvalidEncoding);
        }
        let ghost body = self.offset as int;
        proof {
            lemma_le64_of_value(data.subrange(start, start + 8));
        }
        let mut points: Vec<G2Point> = Vec::new();
        let mut i: usize = 0;
        while i < length
            invariant
                i <= length,
                self.valid(),
                self.data() == data,
                data == old(self).data(),
                body == start + 8,
                start == old(self).position(),
                0 <= start,
                start + 8 <= data.len(),
                body + 96 * length <= data.len(),
                self.position() == body + 96 * i,
                data.subrange(start, body) == le64(length as nat),
                length == le_bytes_value(data.subrange(start, start + 8)),
                points@.len() == i,
                g2_all_decode(points@),
                data.subrange(body, self.position()) == g2_points_encoding(points@),
                forall|ps: Seq<G2Point>|
                    #[trigger] g2_list_fits(data, start, ps) ==> {
                        &&& ps.len() == length
                        &&& data.subrange(body, body + 96 * ps.len()) == g2_points_encoding(ps)
                    },
            decreases length - i,
        {
            let ghost before = self.offset as int;
            let ghost old_points = points@;
            proof {
                assert(before + 96 <= data.len()) by (nonlinear_arith)
                    requires
                        before == body + 96 * i,
                        i < length,
                        body + 96 * length <= data.len(),
                ;
            }
            let point = match self.g2() {
                Ok(p) => p,
                Err(e) => {
                    proof {
                        assert forall|ps: Seq<G2Point>| #[trigger] g2_list_fits(data, start, ps) implies false by {
                            lemma_g2_points_chunk(ps, i as int);
                            assert(data.subrange(before, before + 96) =~= data.subrange(
                                body,
                                body + 96 * ps.len(),
                            ).subrange(96 * i, 96 * i + 96));
                            assert(g2_decodes(ps[i as int].encoding()));
                        }
                    }
                    return Err(e);
                },
            };
            points.push(point);
            proof {
                assert(points@.drop_last() =~= old_points);
                assert(points@.last() == point);
                assert(body <= before);
                assert(before + 96 == self.position());
                assert(self.position() <= data.len());
                lemma_subrange_split(data, body, before, self.position());
            }
            i = i + 1;
        }
        proof {
            lemma_subrange_split(data, start, body, self.position());
            lemma_g2_points_encoding_length(points@);
        }
        Ok(points)
    }

    /// Require that every byte was consumed.
    pub fn finish(self) -> (r: Result<(), Error>)
        ensures
            r is Ok <==> self.position() == self.data().len(),
            r is Err ==> r == Err::<(), Error>(Error::InvalidEncoding),
    {
        if self.offset == self.bytes.len() {
            Ok(())
        } else {
            Err(Error::InvalidEncoding)
        }
    }
}

/// Every point of the list has an encoding that G1 decoding accepts.
pub open spec fn g1_all_decode(ps: Seq<G1Point>) -> bool {
    forall|i: int| 0 <= i < ps.len() ==> g1_decodes(#[trigger] ps[i].encoding())
}

/// Every point of the list has an encoding that G2 decoding accepts.
pub open spec fn g2_all_decode(ps: Seq<G2Point>) -> bool {
    forall|i: int| 0 <= i < ps.len() ==> g2_decodes(#[trigger] ps[i].encoding())
}

/// The encoding of the decodable list `ps` comes next in `data` at `pos`.
pub open spec fn g1_list_fits(data: Seq<u8>, pos: int, ps: Seq<G1Point>) -> bool {
    &&& 0 <= pos
    &&& pos + g1_list_encoding(ps).len() <= data.len()
    &&& data.subrange(pos, pos + g1_list_encoding(ps).len()) == g1_list_encoding(ps)
    &&& ps.len() <= usize::MAX
    &&& g1_all_decode(ps)
}

/// The encoding of the decodable list `ps` comes next in `data` at `pos`.
pub open spec fn g2_list_fits(data: Seq<u8>, pos: int, ps: Seq<G2Point>) -> bool {
    &&& 0 <= pos
    &&& pos + g2_list_encoding(ps).len() <= data.len()
    &&& data.subrange(pos, pos + g2_list_encoding(ps).len()) == g2_list_encoding(ps)
    &&& ps.len() <= usize::MAX
    &&& g2_all_decode(ps)
}

/// Point `i` of a list is the `i`-th 48-byte chunk of its encoding.
pub proof fn lemma_g1_points_chunk(ps: Seq<G1Point>, i: int)
    requires
        0 <= i < ps.len(),
    ensures
        g1_points_encoding(ps).subrange(48 * i, 48 * i + 48) == ps[i].encoding(),
    decreases ps.len(),
{
    let init = ps.drop_last();
    lemma_g1_points_encoding_length(init);
    if i == ps.len() - 1 {
        assert(g1_points_encoding(ps).subrange(48 * i, 48 * i + 48) =~= ps.last().encoding());
    } else {
        lemma_g1_points_chunk(init, i);
        assert(g1_points_encoding(ps).subrange(48 * i, 48 * i + 48) =~= g1_points_encoding(
            init,
        ).subrange(48 * i, 48 * i + 48));
    }
}

/// Point `i` of a list is the `i`-th 96-byte chunk of its encoding.
pub proof fn lemma_g2_points_chunk(ps: Seq<G2Point>, i: int)
    requires
        0 <= i < ps.len(),
    ensures
        g2_points_encoding(ps).subrange(96 * i, 96 * i + 96) == ps[i].encoding(),
    decreases ps.len(),
{
    let init = ps.drop_last();
    lemma_g2_points_encoding_length(init);
    if i == ps.len() - 1 {
        assert(g2_points_encoding(ps).subrange(96 * i, 96 * i + 96) =~= ps.last().encoding());
    } else {
        lemma_g2_points_chunk(init, i);
        assert(g2_points_encoding(ps).subrange(96 * i, 96 * i + 96) =~= g2_points_encoding(
            init,
        ).subrange(96 * i, 96 * i + 96));
    }
}

/// A `usize` count is below `2^64`.
pub proof fn lemma_usize_fits_le64(n: nat)
    requires
        n <= usize::MAX,
    ensures
        n < byte_power(8),
{
    assert(byte_power(8) == 0x1_0000_0000_0000_0000) by {
        reveal_with_fuel(byte_power, 9);
    }
}

/// A subrange splits at any point in between.
pub proof fn lemma_subrange_split(s: Seq<u8>, a: int, b: int, c: int)
    requires
        0 <= a <= b <= c <= s.len(),
    ensures
        s.subrange(a, c) == s.subrange(a, b) + s.subrange(b, c),
{
    assert(s.subrange(a, c) =~= s.subrange(a, b) + s.subrange(b, c));
}

proof fn lemma_byte_power_monotone(a: nat, b: nat)
    requires
        a <= b,
    ensures
        byte_power(a) <= byte_power(b),
    decreases b,
{
    if a < b {
        lemma_byte_power_monotone(a, (b - 1) as nat);
    }
}

/// Eight bytes are the `le64` encoding of their own little-endian value.
pub proof fn lemma_le64_of_value(bytes: Seq<u8>)
    requires
        bytes.len() == 8,
    ensures
        le64(le_bytes_value(bytes)) == bytes,
{
    lemma_le_decode_encode(bytes);
}

proof fn lemma_le_decode_encode(bytes: Seq<u8>)
    ensures
        le_encode(le_bytes_value(bytes), bytes.len()) == bytes,
    decreases bytes.len(),
{
    if bytes.len() > 0 {
        let rest = bytes.drop_first();
        lemma_le_decode_encode(rest);
        let v = le_bytes_value(bytes);
        assert(v == bytes[0] + 256 * le_bytes_value(rest));
        assert(v % 256 == bytes[0] as nat && v / 256 == le_bytes_value(rest)) by (nonlinear_arith)
            requires
                v == bytes[0] + 256 * le_bytes_value(rest),
                bytes[0] < 256,
        ;
        assert(le_encode(v, bytes.len()) =~= bytes);
    }
}

/// The length of a point list's encoding.
pub proof fn lemma_g1_points_encoding_length(points: Seq<G1Point>)
    ensures
        g1_points_encoding(points).len() == 48 * points.len(),
        g1_list_encoding(points).len() == 8 + 48 * points.len(),
    decreases points.len(),
{
    if points.len() > 0 {
        lemma_g1_points_encoding_length(points.drop_last());
    }
    lemma_le_encode_length(points.len(), 8);
}

/// The length of a point list's encoding.
pub proof fn lemma_g2_points_encoding_length(points: Seq<G2Point>)
    ensures
        g2_points_encoding(points).len() == 96 * points.len(),
        g2_list_encoding(points).len() == 8 + 96 * points.len(),
    decreases points.len(),
{
    if points.len() > 0 {
        lemma_g2_points_encoding_length(points.drop_last());
    }
    lemma_le_encode_length(points.len(), 8);
}

/// `le_encode(v, n)` has `n` bytes.
pub proof fn lemma_le_encode_length(v: nat, n: nat)
    ensures
        le_encode(v, n).len() == n,
    decreases n,
{
    if n > 0 {
        lemma_le_encode_length(v / 256, (n - 1) as nat);
    }
}

/// Lists of the same length with the same encoding are the same list.
pub proof fn lemma_g1_points_injective(a: Seq<G1Point>, b: Seq<G1Point>)
    requires
        a.len() == b.len(),
        g1_points_encoding(a) == g1_points_encoding(b),
    ensures
        a == b,
    decreases a.len(),
{
    if a.len() > 0 {
        let a0 = a.drop_last();
        let b0 = b.drop_last();
        lemma_g1_points_encoding_length(a0);
        lemma_g1_points_encoding_length(b0);
        let e = g1_points_encoding(a);
        let m = 48 * a0.len() as int;
        assert(e.subrange(0, m) =~= g1_points_encoding(a0));
        assert(e.subrange(0, m) =~= g1_points_encoding(b0));
        assert(e.subrange(m, e.len() as int) =~= a.last().encoding());
        assert(e.subrange(m, e.len() as int) =~= b.last().encoding());
        lemma_g1_points_injective(a0, b0);
        G1Point::lemma_encoding_determines(a.last(), b.last());
        assert(a =~= b) by {
            assert forall|i: int| 0 <= i < a.len() implies a[i] == b[i] by {
                if i < a.len() - 1 {
                    assert(a[i] == a0[i] && b[i] == b0[i]);
                }
            }
        }
    } else {
        assert(a =~= b);
    }
}

/// Lists of the same length with the same encoding are the same list.
pub proof fn lemma_g2_points_injective(a: Seq<G2Point>, b: Seq<G2Point>)
    requires
        a.len() == b.len(),
        g2_points_encoding(a) == g2_points_encoding(b),
    ensures
        a == b,
    decreases a.len(),
{
    if a.len() > 0 {
        let a0 = a.drop_last();
        let b0 = b.drop_last();
        lemma_g2_points_encoding_length(a0);
        lemma_g2_points_encoding_length(b0);
        let e = g2_points_encoding(a);
        let m = 96 * a0.len() as int;
        assert(e.subrange(0, m) =~= g2_points_encoding(a0));
        assert(e.subrange(0, m) =~= g2_points_encoding(b0));
        assert(e.subrange(m, e.len() as int) =~= a.last().encoding());
        assert(e.subrange(m, e.len() as int) =~= b.last().encoding());
        lemma_g2_points_injective(a0, b0);
        G2Point::lemma_encoding_determines(a.last(), b.last());
        assert(a =~= b) by {
            assert forall|i: int| 0 <= i < a.len() implies a[i] == b[i] by {
                if i < a.len() - 1 {
                    assert(a[i] == a0[i] && b[i] == b0[i]);
                }
            }
        }
    } else {
        assert(a =~= b);
    }
}

/// Length-prefixed lists with the same encoding are the same list.
pub proof fn lemma_g1_list_injective(a: Seq<G1Point>, b: Seq<G1Point>)
    requires
        a.len() <= usize::MAX,
        b.len() <= usize::MAX,
        g1_list_encoding(a) == g1_list_encoding(b),
    ensures
        a == b,
{
    lemma_usize_fits_le64(a.len());
    lemma_usize_fits_le64(b.len());
    crate::scalar::lemma_le_encode_value(a.len(), 8);
    crate::scalar::lemma_le_encode_value(b.len(), 8);
    let e = g1_list_encoding(a);
    assert(e.subrange(0, 8) =~= le64(a.len()));
    assert(e.subrange(0, 8) =~= le64(b.len()));
    assert(e.subrange(8, e.len() as int) =~= g1_points_encoding(a));
    assert(e.subrange(8, e.len() as int) =~= g1_points_encoding(b));
    lemma_g1_points_injective(a, b);
}

/// Length-prefixed lists with the same encoding are the same list.
pub proof fn lemma_g2_list_injective(a: Seq<G2Point>, b: Seq<G2Point>)
    requires
        a.len() <= usize::MAX,
        b.len() <= usize::MAX,
        g2_list_encoding(a) == g2_list_encoding(b),
    ensures
        a == b,
{
    lemma_usize_fits_le64(a.len());
    lemma_usize_fits_le64(b.len());
    crate::scalar::lemma_le_encode_value(a.len(), 8);
    crate::scalar::lemma_le_encode_value(b.len(), 8);
    let e = g2_list_encoding(a);
    assert(e.subrange(0, 8) =~= le64(a.len()));
    assert(e.subrange(0, 8) =~= le64(b.len()));
    assert(e.subrange(8, e.len() as int) =~= g2_points_encoding(a));
    assert(e.subrange(8, e.len() as int) =~= g2_points_encoding(b));
    lemma_g2_points_injective(a, b);
}

} // verus!
