//! Elements of the BLS12-381 scalar field.
//!
//! A [`Scalar`] holds the Montgomery limbs of a `dusk_curves` BLS scalar, so
//! every field operation is carried out by the curve library while the
//! library's contracts speak of the field value it denotes.

use dusk_curves::bls12_381::BlsScalar;
use vstd::prelude::*;

verus! {

/// The order `q` of the BLS12-381 scalar field.
pub open spec fn modulus() -> nat {
    0x73eda753299d7d483339d80809a1d80553bda402fffe5bfeffffffff00000001nat
}

/// The inverse of the Montgomery radix `2^256` modulo `q`.
pub open spec fn montgomery_radix_inverse() -> nat {
    0x1bbe869330009d577204078a4f77266aab6fca8f09dc705f13f75b69fe75c040nat
}

/// Field addition.
#[verifier::opaque]
pub open spec fn fadd(a: nat, b: nat) -> nat {
    (a + b) % modulus()
}

/// Field subtraction.
#[verifier::opaque]
pub open spec fn fsub(a: nat, b: nat) -> nat {
    ((a + modulus()) - (b % modulus())) as nat % modulus()
}

/// Field multiplication.
#[verifier::opaque]
pub open spec fn fmul(a: nat, b: nat) -> nat {
    (a * b) % modulus()
}

/// Field negation.
pub open spec fn fneg(a: nat) -> nat {
    fsub(0, a)
}

/// Field exponentiation `a^e mod q`.
pub open spec fn fpow(a: nat, e: nat) -> nat {
    (vstd::arithmetic::power::pow(a as int, e) % (modulus() as int)) as nat
}

/// `a^(e+1) = a^e · a` in the field.
pub proof fn lemma_fpow_step(a: nat, e: nat)
    ensures
        fpow(a, e + 1) == fmul(fpow(a, e), a),
        fpow(a, 0) == 1,
{
    reveal(fmul);
    vstd::arithmetic::power::lemma_pow0(a as int);
    vstd::arithmetic::power::lemma_pow_adds(a as int, e, 1);
    vstd::arithmetic::power::lemma_pow1(a as int);
    vstd::arithmetic::div_mod::lemma_mul_mod_noop_left(
        vstd::arithmetic::power::pow(a as int, e),
        a as int,
        modulus() as int,
    );
}

/// Little-endian value of a sequence of 64-bit limbs.
pub open spec fn limbs_value(limbs: Seq<u64>) -> nat
    decreases limbs.len(),
{
    if limbs.len() == 0 {
        0
    } else {
        limbs[0] as nat + 0x1_0000_0000_0000_0000nat * limbs_value(limbs.drop_first())
    }
}

/// Little-endian value of a byte string.
pub open spec fn le_bytes_value(bytes: Seq<u8>) -> nat
    decreases bytes.len(),
{
    if bytes.len() == 0 {
        0
    } else {
        bytes[0] as nat + 256 * le_bytes_value(bytes.drop_first())
    }
}

/// The first `n` little-endian base-256 digits of `value`.
pub open spec fn le_encode(value: nat, n: nat) -> Seq<u8>
    decreases n,
{
    if n == 0 {
        Seq::empty()
    } else {
        seq![(value % 256) as u8] + le_encode(value / 256, (n - 1) as nat)
    }
}

/// `256^n`.
pub open spec fn byte_power(n: nat) -> nat
    decreases n,
{
    if n == 0 {
        1
    } else {
        256 * byte_power((n - 1) as nat)
    }
}

/// Decoding an `n`-digit little-endian encoding gives back the value when it
/// fits in `n` digits.
pub proof fn lemma_le_encode_value(value: nat, n: nat)
    requires
        value < byte_power(n),
    ensures
        le_encode(value, n).len() == n,
        le_bytes_value(le_encode(value, n)) == value,
    decreases n,
{
    if n > 0 {
        let rest = le_encode(value / 256, (n - 1) as nat);
        assert(value / 256 < byte_power((n - 1) as nat)) by (nonlinear_arith)
            requires
                value < 256 * byte_power((n - 1) as nat),
        ;
        lemma_le_encode_value(value / 256, (n - 1) as nat);
        let s = seq![(value % 256) as u8] + rest;
        assert(s.drop_first() =~= rest);
    }
}

/// The field order fits in 32 bytes.
pub proof fn lemma_modulus_fits()
    ensures
        modulus() < byte_power(32),
{
    reveal_with_fuel(byte_power, 33);
}

/// The bytes `to_bytes` writes are read back by `from_bytes` as the same
/// value: the 32-byte little-endian encoding of a canonical value decodes
/// to that value, which is below the field order.
pub proof fn lemma_bytes_round_trip(value: nat)
    requires
        value < modulus(),
    ensures
        le_bytes_value(le_encode(value, 32)) == value,
        le_encode(value, 32).len() == 32,
{
    lemma_modulus_fits();
    lemma_le_encode_value(value, 32);
}

/// Field operations return canonical values.
pub broadcast proof fn lemma_fadd_canonical(a: nat, b: nat)
    ensures
        #[trigger] fadd(a, b) < modulus(),
{
    reveal(fadd);
}

/// Field operations return canonical values.
pub broadcast proof fn lemma_fsub_canonical(a: nat, b: nat)
    ensures
        #[trigger] fsub(a, b) < modulus(),
{
    reveal(fsub);
}

/// Field operations return canonical values.
pub broadcast proof fn lemma_fmul_canonical(a: nat, b: nat)
    ensures
        #[trigger] fmul(a, b) < modulus(),
{
    reveal(fmul);
}

/// `x + (m - x) ≡ 0 (mod m)`.
proof fn lemma_mod_negation_cancels(x: int, m: int)
    requires
        0 <= x < m,
    ensures
        (x + (m - x) % m) % m == 0,
{
    if x == 0 {
        assert((m - x) % m == 0) by {
            vstd::arithmetic::div_mod::lemma_mod_self_0(m);
        }
    } else {
        assert((m - x) % m == m - x) by {
            vstd::arithmetic::div_mod::lemma_small_mod((m - x) as nat, m as nat);
        }
        vstd::arithmetic::div_mod::lemma_mod_self_0(m);
    }
}

/// `x + ((m - 1) x mod m) ≡ 0 (mod m)`.
proof fn lemma_mod_minus_one_cancels(x: int, m: int)
    requires
        0 <= x < m,
    ensures
        (x + ((m - 1) * x) % m) % m == 0,
{
    vstd::arithmetic::div_mod::lemma_add_mod_noop_right(x, (m - 1) * x, m);
    assert(x + (m - 1) * x == x * m) by (nonlinear_arith);
    vstd::arithmetic::div_mod::lemma_mod_multiples_basic(x, m);
}

/// With `y · inv ≡ 1`, `c = x · (m - inv)` solves `x + y c ≡ 0 (mod m)`.
proof fn lemma_mod_solution(x: int, y: int, inv: int, m: int)
    requires
        0 <= x < m,
        0 <= y < m,
        0 <= inv < m,
        (y * inv) % m == 1,
    ensures
        (x + (y * ((x * ((m - inv) % m)) % m)) % m) % m == 0,
{
    let n = (m - inv) % m;
    let c = (x * n) % m;
    vstd::arithmetic::div_mod::lemma_add_mod_noop_right(x, y * c, m);
    vstd::arithmetic::div_mod::lemma_mul_mod_noop_right(y, x * n, m);
    vstd::arithmetic::div_mod::lemma_add_mod_noop_right(x, y * (x * n), m);
    vstd::arithmetic::div_mod::lemma_mul_mod_noop_right(y * x, m - inv, m);
    assert(y * (x * n) == (y * x) * n) by (nonlinear_arith);
    vstd::arithmetic::div_mod::lemma_add_mod_noop_right(x, (y * x) * (m - inv), m);
    let k = (y * inv) / m;
    vstd::arithmetic::div_mod::lemma_fundamental_div_mod(y * inv, m);
    assert(x + (y * x) * (m - inv) == m * (x * y - x * k)) by (nonlinear_arith)
        requires
            y * inv == m * k + 1,
    ;
    vstd::arithmetic::div_mod::lemma_mod_multiples_basic(x * y - x * k, m);
    assert(m * (x * y - x * k) == (x * y - x * k) * m) by (nonlinear_arith);
}

/// The field identities behind solving `x + y·c = 0` for `c`: with `y = 1`
/// the solution is `-x`, with `y = -1` it is `x`, and otherwise it is
/// `x · (-y⁻¹)`.
pub proof fn lemma_field_solution(x: nat, y: nat, inv: nat)
    requires
        x < modulus(),
        y < modulus(),
        inv < modulus(),
    ensures
        y == 1 ==> fadd(x, fmul(y, fneg(x))) == 0,
        y == fneg(1) ==> fadd(x, fmul(y, x)) == 0,
        fmul(y, inv) == 1 ==> fadd(x, fmul(y, fmul(x, fneg(inv)))) == 0,
{
    reveal(fadd);
    reveal(fmul);
    reveal(fsub);
    let m = modulus() as int;
    assert(fneg(x) == (m - x) % m) by {
        vstd::arithmetic::div_mod::lemma_small_mod(x, modulus());
        vstd::arithmetic::div_mod::lemma_small_mod(0, modulus());
    }
    assert(fneg(x) < m) by {
        vstd::arithmetic::div_mod::lemma_mod_bound(m - x, m);
    }
    if y == 1 {
        assert(fmul(y, fneg(x)) == fneg(x)) by {
            vstd::arithmetic::div_mod::lemma_small_mod(fneg(x), modulus());
        }
        lemma_mod_negation_cancels(x as int, m);
    }
    if y == fneg(1) {
        assert(fneg(1) == m - 1) by {
            vstd::arithmetic::div_mod::lemma_small_mod(1, modulus());
            vstd::arithmetic::div_mod::lemma_small_mod((m - 1) as nat, modulus());
        }
        lemma_mod_minus_one_cancels(x as int, m);
    }
    if fmul(y, inv) == 1 {
        assert(fneg(inv) == (m - inv) % m) by {
            vstd::arithmetic::div_mod::lemma_small_mod(inv, modulus());
            vstd::arithmetic::div_mod::lemma_small_mod(0, modulus());
        }
        lemma_mod_solution(x as int, y as int, inv as int, m);
    }
}

/// The only solution of `x - c = 0` is `c = x`.
pub proof fn lemma_minus_one_solution(x: nat, c: nat)
    requires
        x < modulus(),
        c < modulus(),
        fadd(x, fmul(fneg(1), c)) == 0,
    ensures
        c == x,
{
    reveal(fadd);
    reveal(fmul);
    reveal(fsub);
    let m = modulus() as int;
    assert(fneg(1) == m - 1) by {
        vstd::arithmetic::div_mod::lemma_small_mod(1, modulus());
        vstd::arithmetic::div_mod::lemma_small_mod((m - 1) as nat, modulus());
    }
    let t = ((m - 1) * c) % m;
    lemma_mod_minus_one_cancels(c as int, m);
    vstd::arithmetic::div_mod::lemma_mod_equivalence(x + t, c + t, m);
    vstd::arithmetic::div_mod::lemma_mod_equivalence(x as int, c as int, m);
    assert((x + t) - (c + t) == x - c);
    vstd::arithmetic::div_mod::lemma_small_mod(x, modulus());
    vstd::arithmetic::div_mod::lemma_small_mod(c, modulus());
}

/// An element of the BLS12-381 scalar field, kept in the Montgomery form used
/// by the curve library.
#[derive(Clone, Copy, Debug, PartialEq, Eq)]
pub struct Scalar {
    pub(crate) limbs: [u64; 4],
}

impl Scalar {
    /// Montgomery limbs are reduced modulo `q`.
    #[verifier::type_invariant]
    closed spec fn reduced(self) -> bool {
        limbs_value(self.limbs@) < modulus()
    }
}

impl View for Scalar {
    type V = nat;

    /// The field element denoted by the Montgomery limbs `a·2^256 mod q`.
    closed spec fn view(&self) -> nat {
        (limbs_value(self.limbs@) * montgomery_radix_inverse()) % modulus()
    }
}

impl Default for Scalar {
    /// The zero scalar.
    fn default() -> (r: Scalar)
        ensures
            r@ == 0,
    {
        Scalar::zero()
    }
}

/// Every scalar denotes a canonical field value.
pub broadcast proof fn lemma_scalar_canonical(s: Scalar)
    ensures
        #[trigger] s@ < modulus(),
{
}

impl Scalar {
    /// The additive identity.
    pub fn zero() -> (r: Scalar)
        ensures
            r@ == 0,
    {
        let limbs: [u64; 4] = [0, 0, 0, 0];
        assert(limbs_value(limbs@) == 0) by {
            assert(limbs@.drop_first().drop_first().drop_first().drop_first() =~= Seq::<u64>::empty());
            reveal_with_fuel(limbs_value, 5);
        }
        Scalar { limbs }
    }

    /// The multiplicative identity.
    pub fn one() -> (r: Scalar)
        ensures
            r@ == 1,
    {
        let limbs: [u64; 4] = [
            0x0000_0001_ffff_fffe,
            0x5884_b7fa_0003_4802,
            0x998c_4fef_ecbc_4ff5,
            0x1824_b159_acc5_056f,
        ];
        assert(limbs_value(limbs@)
            == 0x1824b159acc5056f998c4fefecbc4ff55884b7fa0003480200000001fffffffenat) by {
            assert(limbs@.drop_first().drop_first().drop_first().drop_first() =~= Seq::<u64>::empty());
            reveal_with_fuel(limbs_value, 5);
        }
        let r = Scalar { limbs };
        assert((0x1824b159acc5056f998c4fefecbc4ff55884b7fa0003480200000001fffffffenat
            * montgomery_radix_inverse()) % modulus() == 1);
        r
    }

    /// The scalar whose value is the integer `value`.
    #[verifier::external_body]
    pub fn from_u64(value: u64) -> (r: Scalar)
        ensures
            r@ == value as nat,
    {
        Scalar { limbs: BlsScalar::from(value).0 }
    }

    /// Field addition, computed by the curve library.
    #[verifier::external_body]
    pub fn add(&self, rhs: &Scalar) -> (r: Scalar)
        ensures
            r@ == fadd(self@, rhs@),
    {
        Scalar { limbs: (BlsScalar(self.limbs) + BlsScalar(rhs.limbs)).0 }
    }

    /// Field subtraction, computed by the curve library.
    #[verifier::external_body]
    pub fn sub(&self, rhs: &Scalar) -> (r: Scalar)
        ensures
            r@ == fsub(self@, rhs@),
    {
        Scalar { limbs: (BlsScalar(self.limbs) - BlsScalar(rhs.limbs)).0 }
    }

    /// Field multiplication, computed by the curve library.
    #[verifier::external_body]
    pub fn mul(&self, rhs: &Scalar) -> (r: Scalar)
        ensures
            r@ == fmul(self@, rhs@),
    {
        Scalar { limbs: (BlsScalar(self.limbs) * BlsScalar(rhs.limbs)).0 }
    }

    /// Field negation, computed by the curve library.
    #[verifier::external_body]
    pub fn neg(&self) -> (r: Scalar)
        ensures
            r@ == fneg(self@),
    {
        Scalar { limbs: (-BlsScalar(self.limbs)).0 }
    }

    /// Whether two scalars denote the same field element.
    #[verifier::external_body]
    pub fn equals(&self, rhs: &Scalar) -> (r: bool)
        ensures
            r == (self@ == rhs@),
    {
        BlsScalar(self.limbs) == BlsScalar(rhs.limbs)
    }

    /// Multiplicative inverse; `None` exactly for zero.
    #[verifier::external_body]
    pub fn invert(&self) -> (r: Option<Scalar>)
        ensures
            r is None <==> self@ == 0,
            r matches Some(inverse) ==> fmul(self@, inverse@) == 1,
    {
        match BlsScalar(self.limbs).invert() {
            Some(inverse) => Some(Scalar { limbs: inverse.0 }),
            None => None,
        }
    }

    /// Squaring, computed by the curve library.
    #[verifier::external_body]
    pub fn square(&self) -> (r: Scalar)
        ensures
            r@ == fmul(self@, self@),
    {
        Scalar { limbs: BlsScalar(self.limbs).square().0 }
    }

    /// `self^e`, computed by the curve library's square-and-multiply over the
    /// exponent `[e, 0, 0, 0]`.
    #[verifier::external_body]
    pub fn pow_u64(&self, e: u64) -> (r: Scalar)
        ensures
            r@ == fpow(self@, e as nat),
    {
        Scalar { limbs: BlsScalar(self.limbs).pow(&[e, 0, 0, 0]).0 }
    }

    /// `GENERATOR`, the field element 7 that generates the multiplicative
    /// group.
    #[verifier::external_body]
    pub fn multiplicative_generator() -> (r: Scalar)
        ensures
            r@ == 7,
    {
        Scalar { limbs: dusk_curves::bls12_381::GENERATOR.0 }
    }

    /// `ROOT_OF_UNITY`, the element `7^t` of order `2^32`, where
    /// `q - 1 = t·2^32` with `t` odd.
    #[verifier::external_body]
    pub fn root_of_unity() -> (r: Scalar)
        ensures
            r@ == 0x16a2a19edfe81f20d09b681922c813b4b63683508c2280b93829971f439f0d2bnat,
    {
        Scalar { limbs: dusk_curves::bls12_381::ROOT_OF_UNITY.0 }
    }

    /// Canonical little-endian encoding of the field value.
    #[verifier::external_body]
    pub fn to_bytes(&self) -> (r: [u8; 32])
        ensures
            r@ == le_encode(self@, 32),
    {
        BlsScalar(self.limbs).to_bytes()
    }

    /// Decode a canonical little-endian encoding; `None` when the encoded
    /// integer is not below the field order.
    #[verifier::external_body]
    pub fn from_bytes(bytes: &[u8; 32]) -> (r: Option<Scalar>)
        ensures
            r is Some <==> le_bytes_value(bytes@) < modulus(),
            r matches Some(s) ==> s@ == le_bytes_value(bytes@),
    {
        let decoded: Option<BlsScalar> = BlsScalar::from_bytes(bytes).into();
        match decoded {
            Some(s) => Some(Scalar { limbs: s.0 }),
            None => None,
        }
    }
}

} // verus!
