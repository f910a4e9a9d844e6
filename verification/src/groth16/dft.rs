//! The discrete Fourier transform over the scalar field and the facts the
//! radix-two transform rests on: bit reversal, splitting sums into even and
//! odd terms, and powers of a root of unity.

use vstd::arithmetic::power2::{lemma_pow2_unfold, pow2};
use vstd::prelude::*;

use super::fft::reverse_bits;
use crate::field::{
    field_sum, lemma_fadd_associates, lemma_fadd_commutes, lemma_fadd_zero, lemma_field_sum_canonical,
    lemma_fmul_associates, lemma_fmul_commutes, lemma_fmul_distributes,
};
use crate::scalar::{fadd, fmul, fneg, fpow, fsub, modulus};

verus! {

broadcast use {
    crate::scalar::lemma_fadd_canonical,
    crate::scalar::lemma_fmul_canonical,
    crate::scalar::lemma_fsub_canonical,
};

/// The field sum `Σ_{i<n} f(i)`.
pub open spec fn sum_of(f: spec_fn(int) -> nat, n: nat) -> nat {
    field_sum(Seq::new(n, f))
}

/// `Σ_{i<n+1} f(i) = Σ_{i<n} f(i) + f(n)`.
pub proof fn lemma_sum_push(f: spec_fn(int) -> nat, n: nat)
    ensures
        sum_of(f, n + 1) == fadd(sum_of(f, n), f(n as int)),
        sum_of(f, 0) == 0,
{
    assert(Seq::new(n + 1, f).drop_last() =~= Seq::new(n, f));
}

/// Sums of pointwise equal terms are equal.
pub proof fn lemma_sum_ext(f: spec_fn(int) -> nat, g: spec_fn(int) -> nat, n: nat)
    requires
        forall|i: int| 0 <= i < n ==> #[trigger] f(i) == g(i),
    ensures
        sum_of(f, n) == sum_of(g, n),
{
    assert(Seq::new(n, f) =~= Seq::new(n, g));
}

/// A sum is canonical.
pub proof fn lemma_sum_canonical(f: spec_fn(int) -> nat, n: nat)
    ensures
        sum_of(f, n) < modulus(),
{
    lemma_field_sum_canonical(Seq::new(n, f));
}

/// `(a + b) + (c + d) = (a + c) + (b + d)`.
proof fn lemma_fadd_interchange(a: nat, b: nat, c: nat, d: nat)
    ensures
        fadd(fadd(a, b), fadd(c, d)) == fadd(fadd(a, c), fadd(b, d)),
{
    lemma_fadd_associates(a, b, fadd(c, d));
    lemma_fadd_associates(b, c, d);
    lemma_fadd_commutes(b, c);
    lemma_fadd_associates(c, b, d);
    lemma_fadd_associates(a, c, fadd(b, d));
}

/// A sum over `2m` terms is the sum of its even terms plus the sum of its
/// odd terms.
pub proof fn lemma_sum_even_odd(f: spec_fn(int) -> nat, m: nat)
    ensures
        sum_of(f, 2 * m) == fadd(
            sum_of(|v: int| f(2 * v), m),
            sum_of(|v: int| f(2 * v + 1), m),
        ),
    decreases m,
{
    let even = |v: int| f(2 * v);
    let odd = |v: int| f(2 * v + 1);
    if m == 0 {
        lemma_sum_push(f, 0);
        lemma_sum_push(even, 0);
        lemma_sum_push(odd, 0);
        lemma_fadd_zero(0);
    } else {
        let k = (m - 1) as nat;
        lemma_sum_even_odd(f, k);
        lemma_sum_push(f, 2 * k);
        lemma_sum_push(f, 2 * k + 1);
        lemma_sum_push(even, k);
        lemma_sum_push(odd, k);
        assert(2 * k + 2 == 2 * m);
        lemma_fadd_associates(sum_of(f, 2 * k), f(2 * k as int), f(2 * k as int + 1));
        lemma_fadd_interchange(sum_of(even, k), sum_of(odd, k), f(2 * k as int), f(2 * k as int + 1));
    }
}

/// `Σ f(i)·c = (Σ f(i))·c`.
pub proof fn lemma_sum_scale(f: spec_fn(int) -> nat, n: nat, c: nat)
    ensures
        sum_of(|i: int| fmul(f(i), c), n) == fmul(sum_of(f, n), c),
    decreases n,
{
    if n == 0 {
        lemma_sum_push(f, 0);
        lemma_sum_push(|i: int| fmul(f(i), c), 0);
        reveal(fmul);
        assert(sum_of(f, 0) == 0);
        assert(fmul(0, c) == 0);
        assert(sum_of(|i: int| fmul(f(i), c), 0) == 0);
    } else {
        let k = (n - 1) as nat;
        lemma_sum_scale(f, k, c);
        lemma_sum_push(f, k);
        lemma_sum_push(|i: int| fmul(f(i), c), k);
        lemma_fmul_distributes(c, sum_of(f, k), f(k as int));
        assert(k + 1 == n);
        assert(sum_of(|i: int| fmul(f(i), c), n) == fadd(
            sum_of(|i: int| fmul(f(i), c), k),
            fmul(f(k as int), c),
        ));
        assert(sum_of(f, n) == fadd(sum_of(f, k), f(k as int)));
        assert(sum_of(|i: int| fmul(f(i), c), k) == fmul(sum_of(f, k), c));
        assert(fmul(sum_of(f, n), c) == fadd(fmul(sum_of(f, k), c), fmul(f(k as int), c)));
    }
}

/// `x^(a+b) = x^a · x^b`.
pub proof fn lemma_fpow_adds(x: nat, a: nat, b: nat)
    ensures
        fpow(x, a + b) == fmul(fpow(x, a), fpow(x, b)),
{
    reveal(fmul);
    let q = modulus() as int;
    vstd::arithmetic::power::lemma_pow_adds(x as int, a, b);
    vstd::arithmetic::div_mod::lemma_mul_mod_noop_general(
        vstd::arithmetic::power::pow(x as int, a),
        vstd::arithmetic::power::pow(x as int, b),
        q,
    );
}

/// `x^(a·b) = (x^a)^b`.
pub proof fn lemma_fpow_multiplies(x: nat, a: nat, b: nat)
    ensures
        fpow(x, a * b) == fpow(fpow(x, a), b),
{
    let q = modulus() as int;
    vstd::arithmetic::power::lemma_pow_multiplies(x as int, a, b);
    vstd::arithmetic::power::lemma_pow_mod_noop(vstd::arithmetic::power::pow(x as int, a), b, q);
}

/// `x^0 = 1` and `x^1 = x` for canonical `x`.
pub proof fn lemma_fpow_small(x: nat)
    requires
        x < modulus(),
    ensures
        fpow(x, 0) == 1,
        fpow(x, 1) == x,
{
    vstd::arithmetic::power::lemma_pow0(x as int);
    vstd::arithmetic::power::lemma_pow1(x as int);
    vstd::arithmetic::div_mod::lemma_small_mod(x, modulus());
    vstd::arithmetic::div_mod::lemma_small_mod(1, modulus());
}

/// Bit `i` of `v`.
pub open spec fn bit(v: nat, i: nat) -> nat {
    (v / pow2(i)) % 2
}

/// Bits below `n` are unchanged by adding a multiple of `2^n`, so neither
/// is the `n`-bit reversal.
pub proof fn lemma_reverse_low_bits(v: nat, c: nat, n: nat)
    ensures
        reverse_bits(v + c * pow2(n), n) == reverse_bits(v, n),
    decreases n,
{
    if n > 0 {
        let m = (n - 1) as nat;
        lemma_pow2_unfold(n);
        vstd::arithmetic::power2::lemma_pow2_pos(m);
        assert(c * pow2(n) == (2 * c) * pow2(m)) by (nonlinear_arith)
            requires
                pow2(n) == 2 * pow2(m),
        ;
        lemma_reverse_low_bits(v, 2 * c, m);
        vstd::arithmetic::div_mod::lemma_hoist_over_denominator(v as int, (2 * c) as int, pow2(m));
        assert((v + c * pow2(n)) / pow2(m) == v / pow2(m) + 2 * c);
        vstd::arithmetic::div_mod::lemma_mod_multiples_vanish(c as int, (v / pow2(m)) as int, 2);
        assert(((v + c * pow2(n)) / pow2(m)) % 2 == (v / pow2(m)) % 2);
    }
}

/// Reversing `2·b + t` over `n + 1` bits puts `t` on top of the reversal of
/// `b` over `n` bits.
pub proof fn lemma_reverse_shift(b: nat, t: nat, n: nat)
    requires
        t <= 1,
    ensures
        reverse_bits(2 * b + t, n + 1) == t * pow2(n) + reverse_bits(b, n),
    decreases n,
{
    vstd::arithmetic::power2::lemma2_to64();
    if n == 0 {
        assert(reverse_bits(2 * b + t, 0) == 0);
        assert((2 * b + t) / pow2(0) == 2 * b + t);
        assert((2 * b + t) % 2 == t);
    } else {
        let m = (n - 1) as nat;
        lemma_reverse_shift(b, t, m);
        lemma_pow2_unfold(n);
        vstd::arithmetic::power2::lemma_pow2_pos(m);
        assert((2 * b + t) / 2 == b);
        vstd::arithmetic::div_mod::lemma_div_denominator((2 * b + t) as int, 2, pow2(m) as int);
        assert((2 * b + t) / pow2(n) == b / pow2(m));
        assert(reverse_bits(2 * b + t, n + 1) == reverse_bits(2 * b + t, n) * 2 + ((2 * b + t)
            / pow2(n)) % 2);
        assert(reverse_bits(b, n) == reverse_bits(b, m) * 2 + (b / pow2(m)) % 2);
        assert(t * pow2(n) == 2 * (t * pow2(m))) by (nonlinear_arith)
            requires
                pow2(n) == 2 * pow2(m),
        ;
    }
}

/// Reversing `t·2^n + y` over `n + 1` bits, for `y < 2^n`, appends `t` below
/// the reversal of `y`.
pub proof fn lemma_reverse_top(y: nat, t: nat, n: nat)
    requires
        t <= 1,
        y < pow2(n),
    ensures
        reverse_bits(t * pow2(n) + y, n + 1) == 2 * reverse_bits(y, n) + t,
{
    lemma_reverse_low_bits(y, t, n);
    assert(t * pow2(n) + y == y + t * pow2(n));
    vstd::arithmetic::power2::lemma_pow2_pos(n);
    vstd::arithmetic::div_mod::lemma_hoist_over_denominator(y as int, t as int, pow2(n));
    vstd::arithmetic::div_mod::lemma_basic_div(y as int, pow2(n) as int);
    assert((y + t * pow2(n)) / pow2(n) == t);
}

/// Bit reversal is its own inverse and stays below `2^n`.
pub proof fn lemma_reverse_involution(v: nat, n: nat)
    requires
        v < pow2(n),
    ensures
        reverse_bits(v, n) < pow2(n),
        reverse_bits(reverse_bits(v, n), n) == v,
    decreases n,
{
    super::fft::lemma_reverse_bits_bound(v, n);
    if n == 0 {
        vstd::arithmetic::power2::lemma2_to64();
    } else {
        let m = (n - 1) as nat;
        lemma_pow2_unfold(n);
        let b = v / 2;
        let t = v % 2;
        assert(v == 2 * b + t);
        assert(b < pow2(m));
        lemma_reverse_shift(b, t, m);
        lemma_reverse_involution(b, m);
        lemma_reverse_top(reverse_bits(b, m), t, m);
    }
}

/// `x^(2e) = x^e · x^e`.
pub proof fn lemma_fpow_double(x: nat, e: nat)
    ensures
        fpow(x, e * 2) == fmul(fpow(x, e), fpow(x, e)),
{
    assert(e * 2 == e + e);
    lemma_fpow_adds(x, e, e);
}

/// The root of unity squared 31 times is `-1`: its order is exactly `2^32`.
pub proof fn lemma_root_of_unity_half_order()
    ensures
        fpow(super::fft::root_of_unity_value(), pow2(31)) == modulus() - 1,
        fpow(super::fft::root_of_unity_value(), pow2(32)) == 1,
{
    let x = super::fft::root_of_unity_value();
    reveal(fmul);
    assert(fmul(0x16a2a19edfe81f20d09b681922c813b4b63683508c2280b93829971f439f0d2bnat, 0x16a2a19edfe81f20d09b681922c813b4b63683508c2280b93829971f439f0d2bnat) == 0x4b5371495990693fad1715b02e5713b5f070bb00e28a193d63e7cb4906ffc93fnat);
    assert(fmul(0x4b5371495990693fad1715b02e5713b5f070bb00e28a193d63e7cb4906ffc93fnat, 0x4b5371495990693fad1715b02e5713b5f070bb00e28a193d63e7cb4906ffc93fnat) == 0x2c6d4e4511657e1e1339a815da8b398fed3a181fabb30adc694341f608c9dd56nat);
    assert(fmul(0x2c6d4e4511657e1e1339a815da8b398fed3a181fabb30adc694341f608c9dd56nat, 0x2c6d4e4511657e1e1339a815da8b398fed3a181fabb30adc694341f608c9dd56nat) == 0xc83ea7744bf1bee8da40c1ef2bb459884d37b826214abc6474650359d8e211bnat);
    assert(fmul(0xc83ea7744bf1bee8da40c1ef2bb459884d37b826214abc6474650359d8e211bnat, 0xc83ea7744bf1bee8da40c1ef2bb459884d37b826214abc6474650359d8e211bnat) == 0x52dd465e2f09425699e276b571905a7d6558e9e3f6ac7b41d7b688830a4f2089nat);
    assert(fmul(0x52dd465e2f09425699e276b571905a7d6558e9e3f6ac7b41d7b688830a4f2089nat, 0x52dd465e2f09425699e276b571905a7d6558e9e3f6ac7b41d7b688830a4f2089nat) == 0x23397a9300f8f98bece8ea224f31d25db94f1101b1d7a628e2d0a7869f0319ednat);
    assert(fmul(0x23397a9300f8f98bece8ea224f31d25db94f1101b1d7a628e2d0a7869f0319ednat, 0x23397a9300f8f98bece8ea224f31d25db94f1101b1d7a628e2d0a7869f0319ednat) == 0xa0a77a3b1980c0d116168bffbedc11d02c8118402867ddc531a11a0d2d75182nat);
    assert(fmul(0xa0a77a3b1980c0d116168bffbedc11d02c8118402867ddc531a11a0d2d75182nat, 0xa0a77a3b1980c0d116168bffbedc11d02c8118402867ddc531a11a0d2d75182nat) == 0x19fe632fd3287390454dc1edc61a1a3c0ba12bb3da64ca5ce32ef844e11a51enat);
    assert(fmul(0x19fe632fd3287390454dc1edc61a1a3c0ba12bb3da64ca5ce32ef844e11a51enat, 0x19fe632fd3287390454dc1edc61a1a3c0ba12bb3da64ca5ce32ef844e11a51enat) == 0x291cf6d68823e6876e0bcd91ee76273072cf6a8029b7d7bc92cf4deb77bd779cnat);
    assert(fmul(0x291cf6d68823e6876e0bcd91ee76273072cf6a8029b7d7bc92cf4deb77bd779cnat, 0x291cf6d68823e6876e0bcd91ee76273072cf6a8029b7d7bc92cf4deb77bd779cnat) == 0x73560252aa0655b25121af06a3b51e3cc631ffb2585a72db5616c57de0ec9eaenat);
    assert(fmul(0x73560252aa0655b25121af06a3b51e3cc631ffb2585a72db5616c57de0ec9eaenat, 0x73560252aa0655b25121af06a3b51e3cc631ffb2585a72db5616c57de0ec9eaenat) == 0xabe6a5e5abcaa32f2d38f10fbb8d1bbe08fec7c86389beec6e7a6ffb08e3363nat);
    assert(fmul(0xabe6a5e5abcaa32f2d38f10fbb8d1bbe08fec7c86389beec6e7a6ffb08e3363nat, 0xabe6a5e5abcaa32f2d38f10fbb8d1bbe08fec7c86389beec6e7a6ffb08e3363nat) == 0x47c8b5817018af4fc70d0874b0691d4e46b3105f04db5844cd3979122d3ea03anat);
    assert(fmul(0x47c8b5817018af4fc70d0874b0691d4e46b3105f04db5844cd3979122d3ea03anat, 0x47c8b5817018af4fc70d0874b0691d4e46b3105f04db5844cd3979122d3ea03anat) == 0x3e1c54bcb947035a57a6e07cb98de4a2f69e02d265e09d9fece7e0e39898d4bnat);
    assert(fmul(0x3e1c54bcb947035a57a6e07cb98de4a2f69e02d265e09d9fece7e0e39898d4bnat, 0x3e1c54bcb947035a57a6e07cb98de4a2f69e02d265e09d9fece7e0e39898d4bnat) == 0x520e587a724a6955df625e80d0adef90ad8e16e84419c750194e8c62ecb38d9dnat);
    assert(fmul(0x520e587a724a6955df625e80d0adef90ad8e16e84419c750194e8c62ecb38d9dnat, 0x520e587a724a6955df625e80d0adef90ad8e16e84419c750194e8c62ecb38d9dnat) == 0x2d3056a530794f01652f717ae1c34bb0bb97a3bf30ce40fd6f421a7d8ef674fbnat);
    assert(fmul(0x2d3056a530794f01652f717ae1c34bb0bb97a3bf30ce40fd6f421a7d8ef674fbnat, 0x2d3056a530794f01652f717ae1c34bb0bb97a3bf30ce40fd6f421a7d8ef674fbnat) == 0x224262332d8acbf4473a2eef772c33d6cd7f2bd6d0711b7d08692405f3b70f10nat);
    assert(fmul(0x224262332d8acbf4473a2eef772c33d6cd7f2bd6d0711b7d08692405f3b70f10nat, 0x224262332d8acbf4473a2eef772c33d6cd7f2bd6d0711b7d08692405f3b70f10nat) == 0x2155379d12180caa88f39a78f1aeb57867a665ae1fcadc91d7118f85cd96b8adnat);
    assert(fmul(0x2155379d12180caa88f39a78f1aeb57867a665ae1fcadc91d7118f85cd96b8adnat, 0x2155379d12180caa88f39a78f1aeb57867a665ae1fcadc91d7118f85cd96b8adnat) == 0x3291357ee558b50d483405417a0cbe39c8d5f51db3f32699fbd047e11279bb6enat);
    assert(fmul(0x3291357ee558b50d483405417a0cbe39c8d5f51db3f32699fbd047e11279bb6enat, 0x3291357ee558b50d483405417a0cbe39c8d5f51db3f32699fbd047e11279bb6enat) == 0x56624634b500a166dc86b01c0d477fa6ae4622f6a9152435034d2ff22a5ad9e1nat);
    assert(fmul(0x56624634b500a166dc86b01c0d477fa6ae4622f6a9152435034d2ff22a5ad9e1nat, 0x56624634b500a166dc86b01c0d477fa6ae4622f6a9152435034d2ff22a5ad9e1nat) == 0x485d512737b1da3d2ccddea2972e89ed146b58bc434906ac6fdd00bfc78c8967nat);
    assert(fmul(0x485d512737b1da3d2ccddea2972e89ed146b58bc434906ac6fdd00bfc78c8967nat, 0x485d512737b1da3d2ccddea2972e89ed146b58bc434906ac6fdd00bfc78c8967nat) == 0x564c0a11a0f704f4fc3e8acfe0f8245f0ad1347b378fbf96e206da11a5d36306nat);
    assert(fmul(0x564c0a11a0f704f4fc3e8acfe0f8245f0ad1347b378fbf96e206da11a5d36306nat, 0x564c0a11a0f704f4fc3e8acfe0f8245f0ad1347b378fbf96e206da11a5d36306nat) == 0x6d031f1b5c49c83409f1ca610a08f16655ea6811be9c622d4a838b5d59cd79e5nat);
    assert(fmul(0x6d031f1b5c49c83409f1ca610a08f16655ea6811be9c622d4a838b5d59cd79e5nat, 0x6d031f1b5c49c83409f1ca610a08f16655ea6811be9c622d4a838b5d59cd79e5nat) == 0x325db5c3debf77a18f4de02c0f776af3ea437f9626fc085e3c28d666a5c2d854nat);
    assert(fmul(0x325db5c3debf77a18f4de02c0f776af3ea437f9626fc085e3c28d666a5c2d854nat, 0x325db5c3debf77a18f4de02c0f776af3ea437f9626fc085e3c28d666a5c2d854nat) == 0x95166525526a65439feec240d80689fd697168a3a6000fe4541b8ff2ee0434enat);
    assert(fmul(0x95166525526a65439feec240d80689fd697168a3a6000fe4541b8ff2ee0434enat, 0x95166525526a65439feec240d80689fd697168a3a6000fe4541b8ff2ee0434enat) == 0x4f9b4098e2e9f12e6b368121ac0cf4ad0a0865a899e8deff4935bd2f817f694bnat);
    assert(fmul(0x4f9b4098e2e9f12e6b368121ac0cf4ad0a0865a899e8deff4935bd2f817f694bnat, 0x4f9b4098e2e9f12e6b368121ac0cf4ad0a0865a899e8deff4935bd2f817f694bnat) == 0x6898111413588742b7c68b4d7fdd60d098d0caac87f5713c5130c2c1660125benat);
    assert(fmul(0x6898111413588742b7c68b4d7fdd60d098d0caac87f5713c5130c2c1660125benat, 0x6898111413588742b7c68b4d7fdd60d098d0caac87f5713c5130c2c1660125benat) == 0x45af6345ec055e4d14a1e27164d8fdbd2d967f4be2f951558140d032f0a9ee53nat);
    assert(fmul(0x45af6345ec055e4d14a1e27164d8fdbd2d967f4be2f951558140d032f0a9ee53nat, 0x45af6345ec055e4d14a1e27164d8fdbd2d967f4be2f951558140d032f0a9ee53nat) == 0x50e0903a157988bab4bcd40e22f55448bf6e88fb4c38fb8a360c60997369df4enat);
    assert(fmul(0x50e0903a157988bab4bcd40e22f55448bf6e88fb4c38fb8a360c60997369df4enat, 0x50e0903a157988bab4bcd40e22f55448bf6e88fb4c38fb8a360c60997369df4enat) == 0x20b1ce9140267af9dd1c0af834cec32c17beb312f20b6f7653ea61d87742bccenat);
    assert(fmul(0x20b1ce9140267af9dd1c0af834cec32c17beb312f20b6f7653ea61d87742bccenat, 0x20b1ce9140267af9dd1c0af834cec32c17beb312f20b6f7653ea61d87742bccenat) == 0x345766f603fa66e78c0625cd70d77ce2b38b21c28713b7007228fd3397743f7anat);
    assert(fmul(0x345766f603fa66e78c0625cd70d77ce2b38b21c28713b7007228fd3397743f7anat, 0x345766f603fa66e78c0625cd70d77ce2b38b21c28713b7007228fd3397743f7anat) == 0x8d51ccce760304d0ec030002760300000001000000000000nat);
    assert(fmul(0x8d51ccce760304d0ec030002760300000001000000000000nat, 0x8d51ccce760304d0ec030002760300000001000000000000nat) == 0x73eda753299d7d483339d80809a1d80553bda402fffe5bfeffffffff00000000nat);
    lemma_fpow_small(x);
    vstd::arithmetic::power2::lemma2_to64();
    lemma_fpow_double(x, pow2(0));
    lemma_pow2_unfold(1);
    lemma_fpow_double(x, pow2(1));
    lemma_pow2_unfold(2);
    lemma_fpow_double(x, pow2(2));
    lemma_pow2_unfold(3);
    lemma_fpow_double(x, pow2(3));
    lemma_pow2_unfold(4);
    lemma_fpow_double(x, pow2(4));
    lemma_pow2_unfold(5);
    lemma_fpow_double(x, pow2(5));
    lemma_pow2_unfold(6);
    lemma_fpow_double(x, pow2(6));
    lemma_pow2_unfold(7);
    lemma_fpow_double(x, pow2(7));
    lemma_pow2_unfold(8);
    lemma_fpow_double(x, pow2(8));
    lemma_pow2_unfold(9);
    lemma_fpow_double(x, pow2(9));
    lemma_pow2_unfold(10);
    lemma_fpow_double(x, pow2(10));
    lemma_pow2_unfold(11);
    lemma_fpow_double(x, pow2(11));
    lemma_pow2_unfold(12);
    lemma_fpow_double(x, pow2(12));
    lemma_pow2_unfold(13);
    lemma_fpow_double(x, pow2(13));
    lemma_pow2_unfold(14);
    lemma_fpow_double(x, pow2(14));
    lemma_pow2_unfold(15);
    lemma_fpow_double(x, pow2(15));
    lemma_pow2_unfold(16);
    lemma_fpow_double(x, pow2(16));
    lemma_pow2_unfold(17);
    lemma_fpow_double(x, pow2(17));
    lemma_pow2_unfold(18);
    lemma_fpow_double(x, pow2(18));
    lemma_pow2_unfold(19);
    lemma_fpow_double(x, pow2(19));
    lemma_pow2_unfold(20);
    lemma_fpow_double(x, pow2(20));
    lemma_pow2_unfold(21);
    lemma_fpow_double(x, pow2(21));
    lemma_pow2_unfold(22);
    lemma_fpow_double(x, pow2(22));
    lemma_pow2_unfold(23);
    lemma_fpow_double(x, pow2(23));
    lemma_pow2_unfold(24);
    lemma_fpow_double(x, pow2(24));
    lemma_pow2_unfold(25);
    lemma_fpow_double(x, pow2(25));
    lemma_pow2_unfold(26);
    lemma_fpow_double(x, pow2(26));
    lemma_pow2_unfold(27);
    lemma_fpow_double(x, pow2(27));
    lemma_pow2_unfold(28);
    lemma_fpow_double(x, pow2(28));
    lemma_pow2_unfold(29);
    lemma_fpow_double(x, pow2(29));
    lemma_pow2_unfold(30);
    lemma_fpow_double(x, pow2(30));
    lemma_pow2_unfold(31);
    lemma_fpow_double(x, pow2(31));
    lemma_pow2_unfold(32);
    assert(fmul((modulus() - 1) as nat, (modulus() - 1) as nat) == 1);
}

/// `w^(2^(levels-1)) = -1`: `w` turns half way round in `2^(levels-1)`
/// steps, so it has order exactly `2^levels`.
pub open spec fn half_turn(w: nat, levels: nat) -> bool {
    levels == 0 || fpow(w, pow2((levels - 1) as nat)) == modulus() - 1
}

/// The transform `Σ_j a_j·w^(j·k)` of `a` at `k`.
pub open spec fn dft(a: Seq<nat>, w: nat, k: nat) -> nat {
    sum_of(|j: int| fmul(a[j], fpow(w, (j * k) as nat)), a.len())
}

/// After `s` rounds of butterflies over `2^levels` entries, the value of
/// entry `k` of block `b`: the transform of size `2^s`, with root
/// `w^(2^(levels-s))`, of the entries of `a` congruent to the `levels-s`-bit
/// reversal of `b` modulo `2^(levels-s)`.
pub open spec fn block_value(a: Seq<nat>, w: nat, levels: nat, s: nat, b: nat, k: nat) -> nat {
    let stride = pow2((levels - s) as nat);
    let c = reverse_bits(b, (levels - s) as nat);
    sum_of(
        |u: int| fmul(a[c + u * stride], fpow(fpow(w, stride), (u * k) as nat)),
        pow2(s),
    )
}

/// `e + o·(t·(-1)) = e - o·t`.
proof fn lemma_add_negated(e: nat, o: nat, t: nat)
    requires
        e < modulus(),
    ensures
        fadd(e, fmul(o, fmul(t, (modulus() - 1) as nat))) == fsub(e, fmul(o, t)),
{
    let minus = (modulus() - 1) as nat;
    assert(fneg(1) == minus) by {
        reveal(fsub);
        vstd::arithmetic::div_mod::lemma_small_mod(1, modulus());
        vstd::arithmetic::div_mod::lemma_small_mod(minus, modulus());
    }
    lemma_fmul_associates(o, t, minus);
    lemma_fmul_commutes(fmul(o, t), minus);
    crate::field::lemma_fsub_as_add(e, fmul(o, t));
}

/// `w^(2^levels) = 1` for a half-turn root.
pub proof fn lemma_full_turn(w: nat, levels: nat)
    requires
        half_turn(w, levels),
        levels > 0,
    ensures
        fpow(w, pow2(levels)) == 1,
{
    lemma_pow2_unfold(levels);
    assert(pow2(levels) == pow2((levels - 1) as nat) * 2);
    lemma_fpow_double(w, pow2((levels - 1) as nat));
    crate::field::lemma_minus_one_squared();
    let minus = (modulus() - 1) as nat;
    assert(fneg(1) == minus) by {
        reveal(fsub);
        vstd::arithmetic::div_mod::lemma_small_mod(1, modulus());
        vstd::arithmetic::div_mod::lemma_small_mod(minus, modulus());
    }
}

/// `1^e = 1`.
pub proof fn lemma_fpow_of_one(e: nat)
    ensures
        fpow(1, e) == 1,
{
    vstd::arithmetic::power::lemma1_pow(e);
    vstd::arithmetic::div_mod::lemma_small_mod(1, modulus());
}

/// A block transform repeats with period `2^s`.
proof fn lemma_block_periodic(a: Seq<nat>, w: nat, levels: nat, s: nat, b: nat, k: nat)
    requires
        s <= levels,
        levels > 0,
        half_turn(w, levels),
    ensures
        block_value(a, w, levels, s, b, k + pow2(s)) == block_value(a, w, levels, s, b, k),
{
    let stride = pow2((levels - s) as nat);
    let c = reverse_bits(b, (levels - s) as nat);
    let ws = fpow(w, stride);
    let m = pow2(s);
    vstd::arithmetic::power2::lemma_pow2_adds((levels - s) as nat, s);
    assert((levels - s) as nat + s == levels);
    lemma_fpow_multiplies(w, stride, m);
    lemma_full_turn(w, levels);
    assert(fpow(ws, m) == 1);
    assert forall|u: int| 0 <= u < m implies #[trigger] fmul(
        a[c + u * stride],
        fpow(ws, (u * (k + m)) as nat),
    ) == fmul(a[c + u * stride], fpow(ws, (u * k) as nat)) by {
        assert(u * (k + m) == u * k + u * m) by (nonlinear_arith);
        assert(u * m == m * u) by (nonlinear_arith);
        assert(u * k >= 0 && u * m >= 0) by (nonlinear_arith)
            requires
                u >= 0,
        ;
        lemma_fpow_adds(ws, (u * k) as nat, (u * m) as nat);
        lemma_fpow_multiplies(ws, m, u as nat);
        lemma_fpow_of_one(u as nat);
        crate::field::lemma_fmul_unit(fpow(ws, (u * k) as nat));
        crate::scalar::lemma_fmul_canonical(fpow(ws, (u * k) as nat), 1);
        reveal(fmul);
        vstd::arithmetic::div_mod::lemma_mod_bound((vstd::arithmetic::power::pow(ws as int, (u * k) as nat)), modulus() as int);
    }
    lemma_sum_ext(
        |u: int| fmul(a[c + u * stride], fpow(ws, (u * (k + m)) as nat)),
        |u: int| fmul(a[c + u * stride], fpow(ws, (u * k) as nat)),
        m,
    );
}

/// One round of butterflies: block `b` of round `s + 1` at `k` and at
/// `k + 2^s` combines blocks `2b` and `2b + 1` of round `s` with the
/// twiddle `W^k`, where `W = w^(2^(levels-s-1))`.
pub proof fn lemma_butterfly(a: Seq<nat>, w: nat, levels: nat, s: nat, b: nat, k: nat)
    requires
        s < levels,
        half_turn(w, levels),
    ensures
        ({
            let twiddle = fpow(fpow(w, pow2((levels - s - 1) as nat)), k);
            let even = block_value(a, w, levels, s, 2 * b, k);
            let odd = block_value(a, w, levels, s, 2 * b + 1, k);
            &&& block_value(a, w, levels, s + 1, b, k) == fadd(even, fmul(odd, twiddle))
            &&& block_value(a, w, levels, s + 1, b, k + pow2(s)) == fsub(
                even,
                fmul(odd, twiddle),
            )
        }),
{
    let d = pow2((levels - s - 1) as nat);
    let stride = pow2((levels - s) as nat);
    let m = pow2(s);
    let big = fpow(w, d);
    let ws = fpow(w, stride);
    let c = reverse_bits(b, (levels - s - 1) as nat);
    lemma_pow2_unfold((levels - s) as nat);
    assert(stride == d * 2);
    lemma_pow2_unfold(s + 1);
    assert(pow2(s + 1) == 2 * m);
    lemma_fpow_multiplies(w, d, 2);
    assert(ws == fpow(big, 2));
    lemma_reverse_shift(b, 0, (levels - s - 1) as nat);
    lemma_reverse_shift(b, 1, (levels - s - 1) as nat);
    assert((levels - s - 1) as nat + 1 == (levels - s) as nat);
    assert(reverse_bits(2 * b, (levels - s) as nat) == c);
    assert(reverse_bits(2 * b + 1, (levels - s) as nat) == d + c);
    let c1 = d + c;
    assert forall|kk: nat| true implies {
        &&& block_value(a, w, levels, s + 1, b, kk) == fadd(
            block_value(a, w, levels, s, 2 * b, kk),
            fmul(block_value(a, w, levels, s, 2 * b + 1, kk), fpow(big, kk)),
        )
    } by {
        let f = |u: int| fmul(a[c + u * d], fpow(big, (u * kk) as nat));
        assert(block_value(a, w, levels, s + 1, b, kk) == sum_of(f, 2 * m));
        lemma_sum_even_odd(f, m);
        let even_direct = |v: int| fmul(a[c + v * stride], fpow(ws, (v * kk) as nat));
        assert forall|v: int| 0 <= v < m implies #[trigger] f(2 * v) == even_direct(v) by {
            assert(c + (2 * v) * d == c + v * stride) by (nonlinear_arith)
                requires
                    stride == d * 2,
            ;
            assert((2 * v) * kk == 2 * (v * kk)) by (nonlinear_arith);
            assert(v * kk >= 0) by (nonlinear_arith)
                requires
                    v >= 0,
            ;
            lemma_fpow_multiplies(big, 2, (v * kk) as nat);
        }
        lemma_sum_ext(|v: int| f(2 * v), even_direct, m);
        assert(block_value(a, w, levels, s, 2 * b, kk) == sum_of(even_direct, m));
        let odd_direct = |v: int| fmul(a[c1 + v * stride], fpow(ws, (v * kk) as nat));
        assert forall|v: int| 0 <= v < m implies #[trigger] f(2 * v + 1) == fmul(
            odd_direct(v),
            fpow(big, kk),
        ) by {
            assert(c + (2 * v + 1) * d == c1 + v * stride) by (nonlinear_arith)
                requires
                    stride == d * 2,
                    c1 == d + c,
            ;
            assert((2 * v + 1) * kk == 2 * (v * kk) + kk) by (nonlinear_arith);
            assert(v * kk >= 0) by (nonlinear_arith)
                requires
                    v >= 0,
            ;
            lemma_fpow_adds(big, (2 * (v * kk)) as nat, kk);
            lemma_fpow_multiplies(big, 2, (v * kk) as nat);
            lemma_fmul_associates(
                a[c1 + v * stride],
                fpow(ws, (v * kk) as nat),
                fpow(big, kk),
            );
        }
        lemma_sum_ext(
            |v: int| f(2 * v + 1),
            |v: int| fmul(odd_direct(v), fpow(big, kk)),
            m,
        );
        lemma_sum_scale(odd_direct, m, fpow(big, kk));
        assert(block_value(a, w, levels, s, 2 * b + 1, kk) == sum_of(odd_direct, m));
    }
    let twiddle = fpow(big, k);
    let even = block_value(a, w, levels, s, 2 * b, k);
    let odd = block_value(a, w, levels, s, 2 * b + 1, k);
    lemma_block_periodic(a, w, levels, s, 2 * b, k);
    lemma_block_periodic(a, w, levels, s, 2 * b + 1, k);
    lemma_fpow_adds(big, k, m);
    lemma_fpow_multiplies(w, d, m);
    vstd::arithmetic::power2::lemma_pow2_adds((levels - s - 1) as nat, s);
    assert((levels - s - 1) as nat + s == (levels - 1) as nat);
    assert(fpow(big, m) == modulus() - 1);
    lemma_sum_canonical(
        |u: int| fmul(a[reverse_bits(2 * b, (levels - s) as nat) + u * stride], fpow(ws, (u * k) as nat)),
        m,
    );
    lemma_add_negated(even, odd, twiddle);
}

/// Before any round, entry `b` is the input entry at the reversal of `b`.
pub proof fn lemma_block_start(a: Seq<nat>, w: nat, levels: nat, b: nat)
    requires
        reverse_bits(b, levels) < a.len(),
        a[reverse_bits(b, levels) as int] < modulus(),
    ensures
        block_value(a, w, levels, 0, b, 0) == a[reverse_bits(b, levels) as int],
{
    vstd::arithmetic::power2::lemma2_to64();
    let stride = pow2(levels);
    let c = reverse_bits(b, levels);
    let f = |u: int| fmul(a[c + u * stride], fpow(fpow(w, stride), (u * 0) as nat));
    lemma_sum_push(f, 0);
    vstd::arithmetic::power::lemma_pow0(fpow(w, stride) as int);
    vstd::arithmetic::div_mod::lemma_small_mod(1, modulus());
    assert(fpow(fpow(w, stride), 0) == 1);
    crate::field::lemma_fmul_unit(a[c as int]);
    crate::field::lemma_fadd_zero(a[c as int]);
    assert(f(0) == a[c as int]);
}

/// After every round, the single block is the transform of the input.
pub proof fn lemma_block_final(a: Seq<nat>, w: nat, levels: nat, k: nat)
    requires
        a.len() == pow2(levels),
        w < modulus(),
    ensures
        block_value(a, w, levels, levels, 0, k) == dft(a, w, k),
{
    vstd::arithmetic::power2::lemma2_to64();
    assert(reverse_bits(0, 0) == 0);
    lemma_fpow_small(w);
    lemma_sum_ext(
        |u: int| fmul(a[0 + u * pow2(0)], fpow(fpow(w, pow2(0)), (u * k) as nat)),
        |j: int| fmul(a[j], fpow(w, (j * k) as nat)),
        a.len(),
    );
}

/// `(x·y)^e = x^e · y^e`.
pub proof fn lemma_fpow_distributes(x: nat, y: nat, e: nat)
    ensures
        fpow(fmul(x, y), e) == fmul(fpow(x, e), fpow(y, e)),
{
    reveal(fmul);
    let q = modulus() as int;
    vstd::arithmetic::power::lemma_pow_mod_noop((x * y) as int, e, q);
    vstd::arithmetic::power::lemma_pow_distributes(x as int, y as int, e);
    vstd::arithmetic::div_mod::lemma_mul_mod_noop_general(
        vstd::arithmetic::power::pow(x as int, e),
        vstd::arithmetic::power::pow(y as int, e),
        q,
    );
}

/// The inverse of a half-turn root is a half-turn root.
pub proof fn lemma_inverse_half_turn(w: nat, inverse: nat, levels: nat)
    requires
        half_turn(w, levels),
        fmul(w, inverse) == 1,
    ensures
        half_turn(inverse, levels),
{
    if levels > 0 {
        let h = pow2((levels - 1) as nat);
        let y = fpow(inverse, h);
        let minus = (modulus() - 1) as nat;
        lemma_fpow_distributes(w, inverse, h);
        lemma_fpow_of_one(h);
        assert(fmul(minus, y) == 1);
        crate::field::lemma_minus_one_squared();
        assert(fneg(1) == minus) by {
            reveal(fsub);
            vstd::arithmetic::div_mod::lemma_small_mod(1, modulus());
            vstd::arithmetic::div_mod::lemma_small_mod(minus, modulus());
        }
        lemma_fmul_associates(minus, minus, y);
        reveal(fpow);
        assert(y < modulus()) by {
            vstd::arithmetic::div_mod::lemma_mod_bound(
                vstd::arithmetic::power::pow(inverse as int, h),
                modulus() as int,
            );
        }
        crate::field::lemma_fmul_unit(y);
        crate::field::lemma_fmul_unit(minus);
    }
}

/// The domain generator `ROOT_OF_UNITY^(2^(32-levels))` is a half-turn
/// root for `levels`.
pub proof fn lemma_domain_half_turn(levels: nat)
    requires
        levels < 32,
    ensures
        half_turn(fpow(super::fft::root_of_unity_value(), pow2((32 - levels) as nat)), levels),
{
    if levels > 0 {
        lemma_root_of_unity_half_order();
        lemma_fpow_multiplies(
            super::fft::root_of_unity_value(),
            pow2((32 - levels) as nat),
            pow2((levels - 1) as nat),
        );
        vstd::arithmetic::power2::lemma_pow2_adds((32 - levels) as nat, (levels - 1) as nat);
        assert((32 - levels) as nat + (levels - 1) as nat == 31);
    }
}

/// `Σ (f(i) + g(i)) = Σ f(i) + Σ g(i)`.
pub proof fn lemma_sum_add(f: spec_fn(int) -> nat, g: spec_fn(int) -> nat, n: nat)
    ensures
        sum_of(|i: int| fadd(f(i), g(i)), n) == fadd(sum_of(f, n), sum_of(g, n)),
    decreases n,
{
    if n == 0 {
        lemma_sum_push(f, 0);
        lemma_sum_push(g, 0);
        lemma_sum_push(|i: int| fadd(f(i), g(i)), 0);
        lemma_fadd_zero(0);
    } else {
        let k = (n - 1) as nat;
        lemma_sum_add(f, g, k);
        lemma_sum_push(f, k);
        lemma_sum_push(g, k);
        lemma_sum_push(|i: int| fadd(f(i), g(i)), k);
        lemma_fadd_interchange(sum_of(f, k), sum_of(g, k), f(k as int), g(k as int));
    }
}

/// `Σ_j g(i, j)` over `j < m`.
pub open spec fn row_sum(g: spec_fn(int, int) -> nat, i: int, m: nat) -> nat {
    sum_of(|j: int| g(i, j), m)
}

/// `Σ_i g(i, j)` over `i < n`.
pub open spec fn column_sum(g: spec_fn(int, int) -> nat, j: int, n: nat) -> nat {
    sum_of(|i: int| g(i, j), n)
}

/// The order of a double sum can be exchanged.
pub proof fn lemma_sum_swap(g: spec_fn(int, int) -> nat, n: nat, m: nat)
    ensures
        sum_of(|j: int| column_sum(g, j, n), m) == sum_of(|i: int| row_sum(g, i, m), n),
    decreases m,
{
    if m == 0 {
        lemma_sum_push(|j: int| column_sum(g, j, n), 0);
        assert forall|i: int| 0 <= i < n implies #[trigger] row_sum(g, i, 0) == 0 by {
            lemma_sum_push(|j: int| g(i, j), 0);
        }
        lemma_sum_ext(|i: int| row_sum(g, i, 0), |i: int| 0nat, n);
        lemma_sum_zero(n);
    } else {
        let k = (m - 1) as nat;
        let rk = |i: int| row_sum(g, i, k);
        let rm = |i: int| row_sum(g, i, m);
        let ck = |i: int| g(i, k as int);
        let cs = |j: int| column_sum(g, j, n);
        lemma_sum_swap(g, n, k);
        assert(sum_of(cs, k) == sum_of(rk, n));
        lemma_sum_push(cs, k);
        assert(column_sum(g, k as int, n) == sum_of(ck, n)) by {
            assert((|i: int| g(i, k as int)) =~= ck);
        }
        assert forall|i: int| 0 <= i < n implies #[trigger] rm(i) == fadd(rk(i), ck(i)) by {
            lemma_sum_push(|j: int| g(i, j), k);
        }
        lemma_sum_ext(rm, |i: int| fadd(rk(i), ck(i)), n);
        lemma_sum_add(rk, ck, n);
        assert(sum_of(cs, m) == fadd(sum_of(cs, k), cs(k as int)));
    }
}

/// A sum of zeros is zero.
pub proof fn lemma_sum_zero(n: nat)
    ensures
        sum_of(|i: int| 0nat, n) == 0,
    decreases n,
{
    lemma_sum_push(|i: int| 0nat, 0);
    if n > 0 {
        lemma_sum_zero((n - 1) as nat);
        lemma_sum_push(|i: int| 0nat, (n - 1) as nat);
        lemma_fadd_zero(0);
    }
}

/// A sum whose terms vanish except at `k` is its term at `k`.
pub proof fn lemma_sum_single(f: spec_fn(int) -> nat, n: nat, k: int)
    requires
        0 <= k < n,
        f(k) < modulus(),
        forall|i: int| 0 <= i < n && i != k ==> #[trigger] f(i) == 0,
    ensures
        sum_of(f, n) == f(k),
    decreases n,
{
    lemma_sum_push(f, 0);
    let last = (n - 1) as nat;
    lemma_sum_push(f, last);
    if k == last {
        if last > 0 {
            lemma_sum_ext(f, |i: int| 0nat, last);
            lemma_sum_zero(last);
        }
        lemma_fadd_zero(f(k));
    } else {
        lemma_sum_single(f, last, k);
        lemma_fadd_zero(f(k));
    }
}

/// A sum over `2m` terms is the sum of its first half plus the sum of its
/// second half.
pub proof fn lemma_sum_halves(f: spec_fn(int) -> nat, m: nat)
    ensures
        sum_of(f, 2 * m) == fadd(sum_of(f, m), sum_of(|j: int| f(j + m), m)),
{
    crate::field::lemma_field_sum_concat(Seq::new(m, f), Seq::new(m, |j: int| f(j + m)));
    assert(Seq::new(m, f) + Seq::new(m, |j: int| f(j + m)) =~= Seq::new(2 * m, f));
}


/// Field powers are canonical.
pub proof fn lemma_fpow_canonical(x: nat, e: nat)
    ensures
        fpow(x, e) < modulus(),
{
    vstd::arithmetic::div_mod::lemma_mod_bound(
        vstd::arithmetic::power::pow(x as int, e),
        modulus() as int,
    );
}

/// `(-1)^o = -1` for odd `o`.
proof fn lemma_minus_one_odd_power(o: nat)
    requires
        o % 2 == 1,
    ensures
        fpow((modulus() - 1) as nat, o) == modulus() - 1,
    decreases o,
{
    let minus = (modulus() - 1) as nat;
    lemma_fpow_small(minus);
    if o > 1 {
        let p = (o - 2) as nat;
        lemma_minus_one_odd_power(p);
        lemma_fpow_adds(minus, p, 2);
        lemma_fpow_double(minus, 1);
        crate::field::lemma_minus_one_squared();
        assert(fneg(1) == minus) by {
            reveal(fsub);
            vstd::arithmetic::div_mod::lemma_small_mod(1, modulus());
            vstd::arithmetic::div_mod::lemma_small_mod(minus, modulus());
        }
        crate::field::lemma_fmul_unit(minus);
        assert(p + 2 == o);
    }
}

/// `Σ_{k<2^levels} x^k`.
pub open spec fn geometric(x: nat, levels: nat) -> nat {
    sum_of(|k: int| fpow(x, k as nat), pow2(levels))
}

/// `Σ_{k<2^L} x^k = (1 + x^(2^(L-1))) · Σ_{k<2^(L-1)} x^k`.
proof fn lemma_geometric_split(x: nat, levels: nat)
    requires
        levels > 0,
    ensures
        geometric(x, levels) == fmul(
            fadd(1, fpow(x, pow2((levels - 1) as nat))),
            geometric(x, (levels - 1) as nat),
        ),
{
    let m = pow2((levels - 1) as nat);
    let xm = fpow(x, m);
    let f = |k: int| fpow(x, k as nat);
    let shifted = |j: int| f(j + m);
    let scaled = |j: int| fmul(f(j), xm);
    lemma_pow2_unfold(levels);
    lemma_sum_halves(f, m);
    assert forall|j: int| 0 <= j < m implies #[trigger] shifted(j) == scaled(j) by {
        lemma_fpow_adds(x, j as nat, m);
        assert((j + m) as nat == j as nat + m);
    }
    lemma_sum_ext(shifted, scaled, m);
    lemma_sum_scale(f, m, xm);
    let g = sum_of(f, m);
    assert(geometric(x, (levels - 1) as nat) == g);
    assert(geometric(x, levels) == sum_of(f, 2 * m));
    lemma_sum_canonical(f, m);
    crate::field::lemma_fmul_distributes(g, 1, xm);
    crate::field::lemma_fmul_unit(g);
    lemma_fmul_commutes(xm, g);
    lemma_fmul_commutes(fadd(1, xm), g);
}

/// For `w` of order `2^levels` and `0 < d < 2^levels`,
/// `Σ_{k<2^levels} (w^d)^k = 0`.
pub proof fn lemma_geometric_vanishes(w: nat, levels: nat, d: nat)
    requires
        half_turn(w, levels),
        0 < d < pow2(levels),
    ensures
        geometric(fpow(w, d), levels) == 0,
    decreases levels,
{
    let x = fpow(w, d);
    let minus = (modulus() - 1) as nat;
    if levels == 0 {
        vstd::arithmetic::power2::lemma2_to64();
    } else {
        let h = pow2((levels - 1) as nat);
        let rest = geometric(x, (levels - 1) as nat);
        lemma_geometric_split(x, levels);
        lemma_sum_canonical(|k: int| fpow(x, k as nat), h);
        lemma_pow2_unfold(levels);
        if d % 2 == 1 {
            lemma_fpow_multiplies(w, d, h);
            lemma_fpow_multiplies(w, h, d);
            assert(d * h == h * d) by (nonlinear_arith);
            lemma_minus_one_odd_power(d);
            assert(fadd(1, minus) == 0) by {
                reveal(fadd);
                vstd::arithmetic::div_mod::lemma_mod_self_0(modulus() as int);
            }
            crate::field::lemma_fmul_unit(rest);
        } else {
            let e = d / 2;
            let w2 = fpow(w, 2);
            assert(levels > 1) by {
                if levels == 1 {
                    vstd::arithmetic::power2::lemma2_to64();
                }
            }
            lemma_pow2_unfold((levels - 1) as nat);
            lemma_fpow_multiplies(w, 2, pow2((levels - 2) as nat));
            assert(half_turn(w2, (levels - 1) as nat));
            lemma_fpow_multiplies(w, 2, e);
            assert(2 * e == d);
            lemma_geometric_vanishes(w2, (levels - 1) as nat, e);
            crate::field::lemma_fmul_unit(fadd(1, fpow(x, h)));
        }
    }
}

/// `Σ_{k<n} 1 = n mod q`.
pub proof fn lemma_sum_ones(n: nat)
    ensures
        sum_of(|k: int| 1nat, n) == n % modulus(),
    decreases n,
{
    lemma_sum_push(|k: int| 1nat, 0);
    if n > 0 {
        let p = (n - 1) as nat;
        lemma_sum_ones(p);
        lemma_sum_push(|k: int| 1nat, p);
        reveal(fadd);
        vstd::arithmetic::div_mod::lemma_add_mod_noop(p as int, 1, modulus() as int);
        vstd::arithmetic::div_mod::lemma_small_mod(1, modulus());
    }
}

/// The term `w^(j·k) · w'^(k·i)` of the sum that pairs the transform with
/// its inverse.
pub open spec fn kernel(w: nat, inverse: nat, j: nat, i: nat, k: int) -> nat {
    fmul(fpow(w, (j * k) as nat), fpow(inverse, (k * i) as nat))
}

/// `x^e · y^e = 1` when `x·y = 1`.
proof fn lemma_fpow_inverse_cancels(x: nat, y: nat, e: nat)
    requires
        fmul(x, y) == 1,
    ensures
        fmul(fpow(x, e), fpow(y, e)) == 1,
{
    lemma_fpow_distributes(x, y, e);
    lemma_fpow_of_one(e);
}

/// For `w` of order `2^L` with inverse `w'` and `j, i < 2^L`:
/// `Σ_{k<2^L} w^(j·k) · w'^(k·i)` is `2^L` when `j = i` and zero otherwise.
pub proof fn lemma_orthogonality(w: nat, inverse: nat, levels: nat, j: nat, i: nat)
    requires
        half_turn(w, levels),
        fmul(w, inverse) == 1,
        j < pow2(levels),
        i < pow2(levels),
    ensures
        sum_of(|k: int| kernel(w, inverse, j, i, k), pow2(levels)) == if j == i {
            pow2(levels) % modulus()
        } else {
            0
        },
{
    let n = pow2(levels);
    let terms = |k: int| kernel(w, inverse, j, i, k);
    if j == i {
        assert forall|k: int| 0 <= k < n implies #[trigger] kernel(w, inverse, j, i, k) == 1nat by {
            assert(j * k == k * i) by (nonlinear_arith)
                requires
                    j == i,
            ;
            lemma_fpow_inverse_cancels(w, inverse, (j * k) as nat);
        }
        lemma_sum_ext(terms, |k: int| 1nat, n);
        lemma_sum_ones(n);
    } else if j > i {
        let d = (j - i) as nat;
        let x = fpow(w, d);
        assert forall|k: int| 0 <= k < n implies #[trigger] kernel(w, inverse, j, i, k) == fpow(
            x,
            k as nat,
        ) by {
            let dk = (d * k) as nat;
            let ik = (k * i) as nat;
            assert(d * k >= 0 && k * i >= 0 && j * k == d * k + k * i) by (nonlinear_arith)
                requires
                    d == j - i,
                    0 <= k,
            ;
            lemma_fpow_adds(w, dk, ik);
            lemma_fpow_inverse_cancels(w, inverse, ik);
            lemma_fmul_associates(fpow(w, dk), fpow(w, ik), fpow(inverse, ik));
            lemma_fpow_canonical(w, dk);
            crate::field::lemma_fmul_unit(fpow(w, dk));
            lemma_fpow_multiplies(w, d, k as nat);
        }
        lemma_sum_ext(terms, |k: int| fpow(x, k as nat), n);
        lemma_geometric_vanishes(w, levels, d);
    } else {
        let d = (i - j) as nat;
        let x = fpow(inverse, d);
        crate::field::lemma_fmul_commutes(w, inverse);
        lemma_inverse_half_turn(w, inverse, levels);
        assert forall|k: int| 0 <= k < n implies #[trigger] kernel(w, inverse, j, i, k) == fpow(
            x,
            k as nat,
        ) by {
            let dk = (d * k) as nat;
            let jk = (j * k) as nat;
            assert(d * k >= 0 && j * k >= 0 && k * i == d * k + j * k) by (nonlinear_arith)
                requires
                    d == i - j,
                    0 <= k,
            ;
            let a = fpow(w, jk);
            let p = fpow(inverse, dk);
            let b = fpow(inverse, jk);
            lemma_fpow_adds(inverse, dk, jk);
            lemma_fpow_inverse_cancels(w, inverse, jk);
            lemma_fmul_associates(a, p, b);
            lemma_fmul_commutes(a, p);
            lemma_fmul_associates(p, a, b);
            lemma_fpow_canonical(inverse, dk);
            crate::field::lemma_fmul_unit(p);
            lemma_fpow_multiplies(inverse, d, k as nat);
        }
        lemma_sum_ext(terms, |k: int| fpow(x, k as nat), n);
        lemma_geometric_vanishes(inverse, levels, d);
    }
}

/// The term `(a_j · w^(j·k)) · w'^(k·i)` of the inverse transform at `i` of
/// the transform of `a`, as a function of `k` and `j`.
pub open spec fn round_trip_terms(a: Seq<nat>, w: nat, inverse: nat, i: nat) -> spec_fn(
    int,
    int,
) -> nat {
    |k: int, j: int| fmul(fmul(a[j], fpow(w, (j * k) as nat)), fpow(inverse, (k * i) as nat))
}

/// The transform of `a` as a sequence.
pub open spec fn dft_all(a: Seq<nat>, w: nat) -> Seq<nat> {
    Seq::new(a.len(), |k: int| dft(a, w, k as nat))
}

/// Summing the terms over `j` first gives the inverse transform at `i`.
proof fn lemma_round_trip_rows(a: Seq<nat>, w: nat, inverse: nat, i: nat)
    ensures
        dft(dft_all(a, w), inverse, i) == sum_of(
            |k: int| row_sum(round_trip_terms(a, w, inverse, i), k, a.len()),
            a.len(),
        ),
{
    let n = a.len();
    let g = round_trip_terms(a, w, inverse, i);
    let t = dft_all(a, w);
    assert forall|k: int| 0 <= k < n implies #[trigger] fmul(
        t[k],
        fpow(inverse, (k * i) as nat),
    ) == row_sum(g, k, n) by {
        let c = fpow(inverse, (k * i) as nat);
        let f = |j: int| fmul(a[j], fpow(w, (j * k) as nat));
        lemma_sum_scale(f, n, c);
        assert((|j: int| g(k, j)) =~= (|j: int| fmul(f(j), c)));
    }
    lemma_sum_ext(
        |k: int| fmul(t[k], fpow(inverse, (k * i) as nat)),
        |k: int| row_sum(g, k, n),
        n,
    );
}

/// Summing the terms of column `j` over `k` gives `2^L · a_i` for `j = i`
/// and zero otherwise.
proof fn lemma_round_trip_column(
    a: Seq<nat>,
    w: nat,
    inverse: nat,
    levels: nat,
    i: nat,
    j: nat,
)
    requires
        a.len() == pow2(levels),
        half_turn(w, levels),
        fmul(w, inverse) == 1,
        i < a.len(),
        j < a.len(),
    ensures
        column_sum(round_trip_terms(a, w, inverse, i), j as int, a.len()) == if j == i {
            fmul(pow2(levels) % modulus(), a[j as int])
        } else {
            0
        },
{
    let n = a.len();
    let g = round_trip_terms(a, w, inverse, i);
    let aj = a[j as int];
    let ker = |k: int| kernel(w, inverse, j, i, k);
    assert forall|k: int| 0 <= k < n implies #[trigger] g(k, j as int) == fmul(ker(k), aj) by {
        let x = fpow(w, (j * k) as nat);
        let y = fpow(inverse, (k * i) as nat);
        lemma_fmul_associates(aj, x, y);
        lemma_fmul_commutes(aj, fmul(x, y));
    }
    lemma_sum_ext(|k: int| g(k, j as int), |k: int| fmul(ker(k), aj), n);
    lemma_sum_scale(ker, n, aj);
    lemma_orthogonality(w, inverse, levels, j, i);
    if j != i {
        reveal(fmul);
    }
}

/// The inverse transform undoes the transform: for `w` of order `2^L` with
/// inverse `w'`, `n = 2^L` and `n·n⁻¹ = 1`, every canonical `a` of length
/// `n` satisfies `n⁻¹ · DFT_{w'}(DFT_w(a))_i = a_i`.
pub proof fn lemma_dft_inverts(
    a: Seq<nat>,
    w: nat,
    inverse: nat,
    levels: nat,
    size_inverse: nat,
    i: nat,
)
    requires
        a.len() == pow2(levels),
        half_turn(w, levels),
        fmul(w, inverse) == 1,
        fmul(pow2(levels), size_inverse) == 1,
        forall|j: int| 0 <= j < a.len() ==> #[trigger] a[j] < modulus(),
        i < a.len(),
    ensures
        fmul(dft(dft_all(a, w), inverse, i), size_inverse) == a[i as int],
{
    let n = a.len();
    let g = round_trip_terms(a, w, inverse, i);
    let columns = |j: int| column_sum(g, j, n);
    let ai = a[i as int];
    lemma_round_trip_rows(a, w, inverse, i);
    lemma_sum_swap(g, n, n);
    assert forall|j: int| 0 <= j < n && j != i implies #[trigger] columns(j) == 0 by {
        lemma_round_trip_column(a, w, inverse, levels, i, j as nat);
    }
    lemma_round_trip_column(a, w, inverse, levels, i, i);
    lemma_sum_single(columns, n, i as int);
    let scaled = fmul(n % modulus(), ai);
    assert(dft(dft_all(a, w), inverse, i) == scaled);
    lemma_fmul_commutes(n % modulus(), ai);
    lemma_fmul_associates(ai, n % modulus(), size_inverse);
    assert(fmul(n % modulus(), size_inverse) == 1) by {
        reveal(fmul);
        vstd::arithmetic::div_mod::lemma_mul_mod_noop_left(n as int, size_inverse as int, modulus() as int);
    }
    crate::field::lemma_fmul_unit(ai);
}

} // verus!
