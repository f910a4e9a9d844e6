//! Algebraic laws of the field operations on canonical values, and sums of
//! field values.

use vstd::prelude::*;

use crate::scalar::{fadd, fmul, fneg, fsub, modulus};

verus! {

proof fn lemma_mod_add_assoc(a: int, b: int, c: int, m: int)
    requires
        m > 0,
    ensures
        ((a + b) % m + c) % m == (a + (b + c) % m) % m,
{
    vstd::arithmetic::div_mod::lemma_add_mod_noop(a + b, c, m);
    vstd::arithmetic::div_mod::lemma_add_mod_noop(a, b + c, m);
    vstd::arithmetic::div_mod::lemma_mod_twice(c, m);
    vstd::arithmetic::div_mod::lemma_mod_twice(a, m);
    vstd::arithmetic::div_mod::lemma_add_mod_noop(a + b, c, m);
    assert(((a + b) % m + c) % m == ((a + b) % m + c % m) % m) by {
        vstd::arithmetic::div_mod::lemma_add_mod_noop_right((a + b) % m, c, m);
    }
    assert((a + (b + c) % m) % m == (a % m + (b + c) % m) % m) by {
        vstd::arithmetic::div_mod::lemma_add_mod_noop(a, (b + c) % m, m);
        vstd::arithmetic::div_mod::lemma_mod_twice(b + c, m);
    }
}

proof fn lemma_mod_mul_assoc(a: int, b: int, c: int, m: int)
    requires
        m > 0,
    ensures
        (((a * b) % m) * c) % m == (a * ((b * c) % m)) % m,
{
    vstd::arithmetic::div_mod::lemma_mul_mod_noop_left(a * b, c, m);
    vstd::arithmetic::div_mod::lemma_mul_mod_noop_right(a, b * c, m);
    assert((a * b) * c == a * (b * c)) by (nonlinear_arith);
}

proof fn lemma_mod_distributes(k: int, a: int, b: int, m: int)
    requires
        m > 0,
    ensures
        (k * ((a + b) % m)) % m == ((k * a) % m + (k * b) % m) % m,
{
    vstd::arithmetic::div_mod::lemma_mul_mod_noop_right(k, a + b, m);
    assert(k * (a + b) == k * a + k * b) by (nonlinear_arith);
    vstd::arithmetic::div_mod::lemma_add_mod_noop(k * a, k * b, m);
}

/// `a + b = b + a`.
pub proof fn lemma_fadd_commutes(a: nat, b: nat)
    ensures
        fadd(a, b) == fadd(b, a),
{
    reveal(fadd);
}

/// `(a + b) + c = a + (b + c)`.
pub proof fn lemma_fadd_associates(a: nat, b: nat, c: nat)
    ensures
        fadd(fadd(a, b), c) == fadd(a, fadd(b, c)),
{
    reveal(fadd);
    lemma_mod_add_assoc(a as int, b as int, c as int, modulus() as int);
}

/// Zero is neutral for addition on canonical values.
pub proof fn lemma_fadd_zero(a: nat)
    requires
        a < modulus(),
    ensures
        fadd(a, 0) == a,
        fadd(0, a) == a,
{
    reveal(fadd);
    vstd::arithmetic::div_mod::lemma_small_mod(a, modulus());
}

/// `a b = b a`.
pub proof fn lemma_fmul_commutes(a: nat, b: nat)
    ensures
        fmul(a, b) == fmul(b, a),
{
    reveal(fmul);
    assert(a * b == b * a) by (nonlinear_arith);
}

/// `(a b) c = a (b c)`.
pub proof fn lemma_fmul_associates(a: nat, b: nat, c: nat)
    ensures
        fmul(fmul(a, b), c) == fmul(a, fmul(b, c)),
{
    reveal(fmul);
    lemma_mod_mul_assoc(a as int, b as int, c as int, modulus() as int);
}

/// `k (a + b) = k a + k b`.
pub proof fn lemma_fmul_distributes(k: nat, a: nat, b: nat)
    ensures
        fmul(k, fadd(a, b)) == fadd(fmul(k, a), fmul(k, b)),
        fmul(fadd(a, b), k) == fadd(fmul(a, k), fmul(b, k)),
{
    reveal(fmul);
    reveal(fadd);
    lemma_mod_distributes(k as int, a as int, b as int, modulus() as int);
    assert(fadd(a, b) * k == k * fadd(a, b)) by (nonlinear_arith);
    assert(a * k == k * a) by (nonlinear_arith);
    assert(b * k == k * b) by (nonlinear_arith);
}

/// One is neutral and zero absorbing for multiplication.
pub proof fn lemma_fmul_unit(a: nat)
    requires
        a < modulus(),
    ensures
        fmul(1, a) == a,
        fmul(a, 1) == a,
        fmul(0, a) == 0,
        fmul(a, 0) == 0,
{
    reveal(fmul);
    vstd::arithmetic::div_mod::lemma_small_mod(a, modulus());
}

/// Multiplying by one reduces any value to its canonical representative.
pub proof fn lemma_fmul_one_reduces(a: nat)
    ensures
        fmul(1, a) == a % modulus(),
        fmul(a, 1) == a % modulus(),
{
    reveal(fmul);
}

/// `-1 · -1 = 1`.
pub proof fn lemma_minus_one_squared()
    ensures
        fmul(fneg(1), fneg(1)) == 1,
{
    reveal(fmul);
    reveal(fsub);
    let m = modulus() as int;
    assert(fneg(1) == m - 1) by {
        vstd::arithmetic::div_mod::lemma_small_mod(1, modulus());
        vstd::arithmetic::div_mod::lemma_small_mod((m - 1) as nat, modulus());
    }
    assert((m - 1) * (m - 1) == (m - 2) * m + 1) by (nonlinear_arith);
    vstd::arithmetic::div_mod::lemma_fundamental_div_mod_converse(
        (m - 1) * (m - 1),
        m,
        m - 2,
        1,
    );
}

/// `a - b = a + (-1) b`.
pub proof fn lemma_fsub_as_add(a: nat, b: nat)
    requires
        a < modulus(),
        b < modulus(),
    ensures
        fsub(a, b) == fadd(a, fmul(fneg(1), b)),
{
    reveal(fmul);
    reveal(fsub);
    reveal(fadd);
    let m = modulus() as int;
    assert(fneg(1) == m - 1) by {
        vstd::arithmetic::div_mod::lemma_small_mod(1, modulus());
        vstd::arithmetic::div_mod::lemma_small_mod((m - 1) as nat, modulus());
    }
    vstd::arithmetic::div_mod::lemma_small_mod(b, modulus());
    vstd::arithmetic::div_mod::lemma_add_mod_noop_right(a as int, (m - 1) * b, m);
    assert(a + (m - 1) * b == (a + m - b) + (b - 1) * m) by (nonlinear_arith);
    if b >= 1 {
        vstd::arithmetic::div_mod::lemma_mod_multiples_vanish(b - 1, a + m - b, m);
    } else {
        assert((m - 1) * b == 0) by (nonlinear_arith)
            requires
                b == 0,
        ;
        vstd::arithmetic::div_mod::lemma_mod_add_multiples_vanish(a as int, m);
        vstd::arithmetic::div_mod::lemma_small_mod(0, modulus());
    }
}

/// Subtracting zero keeps a canonical value.
pub proof fn lemma_fsub_zero(a: nat)
    requires
        a < modulus(),
    ensures
        fsub(a, 0) == a,
{
    reveal(fsub);
    vstd::arithmetic::div_mod::lemma_small_mod(0, modulus());
    vstd::arithmetic::div_mod::lemma_mod_add_multiples_vanish(a as int, modulus() as int);
    vstd::arithmetic::div_mod::lemma_small_mod(a, modulus());
}

/// For canonical values, `a - b = 0` exactly when `a = b`.
pub proof fn lemma_difference_zero(a: nat, b: nat)
    requires
        a < modulus(),
        b < modulus(),
    ensures
        (fadd(a, fmul(fneg(1), b)) == 0) <==> (a == b),
{
    lemma_fsub_as_add(a, b);
    reveal(fsub);
    let m = modulus() as int;
    vstd::arithmetic::div_mod::lemma_small_mod(b, modulus());
    if a >= b {
        assert((a + m) - b == (a - b) + m);
        vstd::arithmetic::div_mod::lemma_mod_add_multiples_vanish(a - b, m);
        vstd::arithmetic::div_mod::lemma_small_mod((a - b) as nat, modulus());
    } else {
        vstd::arithmetic::div_mod::lemma_small_mod(((a + m) - b) as nat, modulus());
    }
}

/// `fmul(k, x)` depends on `x` only through its canonical representative.
pub proof fn lemma_fmul_reduces_right(k: nat, x: nat)
    ensures
        fmul(k, x % modulus()) == fmul(k, x),
{
    reveal(fmul);
    vstd::arithmetic::div_mod::lemma_mul_mod_noop_right(k as int, x as int, modulus() as int);
}

/// The field sum of a sequence of values, added from the front.
pub open spec fn field_sum(s: Seq<nat>) -> nat
    decreases s.len(),
{
    if s.len() == 0 {
        0
    } else {
        fadd(field_sum(s.drop_last()), s.last())
    }
}

/// A field sum is canonical.
pub proof fn lemma_field_sum_canonical(s: Seq<nat>)
    ensures
        field_sum(s) < modulus(),
{
    if s.len() > 0 {
        reveal(fadd);
    }
}

/// Taking one element out of a sum: `Σ s = Σ (s without s[i]) + s[i]`.
pub proof fn lemma_field_sum_remove(s: Seq<nat>, i: int)
    requires
        0 <= i < s.len(),
    ensures
        field_sum(s) == fadd(field_sum(s.remove(i)), s[i]),
    decreases s.len(),
{
    if i == s.len() - 1 {
        assert(s.remove(i) =~= s.drop_last());
    } else {
        let rest = s.drop_last();
        lemma_field_sum_remove(rest, i);
        assert(s.remove(i).drop_last() =~= rest.remove(i));
        assert(s.remove(i).last() == s.last());
        lemma_fadd_associates(field_sum(rest.remove(i)), rest[i], s.last());
        lemma_fadd_commutes(rest[i], s.last());
        lemma_fadd_associates(field_sum(rest.remove(i)), s.last(), rest[i]);
    }
}

/// `Σ (a ++ b) = Σ a + Σ b`.
pub proof fn lemma_field_sum_concat(a: Seq<nat>, b: Seq<nat>)
    ensures
        field_sum(a + b) == fadd(field_sum(a), field_sum(b)),
    decreases b.len(),
{
    if b.len() == 0 {
        assert(a + b =~= a);
        lemma_field_sum_canonical(a);
        lemma_fadd_zero(field_sum(a));
    } else {
        lemma_field_sum_concat(a, b.drop_last());
        assert((a + b).drop_last() =~= a + b.drop_last());
        lemma_fadd_associates(field_sum(a), field_sum(b.drop_last()), b.last());
    }
}

/// `Σ (k · s) = k · Σ s`.
pub proof fn lemma_field_sum_scale(s: Seq<nat>, k: nat)
    ensures
        field_sum(s.map_values(|x: nat| fmul(k, x))) == fmul(k, field_sum(s)),
    decreases s.len(),
{
    let scaled = s.map_values(|x: nat| fmul(k, x));
    if s.len() == 0 {
        lemma_fmul_unit(k % modulus());
        reveal(fmul);
        vstd::arithmetic::div_mod::lemma_mul_mod_noop_left(k as int, 0, modulus() as int);
    } else {
        lemma_field_sum_scale(s.drop_last(), k);
        assert(scaled.drop_last() =~= s.drop_last().map_values(|x: nat| fmul(k, x)));
        lemma_fmul_distributes(k, field_sum(s.drop_last()), s.last());
    }
}

/// The canonical inverse of `z`: the `u < q` with `z·u = 1`, where there
/// is one.
pub open spec fn field_inverse(z: nat) -> nat {
    choose|u: nat| u < modulus() && fmul(z, u) == 1
}

/// A canonical `u` with `z·u = 1` is the inverse of `z`.
pub proof fn lemma_field_inverse_unique(z: nat, u: nat)
    requires
        u < modulus(),
        fmul(z, u) == 1,
    ensures
        field_inverse(z) == u,
{
    let v = field_inverse(z);
    assert(v < modulus() && fmul(z, v) == 1);
    lemma_fmul_associates(u, z, v);
    lemma_fmul_commutes(u, z);
    lemma_fmul_unit(u);
    lemma_fmul_unit(v);
}

/// The canonical field element of an integer: its remainder modulo `q`.
pub open spec fn residue(x: int) -> nat {
    (x % (modulus() as int)) as nat
}

/// A canonical element is its own residue.
pub proof fn lemma_residue_canonical(v: nat)
    requires
        v < modulus(),
    ensures
        residue(v as int) == v,
{
    vstd::arithmetic::div_mod::lemma_small_mod(v, modulus());
}

/// Residues are canonical.
pub proof fn lemma_residue_bound(x: int)
    ensures
        residue(x) < modulus(),
{
    vstd::arithmetic::div_mod::lemma_mod_bound(x, modulus() as int);
}

/// Field addition of residues is the residue of the integer sum.
pub proof fn lemma_fadd_residue(x: int, y: int)
    ensures
        fadd(residue(x), residue(y)) == residue(x + y),
{
    reveal(fadd);
    let m = modulus() as int;
    vstd::arithmetic::div_mod::lemma_mod_bound(x, m);
    vstd::arithmetic::div_mod::lemma_mod_bound(y, m);
    vstd::arithmetic::div_mod::lemma_add_mod_noop(x, y, m);
}

/// Field multiplication of residues is the residue of the integer product.
pub proof fn lemma_fmul_residue(x: int, y: int)
    ensures
        fmul(residue(x), residue(y)) == residue(x * y),
{
    reveal(fmul);
    let m = modulus() as int;
    vstd::arithmetic::div_mod::lemma_mod_bound(x, m);
    vstd::arithmetic::div_mod::lemma_mod_bound(y, m);
    vstd::arithmetic::div_mod::lemma_mul_mod_noop(x, y, m);
    assert(residue(x) * residue(y) == (x % m) * (y % m));
}

/// Field subtraction of residues is the residue of the integer difference.
pub proof fn lemma_fsub_residue(x: int, y: int)
    ensures
        fsub(residue(x), residue(y)) == residue(x - y),
{
    reveal(fsub);
    let m = modulus() as int;
    vstd::arithmetic::div_mod::lemma_mod_bound(x, m);
    vstd::arithmetic::div_mod::lemma_mod_bound(y, m);
    vstd::arithmetic::div_mod::lemma_small_mod(residue(y), modulus());
    vstd::arithmetic::div_mod::lemma_sub_mod_noop(x, y, m);
    vstd::arithmetic::div_mod::lemma_mod_add_multiples_vanish((x % m) - (y % m), m);
}

/// Two integers have the same residue exactly when their difference is a
/// multiple of `q`; in particular a residue is zero exactly on multiples.
pub proof fn lemma_residue_zero(x: int)
    ensures
        residue(x) == 0 <==> x % (modulus() as int) == 0,
{
    vstd::arithmetic::div_mod::lemma_mod_bound(x, modulus() as int);
}

/// Two integers have the same residue exactly when their difference has
/// residue zero.
pub proof fn lemma_residue_difference(x: int, y: int)
    ensures
        residue(x - y) == 0 <==> residue(x) == residue(y),
{
    let m = modulus() as int;
    vstd::arithmetic::div_mod::lemma_mod_bound(x, m);
    vstd::arithmetic::div_mod::lemma_mod_bound(y, m);
    vstd::arithmetic::div_mod::lemma_mod_bound(x - y, m);
    vstd::arithmetic::div_mod::lemma_sub_mod_noop(x, y, m);
    vstd::arithmetic::div_mod::lemma_add_mod_noop(x - y, y, m);
    vstd::arithmetic::div_mod::lemma_mod_twice(y, m);
    if (x % m) == (y % m) {
        vstd::arithmetic::div_mod::lemma_small_mod(0, m as nat);
    }
    if (x - y) % m == 0 {
        vstd::arithmetic::div_mod::lemma_small_mod((y % m) as nat, m as nat);
    }
    if (x - y) % m != 0 && (x % m) == (y % m) {
        vstd::arithmetic::div_mod::lemma_mod_bound((x % m) - (y % m), m);
    }
}

} // verus!
