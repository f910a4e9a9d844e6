//! Canonical algebraic identities enforced by Turbo PLONKish gates.
//!
//! The evaluator is generic over [`IdentityElement`]: field values give the
//! identities' values on an assignment, symbolic expressions let a backend
//! lower exactly the same identities into its own constraint system.

use vstd::prelude::*;

use crate::gate::{Gate, GateModel};
use crate::field::{
    lemma_fadd_residue, lemma_fmul_residue, lemma_fmul_unit, lemma_fsub_residue,
    lemma_residue_bound, lemma_residue_canonical, residue,
};
use crate::scalar::{fadd, fmul, fneg, fsub, modulus, Scalar};

verus! {

/// Number of independently enforced identities.
pub const IDENTITY_COUNT: usize = 17;

/// The twisted Edwards parameter `d` of the JubJub curve, as a field value.
pub open spec fn edwards_d() -> nat {
    0x2a9318e74bfa2b48f5fd9207e6bd7fd4292d7f6d37579d2601065fd6d6343eb1nat
}

/// The JubJub parameter `d` taken from the curve library.
#[verifier::external_body]
pub fn edwards_d_scalar() -> (r: Scalar)
    ensures
        r@ == edwards_d(),
{
    Scalar { limbs: dusk_jubjub::EDWARDS_D.0 }
}

/// Values or expressions carried by a PLONKish row's four wires.
#[derive(Debug, Clone, PartialEq, Eq)]
pub struct WireValues<E> {
    /// Left wire.
    pub a: E,
    /// Right wire.
    pub b: E,
    /// Output wire.
    pub c: E,
    /// Fourth wire.
    pub d: E,
}

impl<E> WireValues<E> {
    /// Construct a wire row in `(a, b, c, d)` order.
    pub fn new(a: E, b: E, c: E, d: E) -> (r: Self)
        ensures
            r == (WireValues { a, b, c, d }),
    {
        WireValues { a, b, c, d }
    }
}

/// `v (v - 1) (v - 2) (v - 3)`: zero exactly on the base-four digits.
pub open spec fn delta(v: nat) -> nat {
    fmul(fmul(fmul(v, fsub(v, 1)), fsub(v, 2)), fsub(v, 3))
}

/// `v - 4 w`.
pub open spec fn quad(v: nat, w: nat) -> nat {
    fsub(v, fmul(4, w))
}

/// The logic-gate relation between two base-four digits, their product and
/// the output digit; `q_c` selects AND (`1`) or XOR (`-1`).
pub open spec fn logic_relation(a: nat, b: nat, product: nat, output: nat, q_c: nat) -> nat {
    let sum = fadd(a, b);
    let inner = fadd(fsub(fmul(4, product), fmul(18, sum)), 81);
    let f = fmul(
        product,
        fadd(
            fsub(fadd(fmul(product, inner), fmul(18, fadd(fmul(a, a), fmul(b, b)))), fmul(81, sum)),
            83,
        ),
    );
    let e = fsub(fmul(3, fadd(sum, output)), fmul(2, f));
    let b_term = fmul(q_c, fsub(fmul(9, output), fmul(3, sum)));
    fadd(b_term, e)
}

/// The arithmetic identity
/// `(q_M a b + q_L a + q_R b + q_O c + q_F d + q_C) q_arith + PI`.
pub open spec fn arithmetic_identity(g: GateModel, w: WireValues<nat>, pi: nat) -> nat {
    fadd(
        fmul(
            fadd(
                fadd(
                    fadd(
                        fadd(fadd(fmul(fmul(g.q_m, w.a), w.b), fmul(g.q_l, w.a)), fmul(g.q_r, w.b)),
                        fmul(g.q_o, w.c),
                    ),
                    fmul(g.q_f, w.d),
                ),
                g.q_c,
            ),
            g.q_arith,
        ),
        pi,
    )
}

/// The four range identities: each base-four digit step lies in `0..4`.
pub open spec fn range_identities(g: GateModel, w: WireValues<nat>, n: WireValues<nat>) -> Seq<nat> {
    seq![
        fmul(delta(quad(w.c, w.d)), g.q_range),
        fmul(delta(quad(w.b, w.c)), g.q_range),
        fmul(delta(quad(w.a, w.b)), g.q_range),
        fmul(delta(quad(n.d, w.a)), g.q_range),
    ]
}

/// The five logic identities over base-four accumulator steps.
pub open spec fn logic_identities(g: GateModel, w: WireValues<nat>, n: WireValues<nat>) -> Seq<nat> {
    let left_quad = quad(n.a, w.a);
    let right_quad = quad(n.b, w.b);
    let output_quad = quad(n.d, w.d);
    seq![
        fmul(delta(left_quad), g.q_logic),
        fmul(delta(right_quad), g.q_logic),
        fmul(delta(output_quad), g.q_logic),
        fmul(fsub(w.c, fmul(left_quad, right_quad)), g.q_logic),
        fmul(logic_relation(left_quad, right_quad, w.c, output_quad, g.q_c), g.q_logic),
    ]
}

/// The four fixed-base curve-addition identities.
pub open spec fn fixed_base_identities(g: GateModel, w: WireValues<nat>, n: WireValues<nat>) -> Seq<nat> {
    let bit = fsub(fsub(n.d, w.d), w.d);
    let bit_consistency = fmul(fmul(bit, fsub(bit, 1)), fadd(bit, 1));
    let y_alpha = fadd(fmul(fmul(bit, bit), fsub(g.q_r, 1)), 1);
    let x_alpha = fmul(g.q_l, bit);
    seq![
        fmul(bit_consistency, g.q_fixed_group_add),
        fmul(fsub(fmul(bit, g.q_c), w.c), g.q_fixed_group_add),
        fmul(
            fsub(
                fadd(n.a, fmul(fmul(fmul(fmul(n.a, w.c), w.a), w.b), edwards_d())),
                fadd(fmul(w.a, y_alpha), fmul(w.b, x_alpha)),
            ),
            g.q_fixed_group_add,
        ),
        fmul(
            fsub(
                fsub(n.b, fmul(fmul(fmul(fmul(n.b, w.c), w.a), w.b), edwards_d())),
                fadd(fmul(w.b, y_alpha), fmul(w.a, x_alpha)),
            ),
            g.q_fixed_group_add,
        ),
    ]
}

/// The three variable-base curve-addition identities.
pub open spec fn variable_base_identities(g: GateModel, w: WireValues<nat>, n: WireValues<nat>) -> Seq<nat> {
    let x1_y2 = n.d;
    let y1_x2 = fmul(w.b, w.c);
    seq![
        fmul(fsub(fmul(w.a, w.d), x1_y2), g.q_variable_group_add),
        fmul(
            fsub(
                fadd(x1_y2, y1_x2),
                fadd(n.a, fmul(fmul(fmul(n.a, edwards_d()), x1_y2), y1_x2)),
            ),
            g.q_variable_group_add,
        ),
        fmul(
            fsub(
                fadd(fmul(w.b, w.d), fmul(w.a, w.c)),
                fsub(n.b, fmul(fmul(fmul(n.b, edwards_d()), x1_y2), y1_x2)),
            ),
            g.q_variable_group_add,
        ),
    ]
}

/// The scalar field has no zero divisors: a product of canonical elements is
/// zero only when one of them is.
pub open spec fn no_zero_divisors() -> bool {
    forall|a: nat, b: nat|
        a < modulus() && b < modulus() && #[trigger] fmul(a, b) == 0 ==> a == 0 || b == 0
}

/// A base-four digit: one of the field elements `0, 1, 2, 3`.
pub open spec fn base_four_digit(v: nat) -> bool {
    v == 0 || v == 1 || v == 2 || v == 3
}

/// `x - k` for canonical `x` and `k <= 3` is canonical, and zero exactly when
/// `x = k`.
proof fn lemma_fsub_small(x: nat, k: nat)
    requires
        x < modulus(),
        k <= 3,
    ensures
        fsub(x, k) < modulus(),
        fsub(x, k) == 0 <==> x == k,
{
    reveal(fsub);
    vstd::arithmetic::div_mod::lemma_small_mod(k, modulus());
    let t = (x + modulus() - k) as nat;
    if x >= k {
        vstd::arithmetic::div_mod::lemma_mod_multiples_vanish(1, (x - k) as int, modulus() as int);
        vstd::arithmetic::div_mod::lemma_small_mod((x - k) as nat, modulus());
    } else {
        vstd::arithmetic::div_mod::lemma_small_mod(t, modulus());
    }
}

/// Products are canonical.
proof fn lemma_fmul_canonical(a: nat, b: nat)
    ensures
        fmul(a, b) < modulus(),
{
    reveal(fmul);
}

/// `v (v - 1) (v - 2) (v - 3)` is zero on every base-four digit.
#[verifier::spinoff_prover]
pub proof fn lemma_delta_of_digit(v: nat)
    requires
        base_four_digit(v),
    ensures
        delta(v) == 0,
{
    lemma_fsub_small(v, 1);
    lemma_fsub_small(v, 2);
    lemma_fsub_small(v, 3);
        let vi = v as int;
        lemma_residue_canonical(v);
        lemma_residue_canonical(1);
        lemma_residue_canonical(2);
        lemma_residue_canonical(3);
        lemma_fsub_residue(vi, 1);
        lemma_fsub_residue(vi, 2);
        lemma_fsub_residue(vi, 3);
        lemma_fmul_residue(vi, vi - 1);
        lemma_fmul_residue(vi * (vi - 1), vi - 2);
        lemma_fmul_residue(vi * (vi - 1) * (vi - 2), vi - 3);
        assert(vi * (vi - 1) * (vi - 2) * (vi - 3) == 0) by (nonlinear_arith)
            requires
                vi == 0 || vi == 1 || vi == 2 || vi == 3,
        ;
        lemma_residue_canonical(0);
}

/// `v (v - 1) (v - 2) (v - 3)` is zero exactly on the base-four digits, in a
/// field without zero divisors.
#[verifier::spinoff_prover]
pub proof fn lemma_delta_zero(v: nat)
    requires
        no_zero_divisors(),
        v < modulus(),
    ensures
        delta(v) == 0 <==> base_four_digit(v),
{
    lemma_fsub_small(v, 1);
    lemma_fsub_small(v, 2);
    lemma_fsub_small(v, 3);
    let s1 = fsub(v, 1);
    let s2 = fsub(v, 2);
    let s3 = fsub(v, 3);
    let m1 = fmul(v, s1);
    let m2 = fmul(m1, s2);
    lemma_fmul_canonical(v, s1);
    lemma_fmul_canonical(m1, s2);
    assert(delta(v) == fmul(m2, s3));
    if base_four_digit(v) {
        lemma_delta_of_digit(v);
    } else if delta(v) == 0 {
        assert(fmul(m2, s3) == 0);
        assert(m2 == 0 || s3 == 0);
        assert(fmul(m1, s2) == 0 ==> m1 == 0 || s2 == 0);
        assert(fmul(v, s1) == 0 ==> v == 0 || s1 == 0);
    }
}

/// The range identities of a row with a nonzero range selector all vanish
/// exactly when each of its four base-four accumulator steps
/// `c - 4d`, `b - 4c`, `a - 4b` and `d_next - 4a` is a digit `0..=3`, in a
/// field without zero divisors.
#[verifier::spinoff_prover]
pub proof fn lemma_range_identities_digits(g: GateModel, w: WireValues<nat>, n: WireValues<nat>)
    requires
        no_zero_divisors(),
        0 < g.q_range < modulus(),
    ensures
        (forall|i: int| 0 <= i < 4 ==> #[trigger] range_identities(g, w, n)[i] == 0) <==> {
            &&& base_four_digit(quad(w.c, w.d))
            &&& base_four_digit(quad(w.b, w.c))
            &&& base_four_digit(quad(w.a, w.b))
            &&& base_four_digit(quad(n.d, w.a))
        },
{
    let steps = seq![quad(w.c, w.d), quad(w.b, w.c), quad(w.a, w.b), quad(n.d, w.a)];
    assert forall|i: int| 0 <= i < 4 implies (#[trigger] range_identities(g, w, n)[i] == 0
        <==> base_four_digit(steps[i])) by {
        let v = steps[i];
        assert(v < modulus()) by {
            reveal(fsub);
        }
        lemma_delta_zero(v);
        lemma_fmul_canonical(fmul(fmul(v, fsub(v, 1)), fsub(v, 2)), fsub(v, 3));
        assert(range_identities(g, w, n)[i] == fmul(delta(v), g.q_range));
        if delta(v) == 0 {
            reveal(fmul);
        }
    }
    assert(base_four_digit(steps[0]) == base_four_digit(quad(w.c, w.d)));
    assert(base_four_digit(steps[3]) == base_four_digit(quad(n.d, w.a)));
    if forall|i: int| 0 <= i < 4 ==> #[trigger] range_identities(g, w, n)[i] == 0 {
        assert(range_identities(g, w, n)[0] == 0);
        assert(range_identities(g, w, n)[1] == 0);
        assert(range_identities(g, w, n)[2] == 0);
        assert(range_identities(g, w, n)[3] == 0);
    }
}

/// The logic relation over the integers, before reduction modulo `q`.
pub open spec fn logic_polynomial(a: int, b: int, product: int, output: int, q_c: int) -> int {
    let sum = a + b;
    let inner = 4 * product - 18 * sum + 81;
    let f = product * (product * inner + 18 * (a * a + b * b) - 81 * sum + 83);
    q_c * (9 * output - 3 * sum) + (3 * (sum + output) - 2 * f)
}

/// The field logic relation of residues is the residue of the integer
/// relation.
#[verifier::spinoff_prover]
proof fn lemma_logic_relation_residue(a: int, b: int, product: int, output: int, q_c: int)
    ensures
        logic_relation(residue(a), residue(b), residue(product), residue(output), residue(q_c))
            == residue(logic_polynomial(a, b, product, output, q_c)),
{
    let k4 = residue(4);
    let k18 = residue(18);
    let k81 = residue(81);
    let k83 = residue(83);
    let k3 = residue(3);
    let k2 = residue(2);
    let k9 = residue(9);
    lemma_residue_canonical(4);
    lemma_residue_canonical(18);
    lemma_residue_canonical(81);
    lemma_residue_canonical(83);
    lemma_residue_canonical(3);
    lemma_residue_canonical(2);
    lemma_residue_canonical(9);
    let sum = a + b;
    lemma_fadd_residue(a, b);
    lemma_fmul_residue(4, product);
    lemma_fmul_residue(18, sum);
    lemma_fsub_residue(4 * product, 18 * sum);
    lemma_fadd_residue(4 * product - 18 * sum, 81);
    let inner = 4 * product - 18 * sum + 81;
    lemma_fmul_residue(product, inner);
    lemma_fmul_residue(a, a);
    lemma_fmul_residue(b, b);
    lemma_fadd_residue(a * a, b * b);
    lemma_fmul_residue(18, a * a + b * b);
    lemma_fadd_residue(product * inner, 18 * (a * a + b * b));
    lemma_fmul_residue(81, sum);
    lemma_fsub_residue(product * inner + 18 * (a * a + b * b), 81 * sum);
    lemma_fadd_residue(product * inner + 18 * (a * a + b * b) - 81 * sum, 83);
    let g = product * inner + 18 * (a * a + b * b) - 81 * sum + 83;
    lemma_fmul_residue(product, g);
    let f = product * g;
    lemma_fadd_residue(sum, output);
    lemma_fmul_residue(3, sum + output);
    lemma_fmul_residue(2, f);
    lemma_fsub_residue(3 * (sum + output), 2 * f);
    lemma_fmul_residue(9, output);
    lemma_fmul_residue(3, sum);
    lemma_fsub_residue(9 * output, 3 * sum);
    lemma_fmul_residue(q_c, 9 * output - 3 * sum);
    lemma_fadd_residue(q_c * (9 * output - 3 * sum), 3 * (sum + output) - 2 * f);
}

/// Bitwise AND of two base-four digits.
pub open spec fn digit_and(l: nat, r: nat) -> nat {
    (l as u8 & r as u8) as nat
}

/// Bitwise XOR of two base-four digits.
pub open spec fn digit_xor(l: nat, r: nat) -> nat {
    (l as u8 ^ r as u8) as nat
}

/// The logic relation holds for every pair of base-four digits `l`, `r`
/// with their product and their bitwise AND when `q_c = 1`, and with their
/// product and their bitwise XOR when `q_c = -1`.
#[verifier::spinoff_prover]
pub proof fn lemma_logic_relation_digits(l: nat, r: nat)
    requires
        l < 4,
        r < 4,
    ensures
        logic_relation(l, r, fmul(l, r), digit_and(l, r), 1) == 0,
        logic_relation(l, r, fmul(l, r), digit_xor(l, r), fneg(1)) == 0,
        digit_and(l, r) < 4,
        digit_xor(l, r) < 4,
{
    assert(l == 0 || l == 1 || l == 2 || l == 3);
    assert(r == 0 || r == 1 || r == 2 || r == 3);
    let lu = l as u8;
    let ru = r as u8;
    assert((lu & ru) == (if lu % 2 == 1 && ru % 2 == 1 {
        1u8
    } else {
        0u8
    }) + (if lu / 2 == 1 && ru / 2 == 1 {
        2u8
    } else {
        0u8
    }) && (lu ^ ru) == (if lu % 2 != ru % 2 {
        1u8
    } else {
        0u8
    }) + (if lu / 2 != ru / 2 {
        2u8
    } else {
        0u8
    })) by (bit_vector)
        requires
            lu < 4,
            ru < 4,
    ;
    if l == 0 && r == 0 {
        assert(lu == 0 && ru == 0);
        assert(lu % 2 == 0 && lu / 2 == 0 && ru % 2 == 0 && ru / 2 == 0);
        assert(digit_and(l, r) == 0 && digit_xor(l, r) == 0);
        assert(logic_polynomial(0, 0, 0, 0, 1) == 0);
        assert(logic_polynomial(0, 0, 0, 0, -1) == 0);
    } else if l == 0 && r == 1 {
        assert(lu == 0 && ru == 1);
        assert(lu % 2 == 0 && lu / 2 == 0 && ru % 2 == 1 && ru / 2 == 0);
        assert(digit_and(l, r) == 0 && digit_xor(l, r) == 1);
        assert(logic_polynomial(0, 1, 0, 0, 1) == 0);
        assert(logic_polynomial(0, 1, 0, 1, -1) == 0);
    } else if l == 0 && r == 2 {
        assert(lu == 0 && ru == 2);
        assert(lu % 2 == 0 && lu / 2 == 0 && ru % 2 == 0 && ru / 2 == 1);
        assert(digit_and(l, r) == 0 && digit_xor(l, r) == 2);
        assert(logic_polynomial(0, 2, 0, 0, 1) == 0);
        assert(logic_polynomial(0, 2, 0, 2, -1) == 0);
    } else if l == 0 && r == 3 {
        assert(lu == 0 && ru == 3);
        assert(lu % 2 == 0 && lu / 2 == 0 && ru % 2 == 1 && ru / 2 == 1);
        assert(digit_and(l, r) == 0 && digit_xor(l, r) == 3);
        assert(logic_polynomial(0, 3, 0, 0, 1) == 0);
        assert(logic_polynomial(0, 3, 0, 3, -1) == 0);
    } else if l == 1 && r == 0 {
        assert(lu == 1 && ru == 0);
        assert(lu % 2 == 1 && lu / 2 == 0 && ru % 2 == 0 && ru / 2 == 0);
        assert(digit_and(l, r) == 0 && digit_xor(l, r) == 1);
        assert(logic_polynomial(1, 0, 0, 0, 1) == 0);
        assert(logic_polynomial(1, 0, 0, 1, -1) == 0);
    } else if l == 1 && r == 1 {
        assert(lu == 1 && ru == 1);
        assert(lu % 2 == 1 && lu / 2 == 0 && ru % 2 == 1 && ru / 2 == 0);
        assert(digit_and(l, r) == 1 && digit_xor(l, r) == 0);
        assert(logic_polynomial(1, 1, 1, 1, 1) == 0);
        assert(logic_polynomial(1, 1, 1, 0, -1) == 0);
    } else if l == 1 && r == 2 {
        assert(lu == 1 && ru == 2);
        assert(lu % 2 == 1 && lu / 2 == 0 && ru % 2 == 0 && ru / 2 == 1);
        assert(digit_and(l, r) == 0 && digit_xor(l, r) == 3);
        assert(logic_polynomial(1, 2, 2, 0, 1) == 0);
        assert(logic_polynomial(1, 2, 2, 3, -1) == 0);
    } else if l == 1 && r == 3 {
        assert(lu == 1 && ru == 3);
        assert(lu % 2 == 1 && lu / 2 == 0 && ru % 2 == 1 && ru / 2 == 1);
        assert(digit_and(l, r) == 1 && digit_xor(l, r) == 2);
        assert(logic_polynomial(1, 3, 3, 1, 1) == 0);
        assert(logic_polynomial(1, 3, 3, 2, -1) == 0);
    } else if l == 2 && r == 0 {
        assert(lu == 2 && ru == 0);
        assert(lu % 2 == 0 && lu / 2 == 1 && ru % 2 == 0 && ru / 2 == 0);
        assert(digit_and(l, r) == 0 && digit_xor(l, r) == 2);
        assert(logic_polynomial(2, 0, 0, 0, 1) == 0);
        assert(logic_polynomial(2, 0, 0, 2, -1) == 0);
    } else if l == 2 && r == 1 {
        assert(lu == 2 && ru == 1);
        assert(lu % 2 == 0 && lu / 2 == 1 && ru % 2 == 1 && ru / 2 == 0);
        assert(digit_and(l, r) == 0 && digit_xor(l, r) == 3);
        assert(logic_polynomial(2, 1, 2, 0, 1) == 0);
        assert(logic_polynomial(2, 1, 2, 3, -1) == 0);
    } else if l == 2 && r == 2 {
        assert(lu == 2 && ru == 2);
        assert(lu % 2 == 0 && lu / 2 == 1 && ru % 2 == 0 && ru / 2 == 1);
        assert(digit_and(l, r) == 2 && digit_xor(l, r) == 0);
        assert(logic_polynomial(2, 2, 4, 2, 1) == 0);
        assert(logic_polynomial(2, 2, 4, 0, -1) == 0);
    } else if l == 2 && r == 3 {
        assert(lu == 2 && ru == 3);
        assert(lu % 2 == 0 && lu / 2 == 1 && ru % 2 == 1 && ru / 2 == 1);
        assert(digit_and(l, r) == 2 && digit_xor(l, r) == 1);
        assert(logic_polynomial(2, 3, 6, 2, 1) == 0);
        assert(logic_polynomial(2, 3, 6, 1, -1) == 0);
    } else if l == 3 && r == 0 {
        assert(lu == 3 && ru == 0);
        assert(lu % 2 == 1 && lu / 2 == 1 && ru % 2 == 0 && ru / 2 == 0);
        assert(digit_and(l, r) == 0 && digit_xor(l, r) == 3);
        assert(logic_polynomial(3, 0, 0, 0, 1) == 0);
        assert(logic_polynomial(3, 0, 0, 3, -1) == 0);
    } else if l == 3 && r == 1 {
        assert(lu == 3 && ru == 1);
        assert(lu % 2 == 1 && lu / 2 == 1 && ru % 2 == 1 && ru / 2 == 0);
        assert(digit_and(l, r) == 1 && digit_xor(l, r) == 2);
        assert(logic_polynomial(3, 1, 3, 1, 1) == 0);
        assert(logic_polynomial(3, 1, 3, 2, -1) == 0);
    } else if l == 3 && r == 2 {
        assert(lu == 3 && ru == 2);
        assert(lu % 2 == 1 && lu / 2 == 1 && ru % 2 == 0 && ru / 2 == 1);
        assert(digit_and(l, r) == 2 && digit_xor(l, r) == 1);
        assert(logic_polynomial(3, 2, 6, 2, 1) == 0);
        assert(logic_polynomial(3, 2, 6, 1, -1) == 0);
    } else if l == 3 && r == 3 {
        assert(lu == 3 && ru == 3);
        assert(lu % 2 == 1 && lu / 2 == 1 && ru % 2 == 1 && ru / 2 == 1);
        assert(digit_and(l, r) == 3 && digit_xor(l, r) == 0);
        assert(logic_polynomial(3, 3, 9, 3, 1) == 0);
        assert(logic_polynomial(3, 3, 9, 0, -1) == 0);
    }
    lemma_residue_canonical(l);
    lemma_residue_canonical(r);
    lemma_residue_canonical(1);
    lemma_residue_canonical(digit_and(l, r));
    lemma_residue_canonical(digit_xor(l, r));
    lemma_fmul_residue(l as int, r as int);
    lemma_residue_canonical(l * r);
    assert(fneg(1) == residue(-1)) by {
        reveal(fsub);
    }
    lemma_logic_relation_residue(l as int, r as int, (l * r) as int, digit_and(l, r) as int, 1);
    lemma_logic_relation_residue(l as int, r as int, (l * r) as int, digit_xor(l, r) as int, -1);
}

/// `(x3, y3)` is the sum of `(x1, y1)` and `(x2, y2)` on the JubJub twisted
/// Edwards curve `-x² + y² = 1 + d·x²·y²`:
/// `x3 = (x1·y2 + y1·x2) / (1 + d·x1·x2·y1·y2)` and
/// `y3 = (y1·y2 + x1·x2) / (1 - d·x1·x2·y1·y2)`, each denominator having an
/// inverse.
pub open spec fn edwards_sum(x1: nat, y1: nat, x2: nat, y2: nat, x3: nat, y3: nat) -> bool {
    let t = fmul(edwards_d(), fmul(fmul(x1, x2), fmul(y1, y2)));
    exists|u: nat, v: nat|
        {
            &&& #[trigger] fmul(fadd(1, t), u) == 1
            &&& #[trigger] fmul(fsub(1, t), v) == 1
            &&& x3 == fmul(fadd(fmul(x1, y2), fmul(y1, x2)), u)
            &&& y3 == fmul(fadd(fmul(y1, y2), fmul(x1, x2)), v)
        }
}

/// `X·(1 ± t)` for the Edwards cross term, regrouped as the identities
/// write it: `X ± X·d·(x1·y2)·(y1·x2)`.
#[verifier::spinoff_prover]
proof fn lemma_edwards_regroup(x: nat, x1: nat, y1: nat, x2: nat, y2: nat)
    requires
        x < modulus(),
        x1 < modulus(),
        y1 < modulus(),
        x2 < modulus(),
        y2 < modulus(),
    ensures
        ({
            let t = fmul(edwards_d(), fmul(fmul(x1, x2), fmul(y1, y2)));
            let cross = fmul(fmul(fmul(x, edwards_d()), fmul(x1, y2)), fmul(y1, x2));
            &&& fadd(x, cross) == fmul(x, fadd(1, t))
            &&& fsub(x, cross) == fmul(x, fsub(1, t))
        }),
{
    let d = edwards_d();
    assert(d < modulus());
    lemma_residue_canonical(x);
    lemma_residue_canonical(x1);
    lemma_residue_canonical(y1);
    lemma_residue_canonical(x2);
    lemma_residue_canonical(y2);
    lemma_residue_canonical(d);
    lemma_residue_canonical(1);
    let (xi, ai, bi, ci, ei, di) = (x as int, x1 as int, y1 as int, x2 as int, y2 as int, d as int);
    lemma_fmul_residue(ai, ci);
    lemma_fmul_residue(bi, ei);
    lemma_fmul_residue(ai * ci, bi * ei);
    lemma_fmul_residue(di, (ai * ci) * (bi * ei));
    let ti = di * ((ai * ci) * (bi * ei));
    lemma_fadd_residue(1, ti);
    lemma_fsub_residue(1, ti);
    lemma_fmul_residue(xi, 1 + ti);
    lemma_fmul_residue(xi, 1 - ti);
    lemma_fmul_residue(xi, di);
    lemma_fmul_residue(ai, ei);
    lemma_fmul_residue(bi, ci);
    lemma_fmul_residue(xi * di, ai * ei);
    lemma_fmul_residue(xi * di * (ai * ei), bi * ci);
    let ci2 = xi * di * (ai * ei) * (bi * ci);
    assert(ci2 == xi * ti) by (nonlinear_arith)
        requires
            ti == di * ((ai * ci) * (bi * ei)),
            ci2 == xi * di * (ai * ei) * (bi * ci),
    ;
    lemma_fadd_residue(xi, ci2);
    lemma_fsub_residue(xi, ci2);
    assert(xi + ci2 == xi * (1 + ti) && xi - ci2 == xi * (1 - ti)) by (nonlinear_arith)
        requires
            ci2 == xi * ti,
    ;
}

/// `(N·u)·D = N` when `u` is an inverse of `D`.
proof fn lemma_cancel_inverse(n: nat, u: nat, den: nat)
    requires
        n < modulus(),
        fmul(den, u) == 1,
    ensures
        fmul(fmul(n, u), den) == n,
{
    crate::field::lemma_fmul_associates(n, u, den);
    crate::field::lemma_fmul_commutes(u, den);
    crate::field::lemma_fmul_unit(n);
}

/// The variable-base identities hold on every JubJub point addition: when
/// the next row's `(a, b)` is the twisted Edwards sum of the current row's
/// points `(a, b)` and `(c, d)`, and the next row's `d` is `a·d`, all three
/// identities are zero.
#[verifier::spinoff_prover]
pub proof fn lemma_variable_base_addition(g: GateModel, w: WireValues<nat>, n: WireValues<nat>)
    requires
        w.a < modulus(),
        w.b < modulus(),
        w.c < modulus(),
        w.d < modulus(),
        edwards_sum(w.a, w.b, w.c, w.d, n.a, n.b),
        n.d == fmul(w.a, w.d),
    ensures
        forall|i: int| 0 <= i < 3 ==> #[trigger] variable_base_identities(g, w, n)[i] == 0,
{
    let (x1, y1, x2, y2) = (w.a, w.b, w.c, w.d);
    let t = fmul(edwards_d(), fmul(fmul(x1, x2), fmul(y1, y2)));
    let (u, v) = choose|u: nat, v: nat|
        {
            &&& #[trigger] fmul(fadd(1, t), u) == 1
            &&& #[trigger] fmul(fsub(1, t), v) == 1
            &&& n.a == fmul(fadd(fmul(x1, y2), fmul(y1, x2)), u)
            &&& n.b == fmul(fadd(fmul(y1, y2), fmul(x1, x2)), v)
        };
    let num_x = fadd(fmul(x1, y2), fmul(y1, x2));
    let num_y = fadd(fmul(y1, y2), fmul(x1, x2));
    crate::field::lemma_residue_bound(0);
    reveal(fmul);
    reveal(fadd);
    assert(num_x < modulus() && num_y < modulus() && n.a < modulus() && n.b < modulus());
    lemma_edwards_regroup(n.a, x1, y1, x2, y2);
    lemma_edwards_regroup(n.b, x1, y1, x2, y2);
    lemma_cancel_inverse(num_x, u, fadd(1, t));
    lemma_cancel_inverse(num_y, v, fsub(1, t));
    crate::field::lemma_fmul_commutes(fmul(num_x, u), fadd(1, t));
    crate::field::lemma_fmul_commutes(fmul(num_y, v), fsub(1, t));
    crate::field::lemma_fmul_commutes(n.a, fadd(1, t));
    crate::field::lemma_fmul_commutes(n.b, fsub(1, t));
    lemma_residue_canonical(num_x);
    lemma_residue_canonical(num_y);
    lemma_residue_canonical(n.d);
    lemma_fsub_residue(num_x as int, num_x as int);
    lemma_fsub_residue(num_y as int, num_y as int);
    lemma_fsub_residue(n.d as int, n.d as int);
    assert(variable_base_identities(g, w, n) =~= seq![0nat, 0, 0]);
}

/// Every honest logic row satisfies its five identities: when the steps
/// `a_next - 4a` and `b_next - 4b` are base-four digits `l` and `r`, the row's
/// `c` holds their product, and the output step `d_next - 4d` is `l AND r`
/// with `q_c = 1` or `l XOR r` with `q_c = -1`, every logic identity is zero.
#[verifier::spinoff_prover]
pub proof fn lemma_logic_row_holds(g: GateModel, w: WireValues<nat>, n: WireValues<nat>)
    requires
        base_four_digit(quad(n.a, w.a)),
        base_four_digit(quad(n.b, w.b)),
        w.c == fmul(quad(n.a, w.a), quad(n.b, w.b)),
        (g.q_c == 1 && quad(n.d, w.d) == digit_and(quad(n.a, w.a), quad(n.b, w.b))) || (g.q_c
            == fneg(1) && quad(n.d, w.d) == digit_xor(quad(n.a, w.a), quad(n.b, w.b))),
    ensures
        forall|i: int| 0 <= i < 5 ==> #[trigger] logic_identities(g, w, n)[i] == 0,
{
    let l = quad(n.a, w.a);
    let r = quad(n.b, w.b);
    let o = quad(n.d, w.d);
    lemma_logic_relation_digits(l, r);
    lemma_delta_of_digit(l);
    lemma_delta_of_digit(r);
    lemma_delta_of_digit(o);
    lemma_fmul_canonical(l, r);
    lemma_residue_canonical(w.c);
    lemma_fsub_residue(w.c as int, w.c as int);
    lemma_residue_canonical(0);
    reveal(fmul);
    assert(logic_identities(g, w, n) =~= seq![0nat, 0, 0, 0, 0]);
}

/// The point a fixed-base step adds for the scalar bit `b`: the base point
/// `(x_β, y_β)` for `b = 1`, its negation `(-x_β, y_β)` for `b = -1`, and
/// the identity `(0, 1)` for `b = 0`.
pub open spec fn fixed_base_summand(b: int, x_beta: nat, y_beta: nat) -> (nat, nat) {
    if b == 0 {
        (0, 1)
    } else if b == 1 {
        (x_beta, y_beta)
    } else {
        (fneg(x_beta), y_beta)
    }
}

/// `X·(1 ± t)` for the Edwards cross term, regrouped as the fixed-base
/// identities write it: `X ± X·(x2·y2)·x1·y1·d`.
#[verifier::spinoff_prover]
proof fn lemma_fixed_regroup(x: nat, x1: nat, y1: nat, x2: nat, y2: nat)
    requires
        x < modulus(),
        x1 < modulus(),
        y1 < modulus(),
        x2 < modulus(),
        y2 < modulus(),
    ensures
        ({
            let t = fmul(edwards_d(), fmul(fmul(x1, x2), fmul(y1, y2)));
            let cross = fmul(fmul(fmul(fmul(x, fmul(x2, y2)), x1), y1), edwards_d());
            &&& fadd(x, cross) == fmul(x, fadd(1, t))
            &&& fsub(x, cross) == fmul(x, fsub(1, t))
        }),
{
    let d = edwards_d();
    lemma_residue_canonical(x);
    lemma_residue_canonical(x1);
    lemma_residue_canonical(y1);
    lemma_residue_canonical(x2);
    lemma_residue_canonical(y2);
    lemma_residue_canonical(d);
    lemma_residue_canonical(1);
    let (xi, ai, bi, ci, ei, di) = (x as int, x1 as int, y1 as int, x2 as int, y2 as int, d as int);
    lemma_fmul_residue(ai, ci);
    lemma_fmul_residue(bi, ei);
    lemma_fmul_residue(ai * ci, bi * ei);
    lemma_fmul_residue(di, (ai * ci) * (bi * ei));
    let ti = di * ((ai * ci) * (bi * ei));
    lemma_fadd_residue(1, ti);
    lemma_fsub_residue(1, ti);
    lemma_fmul_residue(xi, 1 + ti);
    lemma_fmul_residue(xi, 1 - ti);
    lemma_fmul_residue(ci, ei);
    lemma_fmul_residue(xi, ci * ei);
    lemma_fmul_residue(xi * (ci * ei), ai);
    lemma_fmul_residue(xi * (ci * ei) * ai, bi);
    lemma_fmul_residue(xi * (ci * ei) * ai * bi, di);
    let c2 = xi * (ci * ei) * ai * bi * di;
    assert(c2 == xi * ti) by (nonlinear_arith)
        requires
            ti == di * ((ai * ci) * (bi * ei)),
            c2 == xi * (ci * ei) * ai * bi * di,
    ;
    lemma_fadd_residue(xi, c2);
    lemma_fsub_residue(xi, c2);
    assert(xi + c2 == xi * (1 + ti) && xi - c2 == xi * (1 - ti)) by (nonlinear_arith)
        requires
            c2 == xi * ti,
    ;
}

/// The fixed-base identities hold on every step of a fixed-base scalar
/// multiplication: when the accumulated scalar grows as `d_next = 2·d + b`
/// for a bit `b` in `{-1, 0, 1}`, the selectors hold the base point
/// `(q_L, q_R) = (x_β, y_β)` with `q_C = x_β·y_β`, the row's `c` holds
/// `x·y` of the point `b` selects, and the next row's `(a, b)` is the twisted
/// Edwards sum of the current `(a, b)` and that point, all four identities
/// are zero.
#[verifier::spinoff_prover]
#[verifier::rlimit(30)]
pub proof fn lemma_fixed_base_addition(g: GateModel, w: WireValues<nat>, n: WireValues<nat>, b: int)
    requires
        -1 <= b <= 1,
        w.a < modulus(),
        w.b < modulus(),
        w.d < modulus(),
        g.q_l < modulus(),
        g.q_r < modulus(),
        n.d == residue(2 * w.d + b),
        g.q_c == fmul(g.q_l, g.q_r),
        w.c == fmul(fixed_base_summand(b, g.q_l, g.q_r).0, fixed_base_summand(b, g.q_l, g.q_r).1),
        edwards_sum(
            w.a,
            w.b,
            fixed_base_summand(b, g.q_l, g.q_r).0,
            fixed_base_summand(b, g.q_l, g.q_r).1,
            n.a,
            n.b,
        ),
    ensures
        forall|i: int| 0 <= i < 4 ==> #[trigger] fixed_base_identities(g, w, n)[i] == 0,
{
    let (xa, ya) = fixed_base_summand(b, g.q_l, g.q_r);
    let (ql, qr, wd) = (g.q_l as int, g.q_r as int, w.d as int);
    lemma_residue_canonical(w.d);
    lemma_residue_canonical(g.q_l);
    lemma_residue_canonical(g.q_r);
    lemma_residue_canonical(1);
    lemma_residue_canonical(0);
    // the bit
    lemma_fsub_residue(2 * wd + b, wd);
    lemma_fsub_residue(2 * wd + b - wd, wd);
    let bit = fsub(fsub(n.d, w.d), w.d);
    assert(bit == residue(b));
    // the selected point
    lemma_fmul_residue(ql, b);
    lemma_fmul_residue(b, b);
    lemma_fsub_residue(qr, 1);
    lemma_fmul_residue(b * b, qr - 1);
    lemma_fadd_residue(b * b * (qr - 1), 1);
    let y_alpha = fadd(fmul(fmul(bit, bit), fsub(g.q_r, 1)), 1);
    let x_alpha = fmul(g.q_l, bit);
    assert(fneg(g.q_l) == residue(0 - ql)) by {
        lemma_fsub_residue(0, ql);
    }
    assert(b * b * (qr - 1) + 1 == (if b == 0 { 1 } else { qr }) && ql * b == (if b == 0 {
        0
    } else if b == 1 {
        ql
    } else {
        0 - ql
    })) by (nonlinear_arith)
        requires
            -1 <= b <= 1,
    ;
    assert(x_alpha == xa && y_alpha == ya);
    lemma_residue_bound(0 - ql);
    // the bit is -1, 0 or 1
    lemma_fsub_residue(b, 1);
    lemma_fadd_residue(b, 1);
    lemma_fmul_residue(b, b - 1);
    lemma_fmul_residue(b * (b - 1), b + 1);
    assert(b * (b - 1) * (b + 1) == 0) by (nonlinear_arith)
        requires
            -1 <= b <= 1,
    ;
    // the row's c
    lemma_fmul_residue(ql, qr);
    lemma_fmul_residue(b, ql * qr);
    lemma_fmul_residue(0 - ql, qr);
    assert(b * (ql * qr) == (if b == 0 { 0 } else if b == 1 { ql * qr } else { (0 - ql) * qr }))
        by (nonlinear_arith)
        requires
            -1 <= b <= 1,
    ;
    lemma_fmul_unit(0);
    assert(fmul(bit, g.q_c) == w.c) by {
        reveal(fmul);
    }
    lemma_residue_canonical(w.c);
    lemma_fsub_residue(w.c as int, w.c as int);
    // the curve addition
    let t = fmul(edwards_d(), fmul(fmul(w.a, xa), fmul(w.b, ya)));
    let (u, v) = choose|u: nat, v: nat|
        {
            &&& #[trigger] fmul(fadd(1, t), u) == 1
            &&& #[trigger] fmul(fsub(1, t), v) == 1
            &&& n.a == fmul(fadd(fmul(w.a, ya), fmul(w.b, xa)), u)
            &&& n.b == fmul(fadd(fmul(w.b, ya), fmul(w.a, xa)), v)
        };
    let num_x = fadd(fmul(w.a, ya), fmul(w.b, xa));
    let num_y = fadd(fmul(w.b, ya), fmul(w.a, xa));
    reveal(fmul);
    reveal(fadd);
    reveal(fsub);
    assert(xa < modulus() && ya < modulus());
    assert(num_x < modulus() && num_y < modulus() && n.a < modulus() && n.b < modulus());
    lemma_fixed_regroup(n.a, w.a, w.b, xa, ya);
    lemma_fixed_regroup(n.b, w.a, w.b, xa, ya);
    lemma_cancel_inverse(num_x, u, fadd(1, t));
    lemma_cancel_inverse(num_y, v, fsub(1, t));
    crate::field::lemma_fmul_commutes(n.a, fadd(1, t));
    crate::field::lemma_fmul_commutes(n.b, fsub(1, t));
    lemma_residue_canonical(num_x);
    lemma_residue_canonical(num_y);
    lemma_fsub_residue(num_x as int, num_x as int);
    lemma_fsub_residue(num_y as int, num_y as int);
    assert(fixed_base_identities(g, w, n) =~= seq![0nat, 0, 0, 0]);
}

/// The seventeen identities of one row, given the row's wire values `w`, the
/// shifted row's wire values `n` and the row's public input `pi`: arithmetic,
/// then range, logic, fixed-base and variable-base identities.
pub open spec fn identities(g: GateModel, w: WireValues<nat>, n: WireValues<nat>, pi: nat) -> Seq<nat> {
    seq![arithmetic_identity(g, w, pi)] + range_identities(g, w, n) + logic_identities(g, w, n)
        + fixed_base_identities(g, w, n) + variable_base_identities(g, w, n)
}

/// A field value, or a symbolic expression over an assignment, accepted by the
/// identity evaluator. `value(env)` is its field value under assignment `env`.
pub trait IdentityElement: Sized {
    /// The field value under an assignment.
    spec fn value(&self, env: Seq<nat>) -> nat;

    /// The element reads only assignment positions below `n`.
    spec fn within(&self, n: nat) -> bool;

    /// Embed a field constant.
    fn constant(value: Scalar) -> (r: Self)
        ensures
            forall|env: Seq<nat>| #[trigger] r.value(env) == value@,
            forall|n: nat| #[trigger] r.within(n),
    ;

    /// An element with the same value.
    fn duplicate(&self) -> (r: Self)
        ensures
            forall|env: Seq<nat>| #[trigger] r.value(env) == self.value(env),
            forall|n: nat| self.within(n) ==> #[trigger] r.within(n),
    ;

    /// Field addition.
    fn plus(self, rhs: Self) -> (r: Self)
        ensures
            forall|env: Seq<nat>| #[trigger] r.value(env) == fadd(self.value(env), rhs.value(env)),
            forall|n: nat| self.within(n) && rhs.within(n) ==> #[trigger] r.within(n),
    ;

    /// Field subtraction.
    fn minus(self, rhs: Self) -> (r: Self)
        ensures
            forall|env: Seq<nat>| #[trigger] r.value(env) == fsub(self.value(env), rhs.value(env)),
            forall|n: nat| self.within(n) && rhs.within(n) ==> #[trigger] r.within(n),
    ;

    /// Field multiplication.
    fn times(self, rhs: Self) -> (r: Self)
        ensures
            forall|env: Seq<nat>| #[trigger] r.value(env) == fmul(self.value(env), rhs.value(env)),
            forall|n: nat| self.within(n) && rhs.within(n) ==> #[trigger] r.within(n),
    ;
}

impl IdentityElement for Scalar {
    open spec fn value(&self, env: Seq<nat>) -> nat {
        self@
    }

    open spec fn within(&self, n: nat) -> bool {
        true
    }

    fn constant(value: Scalar) -> (r: Scalar) {
        value
    }

    fn duplicate(&self) -> (r: Scalar) {
        *self
    }

    fn plus(self, rhs: Scalar) -> (r: Scalar) {
        self.add(&rhs)
    }

    fn minus(self, rhs: Scalar) -> (r: Scalar) {
        self.sub(&rhs)
    }

    fn times(self, rhs: Scalar) -> (r: Scalar) {
        self.mul(&rhs)
    }
}

/// Every element of a row reads only assignment positions below `n`.
pub open spec fn wires_within<E: IdentityElement>(w: WireValues<E>, n: nat) -> bool {
    w.a.within(n) && w.b.within(n) && w.c.within(n) && w.d.within(n)
}

/// The field values of a row of elements under an assignment.
pub open spec fn wire_values_at<E: IdentityElement>(w: WireValues<E>, env: Seq<nat>) -> WireValues<nat> {
    WireValues { a: w.a.value(env), b: w.b.value(env), c: w.c.value(env), d: w.d.value(env) }
}

fn small<E: IdentityElement>(value: u64) -> (r: E)
    ensures
        forall|env: Seq<nat>| #[trigger] r.value(env) == value as nat,
        forall|n: nat| #[trigger] r.within(n),
{
    E::constant(Scalar::from_u64(value))
}

fn delta_of<E: IdentityElement>(value: E) -> (r: E)
    ensures
        forall|env: Seq<nat>| #[trigger] r.value(env) == delta(value.value(env)),
        forall|n: nat| value.within(n) ==> #[trigger] r.within(n),
{
    value.duplicate().times(value.duplicate().minus(small(1))).times(
        value.duplicate().minus(small(2)),
    ).times(value.minus(small(3)))
}

fn quad_of<E: IdentityElement>(v: &E, w: &E) -> (r: E)
    ensures
        forall|env: Seq<nat>| #[trigger] r.value(env) == quad(v.value(env), w.value(env)),
        forall|n: nat| v.within(n) && w.within(n) ==> #[trigger] r.within(n),
{
    v.duplicate().minus(small::<E>(4).times(w.duplicate()))
}

fn logic_relation_of<E: IdentityElement>(a: &E, b: &E, product: &E, output: &E, q_c: &E) -> (r: E)
    ensures
        forall|env: Seq<nat>| #[trigger]
            r.value(env) == logic_relation(
                a.value(env),
                b.value(env),
                product.value(env),
                output.value(env),
                q_c.value(env),
            ),
        forall|n: nat|
            a.within(n) && b.within(n) && product.within(n) && output.within(n) && q_c.within(n)
                ==> #[trigger] r.within(n),
{
    let sum = a.duplicate().plus(b.duplicate());
    let inner = small::<E>(4).times(product.duplicate()).minus(small::<E>(18).times(sum.duplicate())).plus(
        small(81),
    );
    let squares = a.duplicate().times(a.duplicate()).plus(b.duplicate().times(b.duplicate()));
    let f = product.duplicate().times(
        product.duplicate().times(inner).plus(small::<E>(18).times(squares)).minus(
            small::<E>(81).times(sum.duplicate()),
        ).plus(small(83)),
    );
    let e = small::<E>(3).times(sum.duplicate().plus(output.duplicate())).minus(small::<E>(2).times(f));
    let b_term = q_c.duplicate().times(
        small::<E>(9).times(output.duplicate()).minus(small::<E>(3).times(sum)),
    );
    b_term.plus(e)
}

fn arithmetic_of<E: IdentityElement>(gate: &Gate, current: &WireValues<E>, public_input: E) -> (r: E)
    ensures
        forall|env: Seq<nat>| #[trigger]
            r.value(env) == arithmetic_identity(
                gate.model(),
                wire_values_at(*current, env),
                public_input.value(env),
            ),
        forall|n: nat| wires_within(*current, n) && public_input.within(n) ==> #[trigger] r.within(n),
{
    let a = &current.a;
    let b = &current.b;
    let qm: E = E::constant(*gate.q_m());
    let ql: E = E::constant(*gate.q_l());
    let qr: E = E::constant(*gate.q_r());
    let qo: E = E::constant(*gate.q_o());
    let qf: E = E::constant(*gate.q_f());
    let qc: E = E::constant(*gate.q_c());
    let qarith: E = E::constant(*gate.q_arith());
    qm.times(a.duplicate()).times(b.duplicate()).plus(ql.times(a.duplicate())).plus(
        qr.times(b.duplicate()),
    ).plus(qo.times(current.c.duplicate())).plus(qf.times(current.d.duplicate())).plus(qc).times(
        qarith,
    ).plus(public_input)
}

fn range_of<E: IdentityElement>(gate: &Gate, current: &WireValues<E>, next: &WireValues<E>) -> (r: (E, E, E, E))
    ensures
        forall|env: Seq<nat>| {
            let ids = #[trigger] range_identities(gate.model(), wire_values_at(*current, env), wire_values_at(*next, env));
            &&& r.0.value(env) == ids[0]
            &&& r.1.value(env) == ids[1]
            &&& r.2.value(env) == ids[2]
            &&& r.3.value(env) == ids[3]
        },
        forall|n: nat| #![trigger wires_within(*current, n), wires_within(*next, n)]
            wires_within(*current, n) && wires_within(*next, n) ==> r.0.within(n) && r.1.within(n)
                && r.2.within(n) && r.3.within(n),
{
    let qrange: E = E::constant(*gate.q_range());
    let range0 = delta_of(quad_of(&current.c, &current.d)).times(qrange.duplicate());
    let range1 = delta_of(quad_of(&current.b, &current.c)).times(qrange.duplicate());
    let range2 = delta_of(quad_of(&current.a, &current.b)).times(qrange.duplicate());
    let range3 = delta_of(quad_of(&next.d, &current.a)).times(qrange);
    (range0, range1, range2, range3)
}

fn logic_of<E: IdentityElement>(gate: &Gate, current: &WireValues<E>, next: &WireValues<E>) -> (r: (E, E, E, E, E))
    ensures
        forall|env: Seq<nat>| {
            let ids = #[trigger] logic_identities(gate.model(), wire_values_at(*current, env), wire_values_at(*next, env));
            &&& r.0.value(env) == ids[0]
            &&& r.1.value(env) == ids[1]
            &&& r.2.value(env) == ids[2]
            &&& r.3.value(env) == ids[3]
            &&& r.4.value(env) == ids[4]
        },
        forall|n: nat| #![trigger wires_within(*current, n), wires_within(*next, n)]
            wires_within(*current, n) && wires_within(*next, n) ==> r.0.within(n) && r.1.within(n)
                && r.2.within(n) && r.3.within(n) && r.4.within(n),
{
    let qlogic: E = E::constant(*gate.q_logic());
    let qc: E = E::constant(*gate.q_c());
    let left_quad = quad_of(&next.a, &current.a);
    let right_quad = quad_of(&next.b, &current.b);
    let output_quad = quad_of(&next.d, &current.d);
    let logic0 = delta_of(left_quad.duplicate()).times(qlogic.duplicate());
    let logic1 = delta_of(right_quad.duplicate()).times(qlogic.duplicate());
    let logic2 = delta_of(output_quad.duplicate()).times(qlogic.duplicate());
    let logic3 = current.c.duplicate().minus(left_quad.duplicate().times(right_quad.duplicate())).times(
        qlogic.duplicate(),
    );
    let logic4 = logic_relation_of(&left_quad, &right_quad, &current.c, &output_quad, &qc).times(qlogic);
    (logic0, logic1, logic2, logic3, logic4)
}

fn fixed_base_of<E: IdentityElement>(gate: &Gate, current: &WireValues<E>, next: &WireValues<E>) -> (r: (E, E, E, E))
    ensures
        forall|env: Seq<nat>| {
            let ids = #[trigger] fixed_base_identities(gate.model(), wire_values_at(*current, env), wire_values_at(*next, env));
            &&& r.0.value(env) == ids[0]
            &&& r.1.value(env) == ids[1]
            &&& r.2.value(env) == ids[2]
            &&& r.3.value(env) == ids[3]
        },
        forall|n: nat| #![trigger wires_within(*current, n), wires_within(*next, n)]
            wires_within(*current, n) && wires_within(*next, n) ==> r.0.within(n) && r.1.within(n)
                && r.2.within(n) && r.3.within(n),
{
    let a = &current.a;
    let b = &current.b;
    let c = &current.c;
    let d = &current.d;
    let a_w = &next.a;
    let b_w = &next.b;
    let ql: E = E::constant(*gate.q_l());
    let qr: E = E::constant(*gate.q_r());
    let qc: E = E::constant(*gate.q_c());
    let qfixed: E = E::constant(*gate.q_fixed_group_add());
    let bit = next.d.duplicate().minus(d.duplicate()).minus(d.duplicate());
    let bit_consistency = bit.duplicate().times(bit.duplicate().minus(small(1))).times(
        bit.duplicate().plus(small(1)),
    );
    let y_alpha = bit.duplicate().times(bit.duplicate()).times(qr.minus(small(1))).plus(small(1));
    let x_alpha = ql.times(bit.duplicate());
    let edwards: E = E::constant(edwards_d_scalar());
    let fixed0 = bit_consistency.times(qfixed.duplicate());
    let fixed1 = bit.times(qc).minus(c.duplicate()).times(qfixed.duplicate());
    let fixed2 = a_w.duplicate().plus(
        a_w.duplicate().times(c.duplicate()).times(a.duplicate()).times(b.duplicate()).times(
            edwards.duplicate(),
        ),
    ).minus(a.duplicate().times(y_alpha.duplicate()).plus(b.duplicate().times(x_alpha.duplicate()))).times(
        qfixed.duplicate(),
    );
    let fixed3 = b_w.duplicate().minus(
        b_w.duplicate().times(c.duplicate()).times(a.duplicate()).times(b.duplicate()).times(edwards),
    ).minus(b.duplicate().times(y_alpha).plus(a.duplicate().times(x_alpha))).times(qfixed);
    (fixed0, fixed1, fixed2, fixed3)
}

fn variable_base_of<E: IdentityElement>(gate: &Gate, current: &WireValues<E>, next: &WireValues<E>) -> (r: (E, E, E))
    ensures
        forall|env: Seq<nat>| {
            let ids = #[trigger] variable_base_identities(gate.model(), wire_values_at(*current, env), wire_values_at(*next, env));
            &&& r.0.value(env) == ids[0]
            &&& r.1.value(env) == ids[1]
            &&& r.2.value(env) == ids[2]
        },
        forall|n: nat| #![trigger wires_within(*current, n), wires_within(*next, n)]
            wires_within(*current, n) && wires_within(*next, n) ==> r.0.within(n) && r.1.within(n)
                && r.2.within(n),
{
    let a = &current.a;
    let b = &current.b;
    let qvariable: E = E::constant(*gate.q_variable_group_add());
    let x1_y2 = next.d.duplicate();
    let y1_x2 = b.duplicate().times(current.c.duplicate());
    let variable0 = a.duplicate().times(current.d.duplicate()).minus(x1_y2.duplicate()).times(
        qvariable.duplicate(),
    );
    let variable1 = x1_y2.duplicate().plus(y1_x2.duplicate()).minus(
        next.a.duplicate().plus(
            next.a.duplicate().times(E::constant(edwards_d_scalar())).times(x1_y2.duplicate()).times(
                y1_x2.duplicate(),
            ),
        ),
    ).times(qvariable.duplicate());
    let variable2 = b.duplicate().times(current.d.duplicate()).plus(a.duplicate().times(current.c.duplicate())).minus(
        next.b.duplicate().minus(
            next.b.duplicate().times(E::constant(edwards_d_scalar())).times(x1_y2).times(y1_x2),
        ),
    ).times(qvariable);
    (variable0, variable1, variable2)
}

/// Evaluate all independent identities for one gate row.
///
/// `current` is the row selected by `gate`; `next` supplies the shifted wire
/// values used by range, logic and curve gates. `public_input` is the row's
/// public value, or zero when the row has none.
pub fn evaluate<E: IdentityElement>(
    gate: &Gate,
    current: WireValues<E>,
    next: WireValues<E>,
    public_input: E,
) -> (r: Vec<E>)
    ensures
        r@.len() == 17,
        forall|env: Seq<nat>, i: int|
            0 <= i < 17 ==> #[trigger] r@[i].value(env) == identities(
                gate.model(),
                wire_values_at(current, env),
                wire_values_at(next, env),
                public_input.value(env),
            )[i],
        forall|n: nat, i: int|
            wires_within(current, n) && wires_within(next, n) && public_input.within(n) && 0 <= i < 17
                ==> #[trigger] r@[i].within(n),
{
    let ghost pi = public_input;
    let arithmetic = arithmetic_of(gate, &current, public_input);
    let range = range_of(gate, &current, &next);
    let logic = logic_of(gate, &current, &next);
    let fixed = fixed_base_of(gate, &current, &next);
    let variable = variable_base_of(gate, &current, &next);
    let mut r: Vec<E> = Vec::new();
    r.push(arithmetic);
    r.push(range.0);
    r.push(range.1);
    r.push(range.2);
    r.push(range.3);
    r.push(logic.0);
    r.push(logic.1);
    r.push(logic.2);
    r.push(logic.3);
    r.push(logic.4);
    r.push(fixed.0);
    r.push(fixed.1);
    r.push(fixed.2);
    r.push(fixed.3);
    r.push(variable.0);
    r.push(variable.1);
    r.push(variable.2);
    assert forall|env: Seq<nat>, i: int| 0 <= i < 17 implies #[trigger] r@[i].value(env) == identities(
        gate.model(),
        wire_values_at(current, env),
        wire_values_at(next, env),
        pi.value(env),
    )[i] by {
        let g = gate.model();
        let w = wire_values_at(current, env);
        let n = wire_values_at(next, env);
        let _ = range_identities(g, w, n);
        let _ = logic_identities(g, w, n);
        let _ = fixed_base_identities(g, w, n);
        let _ = variable_base_identities(g, w, n);
    }
    r
}

} // verus!
