//! The quotient of a satisfied circuit: `A·B - C` vanishes on the domain,
//! so the coefficient of `X^(n-1)` in `(A·B - C)/Z` computed on the coset is
//! zero.

use vstd::arithmetic::power2::pow2;
use vstd::prelude::*;

use super::dft::{
    geometric, half_turn, lemma_fpow_adds, lemma_fpow_canonical, lemma_fpow_multiplies,
    lemma_fpow_of_one, lemma_geometric_vanishes, lemma_sum_ext, lemma_sum_ones, sum_of,
};
use super::fft::EvaluationDomain;
use super::fft::{coset_scaled, padded};
use super::qap::{quotient_evaluations, side_rows};
use crate::field::{field_inverse, lemma_fmul_commutes, lemma_fmul_unit};
use crate::r1cs::{all_satisfied, field_values, R1csConstraint};
use crate::scalar::{fadd, fmul, fneg, fpow, fsub, modulus, Scalar};

verus! {

broadcast use {crate::scalar::lemma_fmul_canonical, crate::scalar::lemma_fadd_canonical};

/// `w^e = w^(e mod n)` for `w^n = 1`.
pub proof fn lemma_fpow_periodic(w: nat, n: nat, e: nat)
    requires
        n > 0,
        fpow(w, n) == 1,
    ensures
        fpow(w, e) == fpow(w, e % n),
{
    let t = e / n;
    let r = e % n;
    vstd::arithmetic::div_mod::lemma_fundamental_div_mod(e as int, n as int);
    assert(e == n * t + r);
    lemma_fpow_adds(w, n * t, r);
    lemma_fpow_multiplies(w, n, t);
    lemma_fpow_of_one(t);
    lemma_fpow_canonical(w, r);
    lemma_fmul_unit(fpow(w, r));
}

/// `Σ_{k<n} w^(e·k)` for `w` of order `n = 2^levels` is `n` when `n`
/// divides `e` and zero otherwise.
pub proof fn lemma_power_sum(w: nat, levels: nat, e: nat)
    requires
        half_turn(w, levels),
        fpow(w, pow2(levels)) == 1,
    ensures
        sum_of(|k: int| fpow(w, (e * k) as nat), pow2(levels)) == if e % pow2(levels) == 0 {
            pow2(levels) % modulus()
        } else {
            0
        },
{
    let n = pow2(levels);
    let r = e % n;
    let x = fpow(w, r);
    vstd::arithmetic::power2::lemma_pow2_pos(levels);
    lemma_fpow_periodic(w, n, e);
    assert forall|k: int| 0 <= k < n implies #[trigger] fpow(w, (e * k) as nat) == fpow(x, k as nat) by {
        assert(e * k >= 0) by (nonlinear_arith)
            requires
                k >= 0,
        ;
        lemma_fpow_multiplies(w, e, k as nat);
    }
    lemma_sum_ext(|k: int| fpow(w, (e * k) as nat), |k: int| fpow(x, k as nat), n);
    if r == 0 {
        vstd::arithmetic::power::lemma_pow0(w as int);
        vstd::arithmetic::div_mod::lemma_small_mod(1, modulus());
        assert forall|k: int| 0 <= k < n implies #[trigger] fpow(x, k as nat) == 1nat by {
            lemma_fpow_of_one(k as nat);
        }
        lemma_sum_ext(|k: int| fpow(x, k as nat), |k: int| 1nat, n);
        lemma_sum_ones(n);
    } else {
        lemma_geometric_vanishes(w, levels, r);
        assert(geometric(x, levels) == sum_of(|k: int| fpow(x, k as nat), n));
    }
}

/// `Σ_j p_j·g^j·w^(j·k)`: the polynomial with coefficients `p` at `g·w^k`.
pub open spec fn twisted(p: Seq<nat>, g: nat, w: nat, k: nat) -> nat {
    sum_of(|j: int| fmul(fmul(p[j], fpow(g, j as nat)), fpow(w, (j * k) as nat)), p.len())
}

/// `p_j·g^j·w^((j+1)·k)`, as a function of `k` and `j`.
pub open spec fn shifted_terms(p: Seq<nat>, g: nat, w: nat) -> spec_fn(int, int) -> nat {
    |k: int, j: int| fmul(fmul(p[j], fpow(g, j as nat)), fpow(w, ((j + 1) * k) as nat))
}

/// `x·w^(j·k)·w^k = x·w^((j+1)·k)`.
proof fn lemma_shift_exponent(x: nat, w: nat, j: int, k: int)
    requires
        0 <= j,
        0 <= k,
    ensures
        fmul(fmul(x, fpow(w, (j * k) as nat)), fpow(w, k as nat)) == fmul(x, fpow(w, ((j + 1) * k) as nat)),
{
    assert(j * k >= 0 && (j + 1) * k == j * k + k) by (nonlinear_arith)
        requires
            0 <= j,
            0 <= k,
    ;
    lemma_fpow_adds(w, (j * k) as nat, k as nat);
    crate::field::lemma_fmul_associates(x, fpow(w, (j * k) as nat), fpow(w, k as nat));
}

/// Summing `C(g·w^k)·w^k` over the domain picks out the top coefficient:
/// `Σ_k C(g·w^k)·w^k = n·c_(n-1)·g^(n-1)`.
pub proof fn lemma_twisted_top(c: Seq<nat>, g: nat, w: nat, levels: nat)
    requires
        c.len() == pow2(levels),
        half_turn(w, levels),
        fpow(w, pow2(levels)) == 1,
    ensures
        sum_of(|k: int| fmul(twisted(c, g, w, k as nat), fpow(w, k as nat)), pow2(levels)) == fmul(
            fmul(pow2(levels) % modulus(), c[pow2(levels) - 1]),
            fpow(g, (pow2(levels) - 1) as nat),
        ),
{
    let n = pow2(levels);
    vstd::arithmetic::power2::lemma_pow2_pos(levels);
    let terms = shifted_terms(c, g, w);
    let x = |j: int| fmul(c[j], fpow(g, j as nat));
    // each k: the scaled transform is the row sum of the shifted terms
    assert forall|k: int| 0 <= k < n implies #[trigger] fmul(twisted(c, g, w, k as nat), fpow(w, k as nat))
        == super::dft::row_sum(terms, k, n) by {
        let f = |j: int| fmul(x(j), fpow(w, (j * k) as nat));
        super::dft::lemma_sum_scale(f, n, fpow(w, k as nat));
        assert forall|j: int| 0 <= j < n implies #[trigger] fmul(f(j), fpow(w, k as nat)) == terms(k, j) by {
            lemma_shift_exponent(x(j), w, j, k);
        }
        lemma_sum_ext(|j: int| fmul(f(j), fpow(w, k as nat)), |j: int| terms(k, j), n);
        let kn = k as nat;
        lemma_sum_ext(
            |j: int| fmul(fmul(c[j], fpow(g, j as nat)), fpow(w, (j * kn) as nat)),
            f,
            n,
        );
    }
    lemma_sum_ext(
        |k: int| fmul(twisted(c, g, w, k as nat), fpow(w, k as nat)),
        |k: int| super::dft::row_sum(terms, k, n),
        n,
    );
    super::dft::lemma_sum_swap(terms, n, n);
    // each column: x_j times the power sum of exponent j + 1
    let top = (n - 1) as int;
    assert forall|j: int| 0 <= j < n implies #[trigger] super::dft::column_sum(terms, j, n) == if j == top {
        fmul(n % modulus(), x(j))
    } else {
        0
    } by {
        let e = (j + 1) as nat;
        let p = |k: int| fpow(w, (e * k) as nat);
        assert forall|k: int| 0 <= k < n implies #[trigger] terms(k, j) == fmul(p(k), x(j)) by {
            lemma_fmul_commutes(x(j), p(k));
        }
        lemma_sum_ext(|k: int| terms(k, j), |k: int| fmul(p(k), x(j)), n);
        super::dft::lemma_sum_scale(p, n, x(j));
        lemma_power_sum(w, levels, e);
        if j == top {
            vstd::arithmetic::div_mod::lemma_mod_self_0(n as int);
            lemma_fmul_commutes(n % modulus(), x(j));
        } else {
            vstd::arithmetic::div_mod::lemma_small_mod(e, n);
            super::dft::lemma_sum_canonical(p, n);
            lemma_fmul_unit(x(j));
        }
    }
    super::dft::lemma_sum_single(|j: int| super::dft::column_sum(terms, j, n), n, top);
    crate::field::lemma_fmul_associates(n % modulus(), c[top], fpow(g, top as nat));
}

/// `a_i·g^i · b_j·g^j · w^((i+j+1)·k)`, as a function of `k` and `j` for a
/// fixed `i`.
pub open spec fn pair_terms(a: Seq<nat>, b: Seq<nat>, g: nat, w: nat, i: int) -> spec_fn(
    int,
    int,
) -> nat {
    |k: int, j: int|
        fmul(
            fmul(fmul(a[i], fpow(g, i as nat)), fmul(b[j], fpow(g, j as nat))),
            fpow(w, ((i + j + 1) * k) as nat),
        )
}

/// `Σ_j a_i·g^i · b_j·g^j · w^((i+j+1)·k)`, as a function of `k` and `i`.
pub open spec fn pair_rows(a: Seq<nat>, b: Seq<nat>, g: nat, w: nat, n: nat) -> spec_fn(
    int,
    int,
) -> nat {
    |k: int, i: int| super::dft::row_sum(pair_terms(a, b, g, w, i), k, n)
}

/// `(x·w^(ik))·(y·w^(jk))·w^k = (x·y)·w^((i+j+1)k)`.
proof fn lemma_rearrange(x: nat, y: nat, w: nat, i: int, j: int, k: int)
    requires
        0 <= i,
        0 <= j,
        0 <= k,
    ensures
        fmul(
            fmul(fmul(x, fpow(w, (i * k) as nat)), fmul(y, fpow(w, (j * k) as nat))),
            fpow(w, k as nat),
        ) == fmul(fmul(x, y), fpow(w, ((i + j + 1) * k) as nat)),
{
    let p = fpow(w, (i * k) as nat);
    let q = fpow(w, (j * k) as nat);
    let r = fpow(w, k as nat);
    assert(i * k >= 0 && j * k >= 0 && (i + j + 1) * k == (i * k + j * k) + k) by (nonlinear_arith)
        requires
            0 <= i,
            0 <= j,
            0 <= k,
    ;
    lemma_fpow_adds(w, (i * k) as nat, (j * k) as nat);
    lemma_fpow_adds(w, (i * k + j * k) as nat, k as nat);
    // (x p)(y q) = (x y)(p q)
    crate::field::lemma_fmul_associates(x, p, fmul(y, q));
    crate::field::lemma_fmul_associates(p, y, q);
    lemma_fmul_commutes(p, y);
    crate::field::lemma_fmul_associates(y, p, q);
    crate::field::lemma_fmul_associates(x, y, fmul(p, q));
    // ((x y)(p q)) r = (x y)((p q) r)
    crate::field::lemma_fmul_associates(fmul(x, y), fmul(p, q), r);
}

/// At each `k`, `A(g·w^k)·B(g·w^k)·w^k` is the double sum of the pair terms.
proof fn lemma_product_row(a: Seq<nat>, b: Seq<nat>, g: nat, w: nat, n: nat, k: int)
    requires
        a.len() == n,
        b.len() == n,
        0 <= k,
    ensures
        fmul(fmul(twisted(a, g, w, k as nat), twisted(b, g, w, k as nat)), fpow(w, k as nat))
            == super::dft::row_sum(pair_rows(a, b, g, w, n), k, n),
{
    let kn = k as nat;
    let wk = fpow(w, kn);
    let xs = |i: int| fmul(fmul(a[i], fpow(g, i as nat)), fpow(w, (i * kn) as nat));
    let ys = |j: int| fmul(fmul(b[j], fpow(g, j as nat)), fpow(w, (j * kn) as nat));
    let ta = twisted(a, g, w, kn);
    let tb = twisted(b, g, w, kn);
    assert(ta == sum_of(xs, n));
    assert(tb == sum_of(ys, n));
    // A·B = Σ_i x_i·B
    super::dft::lemma_sum_scale(xs, n, tb);
    // x_i·B·w^k = Σ_j x_i y_j w^k
    assert forall|i: int| 0 <= i < n implies #[trigger] fmul(fmul(xs(i), tb), wk) == pair_rows(
        a,
        b,
        g,
        w,
        n,
    )(k, i) by {
        let xi = xs(i);
        super::dft::lemma_sum_scale(ys, n, xi);
        assert forall|j: int| 0 <= j < n implies #[trigger] fmul(ys(j), xi) == fmul(xi, ys(j)) by {
            lemma_fmul_commutes(ys(j), xi);
        }
        lemma_sum_ext(|j: int| fmul(ys(j), xi), |j: int| fmul(xi, ys(j)), n);
        lemma_fmul_commutes(xi, tb);
        let prods = |j: int| fmul(xi, ys(j));
        super::dft::lemma_sum_scale(prods, n, wk);
        assert forall|j: int| 0 <= j < n implies #[trigger] fmul(prods(j), wk) == pair_terms(
            a,
            b,
            g,
            w,
            i,
        )(k, j) by {
            lemma_rearrange(
                fmul(a[i], fpow(g, i as nat)),
                fmul(b[j], fpow(g, j as nat)),
                w,
                i,
                j,
                k,
            );
        }
        lemma_sum_ext(|j: int| fmul(prods(j), wk), |j: int| pair_terms(a, b, g, w, i)(k, j), n);
    }
    let rows = |i: int| fmul(xs(i), tb);
    super::dft::lemma_sum_scale(rows, n, wk);
    lemma_sum_ext(|i: int| fmul(rows(i), wk), |i: int| pair_rows(a, b, g, w, n)(k, i), n);
}

/// `(x·y)·(z·v) = (x·z)·(y·v)`.
proof fn lemma_fmul_interchange(x: nat, y: nat, z: nat, v: nat)
    ensures
        fmul(fmul(x, y), fmul(z, v)) == fmul(fmul(x, z), fmul(y, v)),
{
    crate::field::lemma_fmul_associates(x, y, fmul(z, v));
    crate::field::lemma_fmul_associates(y, z, v);
    lemma_fmul_commutes(y, z);
    crate::field::lemma_fmul_associates(z, y, v);
    crate::field::lemma_fmul_associates(x, z, fmul(y, v));
}

/// Column `j` of the pair terms of row `i`: the power sum of `i + j + 1`,
/// which is `n` when `i + j + 1 = n` and zero otherwise.
proof fn lemma_pair_column(a: Seq<nat>, b: Seq<nat>, g: nat, w: nat, levels: nat, i: int, j: int)
    requires
        a.len() == pow2(levels),
        b.len() == pow2(levels),
        half_turn(w, levels),
        fpow(w, pow2(levels)) == 1,
        0 <= i < pow2(levels),
        0 <= j < pow2(levels),
    ensures
        super::dft::column_sum(pair_terms(a, b, g, w, i), j, pow2(levels)) == if i + j + 1 == pow2(levels) {
            fmul(
                pow2(levels) % modulus(),
                fmul(fmul(a[i], fpow(g, i as nat)), fmul(b[j], fpow(g, j as nat))),
            )
        } else {
            0
        },
{
    let n = pow2(levels);
    let t = pair_terms(a, b, g, w, i);
    let x = fmul(fmul(a[i], fpow(g, i as nat)), fmul(b[j], fpow(g, j as nat)));
    let e = (i + j + 1) as nat;
    let p = |k: int| fpow(w, (e * k) as nat);
    assert forall|k: int| 0 <= k < n implies #[trigger] t(k, j) == fmul(p(k), x) by {
        lemma_fmul_commutes(x, p(k));
    }
    lemma_sum_ext(|k: int| t(k, j), |k: int| fmul(p(k), x), n);
    super::dft::lemma_sum_scale(p, n, x);
    lemma_power_sum(w, levels, e);
    if e < n {
        vstd::arithmetic::div_mod::lemma_small_mod(e, n);
    } else {
        vstd::arithmetic::div_mod::lemma_fundamental_div_mod_converse(
            e as int,
            n as int,
            1,
            (e - n) as int,
        );
    }
    if e == n {
        lemma_fmul_commutes(n % modulus(), x);
    } else {
        super::dft::lemma_sum_canonical(p, n);
        lemma_fmul_unit(x);
    }
}

/// Row `i` of the pair rows, summed over the domain, keeps only the term
/// with `j = n - 1 - i`.
proof fn lemma_pair_row_total(a: Seq<nat>, b: Seq<nat>, g: nat, w: nat, levels: nat, i: int)
    requires
        a.len() == pow2(levels),
        b.len() == pow2(levels),
        half_turn(w, levels),
        fpow(w, pow2(levels)) == 1,
        0 <= i < pow2(levels),
    ensures
        super::dft::column_sum(pair_rows(a, b, g, w, pow2(levels)), i, pow2(levels)) == fmul(
            pow2(levels) % modulus(),
            fmul(
                fmul(a[i], b[pow2(levels) - 1 - i]),
                fpow(g, (pow2(levels) - 1) as nat),
            ),
        ),
{
    let n = pow2(levels);
    let t = pair_terms(a, b, g, w, i);
    let j0 = n - 1 - i;
    lemma_sum_ext(
        |k: int| pair_rows(a, b, g, w, n)(k, i),
        |k: int| super::dft::row_sum(t, k, n),
        n,
    );
    super::dft::lemma_sum_swap(t, n, n);
    assert forall|j: int| 0 <= j < n && j != j0 implies #[trigger] super::dft::column_sum(t, j, n)
        == 0 by {
        lemma_pair_column(a, b, g, w, levels, i, j);
    }
    lemma_pair_column(a, b, g, w, levels, i, j0);
    super::dft::lemma_sum_single(|j: int| super::dft::column_sum(t, j, n), n, j0);
    lemma_fmul_interchange(a[i], fpow(g, i as nat), b[j0], fpow(g, j0 as nat));
    lemma_fpow_adds(g, i as nat, j0 as nat);
    assert(i as nat + j0 as nat == (n - 1) as nat);
}

/// `Σ_{i<n} a_i·b_(n-1-i)`: the coefficient of `X^(n-1)` in `A·B`.
pub open spec fn product_top(a: Seq<nat>, b: Seq<nat>, n: nat) -> nat {
    sum_of(|i: int| fmul(a[i], b[n - 1 - i]), n)
}

/// Summing `A(g·w^k)·B(g·w^k)·w^k` over the domain picks out the
/// coefficient of `X^(n-1)` in `A·B`:
/// `Σ_k A(g·w^k)·B(g·w^k)·w^k = n·(Σ_i a_i·b_(n-1-i))·g^(n-1)`.
pub proof fn lemma_product_top(a: Seq<nat>, b: Seq<nat>, g: nat, w: nat, levels: nat)
    requires
        a.len() == pow2(levels),
        b.len() == pow2(levels),
        half_turn(w, levels),
        fpow(w, pow2(levels)) == 1,
    ensures
        sum_of(
            |k: int|
                fmul(
                    fmul(twisted(a, g, w, k as nat), twisted(b, g, w, k as nat)),
                    fpow(w, k as nat),
                ),
            pow2(levels),
        ) == fmul(
            fmul(pow2(levels) % modulus(), product_top(a, b, pow2(levels))),
            fpow(g, (pow2(levels) - 1) as nat),
        ),
{
    let n = pow2(levels);
    vstd::arithmetic::power2::lemma_pow2_pos(levels);
    let rows = pair_rows(a, b, g, w, n);
    let top_g = fpow(g, (n - 1) as nat);
    let scale = n % modulus();
    assert forall|k: int| 0 <= k < n implies #[trigger] fmul(
        fmul(twisted(a, g, w, k as nat), twisted(b, g, w, k as nat)),
        fpow(w, k as nat),
    ) == super::dft::row_sum(rows, k, n) by {
        lemma_product_row(a, b, g, w, n, k);
    }
    lemma_sum_ext(
        |k: int|
            fmul(
                fmul(twisted(a, g, w, k as nat), twisted(b, g, w, k as nat)),
                fpow(w, k as nat),
            ),
        |k: int| super::dft::row_sum(rows, k, n),
        n,
    );
    super::dft::lemma_sum_swap(rows, n, n);
    let pairs = |i: int| fmul(a[i], b[n - 1 - i]);
    let k2 = fmul(scale, top_g);
    assert forall|i: int| 0 <= i < n implies #[trigger] super::dft::column_sum(rows, i, n) == fmul(
        pairs(i),
        k2,
    ) by {
        lemma_pair_row_total(a, b, g, w, levels, i);
        crate::field::lemma_fmul_associates(scale, pairs(i), top_g);
        lemma_fmul_commutes(scale, pairs(i));
        crate::field::lemma_fmul_associates(pairs(i), scale, top_g);
    }
    lemma_sum_ext(
        |i: int| super::dft::column_sum(rows, i, n),
        |i: int| fmul(pairs(i), k2),
        n,
    );
    super::dft::lemma_sum_scale(pairs, n, k2);
    let total = sum_of(pairs, n);
    crate::field::lemma_fmul_associates(total, scale, top_g);
    lemma_fmul_commutes(total, scale);
}

/// `Σ (p_k - c_k)·w_k = Σ p_k·w_k - Σ c_k·w_k` for canonical `p_k`, `c_k`.
pub proof fn lemma_sum_difference(
    p: spec_fn(int) -> nat,
    c: spec_fn(int) -> nat,
    w: spec_fn(int) -> nat,
    n: nat,
)
    requires
        forall|k: int| 0 <= k < n ==> #[trigger] p(k) < modulus() && c(k) < modulus(),
    ensures
        sum_of(|k: int| fmul(fsub(p(k), c(k)), w(k)), n) == fsub(
            sum_of(|k: int| fmul(p(k), w(k)), n),
            sum_of(|k: int| fmul(c(k), w(k)), n),
        ),
{
    let m1 = fneg(1);
    let pw = |k: int| fmul(p(k), w(k));
    let cw = |k: int| fmul(c(k), w(k));
    let ncw = |k: int| fmul(cw(k), m1);
    assert forall|k: int| 0 <= k < n implies #[trigger] fmul(fsub(p(k), c(k)), w(k)) == fadd(
        pw(k),
        ncw(k),
    ) by {
        crate::field::lemma_fsub_as_add(p(k), c(k));
        crate::field::lemma_fmul_distributes(w(k), p(k), fmul(m1, c(k)));
        crate::field::lemma_fmul_associates(m1, c(k), w(k));
        lemma_fmul_commutes(m1, cw(k));
    }
    lemma_sum_ext(
        |k: int| fmul(fsub(p(k), c(k)), w(k)),
        |k: int| fadd(pw(k), ncw(k)),
        n,
    );
    super::dft::lemma_sum_add(pw, ncw, n);
    super::dft::lemma_sum_scale(cw, n, m1);
    let sp = sum_of(pw, n);
    let sc = sum_of(cw, n);
    super::dft::lemma_sum_canonical(pw, n);
    super::dft::lemma_sum_canonical(cw, n);
    lemma_fmul_commutes(sc, m1);
    crate::field::lemma_fsub_as_add(sp, sc);
}

/// `n⁻¹·(n·x) = x` for canonical `x`.
proof fn lemma_cancel_size(n: nat, inverse: nat, x: nat)
    requires
        fmul(n, inverse) == 1,
        x < modulus(),
    ensures
        fmul(inverse, fmul(n % modulus(), x)) == x,
{
    assert(fmul(n % modulus(), inverse) == 1) by {
        reveal(fmul);
        vstd::arithmetic::div_mod::lemma_mul_mod_noop_left(n as int, inverse as int, modulus() as int);
    }
    crate::field::lemma_fmul_associates(inverse, n % modulus(), x);
    lemma_fmul_commutes(inverse, n % modulus());
    lemma_fmul_unit(x);
}

/// The polynomial with coefficients `p` at `w^k`, written with the twist
/// `g = 1`, is the transform of `p` at `k`.
proof fn lemma_untwisted(p: Seq<nat>, w: nat, k: nat)
    requires
        forall|j: int| 0 <= j < p.len() ==> #[trigger] p[j] < modulus(),
    ensures
        twisted(p, 1, w, k) == super::dft::dft(p, w, k),
{
    assert forall|j: int| 0 <= j < p.len() implies #[trigger] fmul(fmul(p[j], fpow(1, j as nat)), fpow(w, (j * k) as nat))
        == fmul(p[j], fpow(w, (j * k) as nat)) by {
        lemma_fpow_of_one(j as nat);
        lemma_fmul_unit(p[j]);
    }
    lemma_sum_ext(
        |j: int| fmul(fmul(p[j], fpow(1, j as nat)), fpow(w, (j * k) as nat)),
        |j: int| fmul(p[j], fpow(w, (j * k) as nat)),
        p.len(),
    );
}

/// For a satisfied circuit the coefficient of `X^(n-1)` in `A·B` equals
/// that of `C`, for the polynomials that interpolate the three sides over
/// the domain.
pub proof fn lemma_satisfied_top(domain: EvaluationDomain, rows: Seq<R1csConstraint>, values: Seq<Scalar>)
    requires
        domain.well_formed(),
        all_satisfied(rows, values),
        rows.len() <= domain.domain_size(),
    ensures
        ({
            let n = domain.domain_size();
            let env = field_values(values);
            product_top(
                domain.interpolation(side_rows(rows, 0, env, n)),
                domain.interpolation(side_rows(rows, 1, env, n)),
                n,
            ) == domain.interpolation(side_rows(rows, 2, env, n))[n - 1]
        }),
{
    domain.lemma_roots();
    let n = domain.domain_size();
    let levels = domain.log_size();
    let w = domain.omega();
    let env = field_values(values);
    let a = domain.interpolation(side_rows(rows, 0, env, n));
    let b = domain.interpolation(side_rows(rows, 1, env, n));
    let c = domain.interpolation(side_rows(rows, 2, env, n));
    vstd::arithmetic::power2::lemma_pow2_pos(levels);
    assert forall|k: int| 0 <= k < n implies #[trigger] fmul(
        fmul(twisted(a, 1, w, k as nat), twisted(b, 1, w, k as nat)),
        fpow(w, k as nat),
    ) == fmul(twisted(c, 1, w, k as nat), fpow(w, k as nat)) by {
        lemma_untwisted(a, w, k as nat);
        lemma_untwisted(b, w, k as nat);
        lemma_untwisted(c, w, k as nat);
        super::qap::lemma_satisfied_qap(domain, rows, values, k as nat);
    }
    lemma_sum_ext(
        |k: int|
            fmul(
                fmul(twisted(a, 1, w, k as nat), twisted(b, 1, w, k as nat)),
                fpow(w, k as nat),
            ),
        |k: int| fmul(twisted(c, 1, w, k as nat), fpow(w, k as nat)),
        n,
    );
    lemma_product_top(a, b, 1, w, levels);
    lemma_twisted_top(c, 1, w, levels);
    lemma_fpow_of_one((n - 1) as nat);
    let pt = product_top(a, b, n);
    lemma_fmul_unit(fmul(n % modulus(), pt));
    lemma_fmul_unit(fmul(n % modulus(), c[n - 1]));
    super::dft::lemma_sum_canonical(|i: int| fmul(a[i], b[n - 1 - i]), n);
    lemma_cancel_size(n, domain.size_inverse_value(), pt);
    lemma_cancel_size(n, domain.size_inverse_value(), c[n - 1]);
}

/// The coset evaluations of coefficients `v` of the domain's size are the
/// twisted sums with `g = 7`.
proof fn lemma_coset_twisted(domain: EvaluationDomain, v: Seq<nat>, k: nat)
    requires
        v.len() == domain.domain_size(),
        k < domain.domain_size(),
    ensures
        domain.coset_evaluation(v)[k as int] == twisted(v, 7, domain.omega(), k),
{
    let n = domain.domain_size();
    let scaled = coset_scaled(v, 7);
    assert(padded(scaled, n) =~= scaled);
    lemma_sum_ext(
        |j: int| fmul(scaled[j], fpow(domain.omega(), (j * k) as nat)),
        |j: int| fmul(fmul(v[j], fpow(7, j as nat)), fpow(domain.omega(), (j * k) as nat)),
        n,
    );
}

/// For a circuit whose assignment satisfies it, with no more equations than
/// domain points, the coefficient of `X^(n-1)` in the quotient
/// `(A·B - C)/Z` that the coset method computes is zero: `A·B - C` vanishes
/// on the domain, so the quotient has degree below `n - 1`.
pub proof fn lemma_quotient_top_vanishes(
    domain: EvaluationDomain,
    rows: Seq<R1csConstraint>,
    values: Seq<Scalar>,
)
    requires
        domain.well_formed(),
        all_satisfied(rows, values),
        rows.len() <= domain.domain_size(),
    ensures
        domain.coset_interpolation(quotient_evaluations(domain, rows, field_values(values)))[domain.domain_size()
            - 1] == 0,
{
    domain.lemma_roots();
    let n = domain.domain_size();
    let levels = domain.log_size();
    let w = domain.omega();
    let winv = domain.omega_inverse_value();
    let top = (n - 1) as nat;
    let env = field_values(values);
    let a = domain.interpolation(side_rows(rows, 0, env, n));
    let b = domain.interpolation(side_rows(rows, 1, env, n));
    let c = domain.interpolation(side_rows(rows, 2, env, n));
    let a7 = domain.coset_evaluation(a);
    let b7 = domain.coset_evaluation(b);
    let c7 = domain.coset_evaluation(c);
    let z = field_inverse(fsub(fpow(7, n), 1));
    let e = quotient_evaluations(domain, rows, env);
    vstd::arithmetic::power2::lemma_pow2_pos(levels);
    lemma_satisfied_top(domain, rows, values);
    // ω⁻¹^(n-1) = ω
    lemma_fpow_inverse_cancels_n(w, winv, n);
    crate::scalar::lemma_fpow_step(winv, top);
    assert(top + 1 == n);
    lemma_fmul_commutes(fpow(winv, top), winv);
    lemma_fpow_canonical(winv, top);
    crate::field::lemma_field_inverse_unique(winv, fpow(winv, top));
    lemma_fmul_commutes(w, winv);
    crate::field::lemma_field_inverse_unique(winv, w);
    assert(fpow(winv, top) == w);
    // the transform at n - 1 with ω⁻¹ is Σ_k e_k·ω^k
    let p = |k: int| fmul(twisted(a, 7, w, k as nat), twisted(b, 7, w, k as nat));
    let q = |k: int| twisted(c, 7, w, k as nat);
    let wk = |k: int| fpow(w, k as nat);
    let d = |k: int| fmul(fsub(p(k), q(k)), wk(k));
    assert(padded(e, n) =~= e);
    assert forall|k: int| 0 <= k < n implies #[trigger] fmul(e[k], fpow(winv, (k * top) as nat)) == fmul(
        d(k),
        z,
    ) by {
        lemma_coset_twisted(domain, a, k as nat);
        lemma_coset_twisted(domain, b, k as nat);
        lemma_coset_twisted(domain, c, k as nat);
        assert(k * top >= 0 && k * top == top * k) by (nonlinear_arith)
            requires
                k >= 0,
        ;
        lemma_fpow_multiplies(winv, top, k as nat);
        let diff = fsub(p(k), q(k));
        crate::field::lemma_fmul_associates(diff, z, wk(k));
        lemma_fmul_commutes(z, wk(k));
        crate::field::lemma_fmul_associates(diff, wk(k), z);
    }
    lemma_sum_ext(
        |k: int| fmul(e[k], fpow(winv, (k * top) as nat)),
        |k: int| fmul(d(k), z),
        n,
    );
    super::dft::lemma_sum_scale(d, n, z);
    // Σ (A·B - C)(7ω^k)·ω^k = n·7^(n-1)·(top of A·B - top of C) = 0
    assert forall|k: int| 0 <= k < n implies #[trigger] p(k) < modulus() && q(k) < modulus() by {
        super::dft::lemma_sum_canonical(
            |j: int| fmul(fmul(c[j], fpow(7, j as nat)), fpow(w, (j * (k as nat)) as nat)),
            c.len(),
        );
    }
    lemma_sum_difference(p, q, wk, n);
    lemma_product_top(a, b, 7, w, levels);
    lemma_twisted_top(c, 7, w, levels);
    let x = fmul(fmul(n % modulus(), c[n - 1]), fpow(7, top));
    crate::field::lemma_fsub_as_add(x, x);
    crate::field::lemma_difference_zero(x, x);
    lemma_sum_ext(
        |k: int| fmul(p(k), wk(k)),
        |k: int|
            fmul(
                fmul(twisted(a, 7, w, k as nat), twisted(b, 7, w, k as nat)),
                fpow(w, k as nat),
            ),
        n,
    );
    lemma_sum_ext(
        |k: int| fmul(q(k), wk(k)),
        |k: int| fmul(twisted(c, 7, w, k as nat), fpow(w, k as nat)),
        n,
    );
    assert(sum_of(|k: int| fmul(p(k), wk(k)), n) == x);
    assert(sum_of(|k: int| fmul(q(k), wk(k)), n) == x);
    assert(sum_of(d, n) == 0);
    assert(fmul(0, z) == 0) by {
        reveal(fmul);
        assert(0 * z == 0) by (nonlinear_arith);
        vstd::arithmetic::div_mod::lemma_small_mod(0, modulus());
    }
    assert(super::dft::dft(padded(e, n), winv, top) == 0);
    lemma_fmul_unit(domain.size_inverse_value());
    assert(domain.interpolation(e)[top as int] == 0);
    lemma_fpow_canonical(domain.coset_inverse_value(), top);
    lemma_fmul_unit(fpow(domain.coset_inverse_value(), top));
}

/// `x^n · y^n = 1` for `x·y = 1`, so `y^n = 1` when `x^n = 1`.
proof fn lemma_fpow_inverse_cancels_n(x: nat, y: nat, n: nat)
    requires
        fmul(x, y) == 1,
        fpow(x, n) == 1,
    ensures
        fpow(y, n) == 1,
{
    super::dft::lemma_fpow_distributes(x, y, n);
    lemma_fpow_of_one(n);
    lemma_fpow_canonical(y, n);
    lemma_fmul_unit(fpow(y, n));
}

/// The coset generator 7 is no root of unity of order `2^k` for
/// `k < 32`: `7^(2^k) != 1`, so `Z(7) = 7^n - 1` is nonzero for every
/// domain size `n`.
pub proof fn lemma_coset_generator_powers(k: nat)
    requires
        k < 32,
    ensures
        fpow(7, pow2(k)) != 1,
{
    reveal(fmul);
    assert(fmul(0x7nat, 0x7nat) == 0x31nat);
    assert(fmul(0x31nat, 0x31nat) == 0x961nat);
    assert(fmul(0x961nat, 0x961nat) == 0x57f6c1nat);
    assert(fmul(0x57f6c1nat, 0x57f6c1nat) == 0x1e39a5057d81nat);
    assert(fmul(0x1e39a5057d81nat, 0x1e39a5057d81nat) == 0x3918fa8303c33586e913b01nat);
    assert(fmul(0x3918fa8303c33586e913b01nat, 0x3918fa8303c33586e913b01nat) == 0xcbc21fe4561c8d63b78e780e1341e199417c8c0bb7601nat);
    assert(fmul(0xcbc21fe4561c8d63b78e780e1341e199417c8c0bb7601nat, 0xcbc21fe4561c8d63b78e780e1341e199417c8c0bb7601nat) == 0x3f658b7688becbdd628a4be1e35a32d3601910de06fe2947626b83cf2f1e7765nat);
    assert(fmul(0x3f658b7688becbdd628a4be1e35a32d3601910de06fe2947626b83cf2f1e7765nat, 0x3f658b7688becbdd628a4be1e35a32d3601910de06fe2947626b83cf2f1e7765nat) == 0x4a789ea4fdc7ccf2f98a0632d8c6ed8905fb69fe4f4b57717cff0cd340c8e6dnat);
    assert(fmul(0x4a789ea4fdc7ccf2f98a0632d8c6ed8905fb69fe4f4b57717cff0cd340c8e6dnat, 0x4a789ea4fdc7ccf2f98a0632d8c6ed8905fb69fe4f4b57717cff0cd340c8e6dnat) == 0x4d1e5e8c9348ebdf2c1e2a75d7f3456d069489ff208b436e906c3a6979f6c0d9nat);
    assert(fmul(0x4d1e5e8c9348ebdf2c1e2a75d7f3456d069489ff208b436e906c3a6979f6c0d9nat, 0x4d1e5e8c9348ebdf2c1e2a75d7f3456d069489ff208b436e906c3a6979f6c0d9nat) == 0x45802caf41dbd58dd8be0b10e0eb662e5d5871f49b77117b84274f9b513c3705nat);
    assert(fmul(0x45802caf41dbd58dd8be0b10e0eb662e5d5871f49b77117b84274f9b513c3705nat, 0x45802caf41dbd58dd8be0b10e0eb662e5d5871f49b77117b84274f9b513c3705nat) == 0x964c3466f7187215b5abad04922d8e2a5a210cae66d3f767faf5a14caca24d4nat);
    assert(fmul(0x964c3466f7187215b5abad04922d8e2a5a210cae66d3f767faf5a14caca24d4nat, 0x964c3466f7187215b5abad04922d8e2a5a210cae66d3f767faf5a14caca24d4nat) == 0x5238ba785063e217812b41448426fe8aabb0d6e6b743db253683decc3f41b173nat);
    assert(fmul(0x5238ba785063e217812b41448426fe8aabb0d6e6b743db253683decc3f41b173nat, 0x5238ba785063e217812b41448426fe8aabb0d6e6b743db253683decc3f41b173nat) == 0x4a5cb61848084c353c2ea0463f78127afe022d9b35f1cf686e33d587cba29eddnat);
    assert(fmul(0x4a5cb61848084c353c2ea0463f78127afe022d9b35f1cf686e33d587cba29eddnat, 0x4a5cb61848084c353c2ea0463f78127afe022d9b35f1cf686e33d587cba29eddnat) == 0x2aa2c6745539c412745d7b3384d57091254fcc8528885b5ebd74b6631311b63enat);
    assert(fmul(0x2aa2c6745539c412745d7b3384d57091254fcc8528885b5ebd74b6631311b63enat, 0x2aa2c6745539c412745d7b3384d57091254fcc8528885b5ebd74b6631311b63enat) == 0x6804d24ab62aa136ba6e492fb897934ec92eca7707b4b62d29317b82b3379c2enat);
    assert(fmul(0x6804d24ab62aa136ba6e492fb897934ec92eca7707b4b62d29317b82b3379c2enat, 0x6804d24ab62aa136ba6e492fb897934ec92eca7707b4b62d29317b82b3379c2enat) == 0xeda5c059add22bd06c653a3a30dc6c47b749f3444a3f53ebaf3b58a7efb134fnat);
    assert(fmul(0xeda5c059add22bd06c653a3a30dc6c47b749f3444a3f53ebaf3b58a7efb134fnat, 0xeda5c059add22bd06c653a3a30dc6c47b749f3444a3f53ebaf3b58a7efb134fnat) == 0x30d604f213d878f7d0706249706d95c79581c3e36607b6712030e0f47b872b6dnat);
    assert(fmul(0x30d604f213d878f7d0706249706d95c79581c3e36607b6712030e0f47b872b6dnat, 0x30d604f213d878f7d0706249706d95c79581c3e36607b6712030e0f47b872b6dnat) == 0x3eb4ec72f1eea6bd4c7c790f8374a0d9776911bccac77483fd2421c34f25f9danat);
    assert(fmul(0x3eb4ec72f1eea6bd4c7c790f8374a0d9776911bccac77483fd2421c34f25f9danat, 0x3eb4ec72f1eea6bd4c7c790f8374a0d9776911bccac77483fd2421c34f25f9danat) == 0xc2a9a7faa1a1a2ed631f40acb99a21f9ae1ff0ea0334c18c525b6ab4565e752nat);
    assert(fmul(0xc2a9a7faa1a1a2ed631f40acb99a21f9ae1ff0ea0334c18c525b6ab4565e752nat, 0xc2a9a7faa1a1a2ed631f40acb99a21f9ae1ff0ea0334c18c525b6ab4565e752nat) == 0x628fc184374a1219e85d9e943d57d0c20bad4d8f813859f6121b51c927eaa4dcnat);
    assert(fmul(0x628fc184374a1219e85d9e943d57d0c20bad4d8f813859f6121b51c927eaa4dcnat, 0x628fc184374a1219e85d9e943d57d0c20bad4d8f813859f6121b51c927eaa4dcnat) == 0x1a35c7c215188748e7e542d149e563e7a4428baab83f69a56b7606628c87fe13nat);
    assert(fmul(0x1a35c7c215188748e7e542d149e563e7a4428baab83f69a56b7606628c87fe13nat, 0x1a35c7c215188748e7e542d149e563e7a4428baab83f69a56b7606628c87fe13nat) == 0x720ae8ff3738e762084a601dc0ff1294297fb210a4777bce414e9afbe9fe8391nat);
    assert(fmul(0x720ae8ff3738e762084a601dc0ff1294297fb210a4777bce414e9afbe9fe8391nat, 0x720ae8ff3738e762084a601dc0ff1294297fb210a4777bce414e9afbe9fe8391nat) == 0x58335464ad9e9cae4e3c072e4a91613482a60243cab735b648512d6f616d5433nat);
    assert(fmul(0x58335464ad9e9cae4e3c072e4a91613482a60243cab735b648512d6f616d5433nat, 0x58335464ad9e9cae4e3c072e4a91613482a60243cab735b648512d6f616d5433nat) == 0x429265f1d3e7fa86a1fadf67d487e6d964d94839da7a182571aadd3d0c035396nat);
    assert(fmul(0x429265f1d3e7fa86a1fadf67d487e6d964d94839da7a182571aadd3d0c035396nat, 0x429265f1d3e7fa86a1fadf67d487e6d964d94839da7a182571aadd3d0c035396nat) == 0x729ad34c57d4ef07d0322a356af7bf83aeffcf6d731d38a410cdf80b4199e4d7nat);
    assert(fmul(0x729ad34c57d4ef07d0322a356af7bf83aeffcf6d731d38a410cdf80b4199e4d7nat, 0x729ad34c57d4ef07d0322a356af7bf83aeffcf6d731d38a410cdf80b4199e4d7nat) == 0x2be12a4eb7fdd2448fffef1afca5eaf4dc9863ce38faf65ad7339e32176a1bd8nat);
    assert(fmul(0x2be12a4eb7fdd2448fffef1afca5eaf4dc9863ce38faf65ad7339e32176a1bd8nat, 0x2be12a4eb7fdd2448fffef1afca5eaf4dc9863ce38faf65ad7339e32176a1bd8nat) == 0x2a98b3de1e8d05396c576a792ed0dd3cafe4f76895ae53bfade986863f8b7153nat);
    assert(fmul(0x2a98b3de1e8d05396c576a792ed0dd3cafe4f76895ae53bfade986863f8b7153nat, 0x2a98b3de1e8d05396c576a792ed0dd3cafe4f76895ae53bfade986863f8b7153nat) == 0x689f65808ca09717b3829a115bd0634cb70b4a5ea3e0c94cdcf15f2f4e706efenat);
    assert(fmul(0x689f65808ca09717b3829a115bd0634cb70b4a5ea3e0c94cdcf15f2f4e706efenat, 0x689f65808ca09717b3829a115bd0634cb70b4a5ea3e0c94cdcf15f2f4e706efenat) == 0x64261cc222fdf91936919a42327a03e770bccb15393bcf7b9eb16e5f4ed5cd46nat);
    assert(fmul(0x64261cc222fdf91936919a42327a03e770bccb15393bcf7b9eb16e5f4ed5cd46nat, 0x64261cc222fdf91936919a42327a03e770bccb15393bcf7b9eb16e5f4ed5cd46nat) == 0x27359bd349c3f009050fce0e2c4d5f1154a815fea49a9a0a8baf83d6aca8566enat);
    assert(fmul(0x27359bd349c3f009050fce0e2c4d5f1154a815fea49a9a0a8baf83d6aca8566enat, 0x27359bd349c3f009050fce0e2c4d5f1154a815fea49a9a0a8baf83d6aca8566enat) == 0x46e02401a9194f3106d1137895c1d407deff7dc6ff0f95c4bb188d53056fd0d8nat);
    super::dft::lemma_fpow_small(7);
    vstd::arithmetic::power2::lemma2_to64();
    super::dft::lemma_fpow_double(7, pow2(0));
    vstd::arithmetic::power2::lemma_pow2_unfold(1);
    assert(fpow(7, pow2(1)) == 0x31nat);
    super::dft::lemma_fpow_double(7, pow2(1));
    vstd::arithmetic::power2::lemma_pow2_unfold(2);
    assert(fpow(7, pow2(2)) == 0x961nat);
    super::dft::lemma_fpow_double(7, pow2(2));
    vstd::arithmetic::power2::lemma_pow2_unfold(3);
    assert(fpow(7, pow2(3)) == 0x57f6c1nat);
    super::dft::lemma_fpow_double(7, pow2(3));
    vstd::arithmetic::power2::lemma_pow2_unfold(4);
    assert(fpow(7, pow2(4)) == 0x1e39a5057d81nat);
    super::dft::lemma_fpow_double(7, pow2(4));
    vstd::arithmetic::power2::lemma_pow2_unfold(5);
    assert(fpow(7, pow2(5)) == 0x3918fa8303c33586e913b01nat);
    super::dft::lemma_fpow_double(7, pow2(5));
    vstd::arithmetic::power2::lemma_pow2_unfold(6);
    assert(fpow(7, pow2(6)) == 0xcbc21fe4561c8d63b78e780e1341e199417c8c0bb7601nat);
    super::dft::lemma_fpow_double(7, pow2(6));
    vstd::arithmetic::power2::lemma_pow2_unfold(7);
    assert(fpow(7, pow2(7)) == 0x3f658b7688becbdd628a4be1e35a32d3601910de06fe2947626b83cf2f1e7765nat);
    super::dft::lemma_fpow_double(7, pow2(7));
    vstd::arithmetic::power2::lemma_pow2_unfold(8);
    assert(fpow(7, pow2(8)) == 0x4a789ea4fdc7ccf2f98a0632d8c6ed8905fb69fe4f4b57717cff0cd340c8e6dnat);
    super::dft::lemma_fpow_double(7, pow2(8));
    vstd::arithmetic::power2::lemma_pow2_unfold(9);
    assert(fpow(7, pow2(9)) == 0x4d1e5e8c9348ebdf2c1e2a75d7f3456d069489ff208b436e906c3a6979f6c0d9nat);
    super::dft::lemma_fpow_double(7, pow2(9));
    vstd::arithmetic::power2::lemma_pow2_unfold(10);
    assert(fpow(7, pow2(10)) == 0x45802caf41dbd58dd8be0b10e0eb662e5d5871f49b77117b84274f9b513c3705nat);
    super::dft::lemma_fpow_double(7, pow2(10));
    vstd::arithmetic::power2::lemma_pow2_unfold(11);
    assert(fpow(7, pow2(11)) == 0x964c3466f7187215b5abad04922d8e2a5a210cae66d3f767faf5a14caca24d4nat);
    super::dft::lemma_fpow_double(7, pow2(11));
    vstd::arithmetic::power2::lemma_pow2_unfold(12);
    assert(fpow(7, pow2(12)) == 0x5238ba785063e217812b41448426fe8aabb0d6e6b743db253683decc3f41b173nat);
    super::dft::lemma_fpow_double(7, pow2(12));
    vstd::arithmetic::power2::lemma_pow2_unfold(13);
    assert(fpow(7, pow2(13)) == 0x4a5cb61848084c353c2ea0463f78127afe022d9b35f1cf686e33d587cba29eddnat);
    super::dft::lemma_fpow_double(7, pow2(13));
    vstd::arithmetic::power2::lemma_pow2_unfold(14);
    assert(fpow(7, pow2(14)) == 0x2aa2c6745539c412745d7b3384d57091254fcc8528885b5ebd74b6631311b63enat);
    super::dft::lemma_fpow_double(7, pow2(14));
    vstd::arithmetic::power2::lemma_pow2_unfold(15);
    assert(fpow(7, pow2(15)) == 0x6804d24ab62aa136ba6e492fb897934ec92eca7707b4b62d29317b82b3379c2enat);
    super::dft::lemma_fpow_double(7, pow2(15));
    vstd::arithmetic::power2::lemma_pow2_unfold(16);
    assert(fpow(7, pow2(16)) == 0xeda5c059add22bd06c653a3a30dc6c47b749f3444a3f53ebaf3b58a7efb134fnat);
    super::dft::lemma_fpow_double(7, pow2(16));
    vstd::arithmetic::power2::lemma_pow2_unfold(17);
    assert(fpow(7, pow2(17)) == 0x30d604f213d878f7d0706249706d95c79581c3e36607b6712030e0f47b872b6dnat);
    super::dft::lemma_fpow_double(7, pow2(17));
    vstd::arithmetic::power2::lemma_pow2_unfold(18);
    assert(fpow(7, pow2(18)) == 0x3eb4ec72f1eea6bd4c7c790f8374a0d9776911bccac77483fd2421c34f25f9danat);
    super::dft::lemma_fpow_double(7, pow2(18));
    vstd::arithmetic::power2::lemma_pow2_unfold(19);
    assert(fpow(7, pow2(19)) == 0xc2a9a7faa1a1a2ed631f40acb99a21f9ae1ff0ea0334c18c525b6ab4565e752nat);
    super::dft::lemma_fpow_double(7, pow2(19));
    vstd::arithmetic::power2::lemma_pow2_unfold(20);
    assert(fpow(7, pow2(20)) == 0x628fc184374a1219e85d9e943d57d0c20bad4d8f813859f6121b51c927eaa4dcnat);
    super::dft::lemma_fpow_double(7, pow2(20));
    vstd::arithmetic::power2::lemma_pow2_unfold(21);
    assert(fpow(7, pow2(21)) == 0x1a35c7c215188748e7e542d149e563e7a4428baab83f69a56b7606628c87fe13nat);
    super::dft::lemma_fpow_double(7, pow2(21));
    vstd::arithmetic::power2::lemma_pow2_unfold(22);
    assert(fpow(7, pow2(22)) == 0x720ae8ff3738e762084a601dc0ff1294297fb210a4777bce414e9afbe9fe8391nat);
    super::dft::lemma_fpow_double(7, pow2(22));
    vstd::arithmetic::power2::lemma_pow2_unfold(23);
    assert(fpow(7, pow2(23)) == 0x58335464ad9e9cae4e3c072e4a91613482a60243cab735b648512d6f616d5433nat);
    super::dft::lemma_fpow_double(7, pow2(23));
    vstd::arithmetic::power2::lemma_pow2_unfold(24);
    assert(fpow(7, pow2(24)) == 0x429265f1d3e7fa86a1fadf67d487e6d964d94839da7a182571aadd3d0c035396nat);
    super::dft::lemma_fpow_double(7, pow2(24));
    vstd::arithmetic::power2::lemma_pow2_unfold(25);
    assert(fpow(7, pow2(25)) == 0x729ad34c57d4ef07d0322a356af7bf83aeffcf6d731d38a410cdf80b4199e4d7nat);
    super::dft::lemma_fpow_double(7, pow2(25));
    vstd::arithmetic::power2::lemma_pow2_unfold(26);
    assert(fpow(7, pow2(26)) == 0x2be12a4eb7fdd2448fffef1afca5eaf4dc9863ce38faf65ad7339e32176a1bd8nat);
    super::dft::lemma_fpow_double(7, pow2(26));
    vstd::arithmetic::power2::lemma_pow2_unfold(27);
    assert(fpow(7, pow2(27)) == 0x2a98b3de1e8d05396c576a792ed0dd3cafe4f76895ae53bfade986863f8b7153nat);
    super::dft::lemma_fpow_double(7, pow2(27));
    vstd::arithmetic::power2::lemma_pow2_unfold(28);
    assert(fpow(7, pow2(28)) == 0x689f65808ca09717b3829a115bd0634cb70b4a5ea3e0c94cdcf15f2f4e706efenat);
    super::dft::lemma_fpow_double(7, pow2(28));
    vstd::arithmetic::power2::lemma_pow2_unfold(29);
    assert(fpow(7, pow2(29)) == 0x64261cc222fdf91936919a42327a03e770bccb15393bcf7b9eb16e5f4ed5cd46nat);
    super::dft::lemma_fpow_double(7, pow2(29));
    vstd::arithmetic::power2::lemma_pow2_unfold(30);
    assert(fpow(7, pow2(30)) == 0x27359bd349c3f009050fce0e2c4d5f1154a815fea49a9a0a8baf83d6aca8566enat);
    super::dft::lemma_fpow_double(7, pow2(30));
    vstd::arithmetic::power2::lemma_pow2_unfold(31);
    assert(fpow(7, pow2(31)) == 0x46e02401a9194f3106d1137895c1d407deff7dc6ff0f95c4bb188d53056fd0d8nat);
    if k < 16 {
        if k == 0 {
            assert(fpow(7, pow2(0)) == 0x7nat);
        } else if k == 1 {
            assert(fpow(7, pow2(1)) == 0x31nat);
        } else if k == 2 {
            assert(fpow(7, pow2(2)) == 0x961nat);
        } else if k == 3 {
            assert(fpow(7, pow2(3)) == 0x57f6c1nat);
        } else if k == 4 {
            assert(fpow(7, pow2(4)) == 0x1e39a5057d81nat);
        } else if k == 5 {
            assert(fpow(7, pow2(5)) == 0x3918fa8303c33586e913b01nat);
        } else if k == 6 {
            assert(fpow(7, pow2(6)) == 0xcbc21fe4561c8d63b78e780e1341e199417c8c0bb7601nat);
        } else if k == 7 {
            assert(fpow(7, pow2(7)) == 0x3f658b7688becbdd628a4be1e35a32d3601910de06fe2947626b83cf2f1e7765nat);
        } else if k == 8 {
            assert(fpow(7, pow2(8)) == 0x4a789ea4fdc7ccf2f98a0632d8c6ed8905fb69fe4f4b57717cff0cd340c8e6dnat);
        } else if k == 9 {
            assert(fpow(7, pow2(9)) == 0x4d1e5e8c9348ebdf2c1e2a75d7f3456d069489ff208b436e906c3a6979f6c0d9nat);
        } else if k == 10 {
            assert(fpow(7, pow2(10)) == 0x45802caf41dbd58dd8be0b10e0eb662e5d5871f49b77117b84274f9b513c3705nat);
        } else if k == 11 {
            assert(fpow(7, pow2(11)) == 0x964c3466f7187215b5abad04922d8e2a5a210cae66d3f767faf5a14caca24d4nat);
        } else if k == 12 {
            assert(fpow(7, pow2(12)) == 0x5238ba785063e217812b41448426fe8aabb0d6e6b743db253683decc3f41b173nat);
        } else if k == 13 {
            assert(fpow(7, pow2(13)) == 0x4a5cb61848084c353c2ea0463f78127afe022d9b35f1cf686e33d587cba29eddnat);
        } else if k == 14 {
            assert(fpow(7, pow2(14)) == 0x2aa2c6745539c412745d7b3384d57091254fcc8528885b5ebd74b6631311b63enat);
        } else if k == 15 {
            assert(fpow(7, pow2(15)) == 0x6804d24ab62aa136ba6e492fb897934ec92eca7707b4b62d29317b82b3379c2enat);
        }
    } else {
        if k == 16 {
            assert(fpow(7, pow2(16)) == 0xeda5c059add22bd06c653a3a30dc6c47b749f3444a3f53ebaf3b58a7efb134fnat);
        } else if k == 17 {
            assert(fpow(7, pow2(17)) == 0x30d604f213d878f7d0706249706d95c79581c3e36607b6712030e0f47b872b6dnat);
        } else if k == 18 {
            assert(fpow(7, pow2(18)) == 0x3eb4ec72f1eea6bd4c7c790f8374a0d9776911bccac77483fd2421c34f25f9danat);
        } else if k == 19 {
            assert(fpow(7, pow2(19)) == 0xc2a9a7faa1a1a2ed631f40acb99a21f9ae1ff0ea0334c18c525b6ab4565e752nat);
        } else if k == 20 {
            assert(fpow(7, pow2(20)) == 0x628fc184374a1219e85d9e943d57d0c20bad4d8f813859f6121b51c927eaa4dcnat);
        } else if k == 21 {
            assert(fpow(7, pow2(21)) == 0x1a35c7c215188748e7e542d149e563e7a4428baab83f69a56b7606628c87fe13nat);
        } else if k == 22 {
            assert(fpow(7, pow2(22)) == 0x720ae8ff3738e762084a601dc0ff1294297fb210a4777bce414e9afbe9fe8391nat);
        } else if k == 23 {
            assert(fpow(7, pow2(23)) == 0x58335464ad9e9cae4e3c072e4a91613482a60243cab735b648512d6f616d5433nat);
        } else if k == 24 {
            assert(fpow(7, pow2(24)) == 0x429265f1d3e7fa86a1fadf67d487e6d964d94839da7a182571aadd3d0c035396nat);
        } else if k == 25 {
            assert(fpow(7, pow2(25)) == 0x729ad34c57d4ef07d0322a356af7bf83aeffcf6d731d38a410cdf80b4199e4d7nat);
        } else if k == 26 {
            assert(fpow(7, pow2(26)) == 0x2be12a4eb7fdd2448fffef1afca5eaf4dc9863ce38faf65ad7339e32176a1bd8nat);
        } else if k == 27 {
            assert(fpow(7, pow2(27)) == 0x2a98b3de1e8d05396c576a792ed0dd3cafe4f76895ae53bfade986863f8b7153nat);
        } else if k == 28 {
            assert(fpow(7, pow2(28)) == 0x689f65808ca09717b3829a115bd0634cb70b4a5ea3e0c94cdcf15f2f4e706efenat);
        } else if k == 29 {
            assert(fpow(7, pow2(29)) == 0x64261cc222fdf91936919a42327a03e770bccb15393bcf7b9eb16e5f4ed5cd46nat);
        } else if k == 30 {
            assert(fpow(7, pow2(30)) == 0x27359bd349c3f009050fce0e2c4d5f1154a815fea49a9a0a8baf83d6aca8566enat);
        } else if k == 31 {
            assert(fpow(7, pow2(31)) == 0x46e02401a9194f3106d1137895c1d407deff7dc6ff0f95c4bb188d53056fd0d8nat);
        }
    }
}

} // verus!
