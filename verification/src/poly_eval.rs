//! Evaluation at a point is a ring homomorphism from F_p[X] to F_p.
use vstd::arithmetic::div_mod::*;
use vstd::arithmetic::mul::*;
use vstd::arithmetic::power::*;
use vstd::prelude::*;

use crate::field::modulus;
use crate::poly_algebra::{
    col, col_sums, conv_term, lemma_conv_upto_sum, lemma_sum_add, lemma_sum_ext, lemma_sum_mod,
    lemma_sum_scale, lemma_sum_shift, lemma_sum_split, lemma_sum_swap, lemma_sum_window,
    lemma_sum_zero, row, row_sums, sum,
};
use crate::poly_ring::eqm;
use crate::poly_spec::{
    add_coefs, add_spec, coef, conv, from_fn, lemma_add_spec_coef, lemma_mul_spec_coef,
    lemma_scalar_spec_coef, lemma_trim, max_len, mul_spec, peval, scalar_coefs, scalar_spec,
    sub_spec, conv_coefs,
};

verus! {

/// Term `i` of the evaluation sum: `f_i x^i`.
pub open spec fn eval_term(f: Seq<u32>, x: int) -> spec_fn(int) -> int {
    |i: int| if i < 0 { 0 } else { coef(f, i) * pow(x, i as nat) }
}

/// Horner evaluation is the sum `sum_{i < n} f_i x^i`, for any `n >= len f`.
pub proof fn lemma_peval_sum(f: Seq<u32>, x: int, n: int)
    requires
        n >= f.len(),
    ensures
        peval(f, x) == sum(eval_term(f, x), 0, n),
    decreases f.len(),
{
    let t = eval_term(f, x);
    if f.len() == 0 {
        assert forall|i: int| 0 <= i < n implies #[trigger] t(i) == 0 by {
            lemma_mul_basics(pow(x, i as nat));
        }
        lemma_sum_zero(t, 0, n);
    } else {
        let g = f.drop_first();
        lemma_peval_sum(g, x, n - 1);
        let tg = eval_term(g, x);
        lemma_sum_split(t, 0, 1, n);
        assert(sum(t, 0, 1) == t(0)) by {
            reveal_with_fuel(sum, 2);
        }
        lemma_pow0(x);
        assert(t(0) == f[0]);
        lemma_sum_shift(t, 1, n, -1);
        let u = |y: int| t(y - (-1));
        assert forall|y: int| 0 <= y < n - 1 implies #[trigger] u(y) == x * tg(y) by {
            lemma_pow_adds(x, y as nat, 1);
            lemma_pow1(x);
            lemma_mul_is_commutative(x, pow(x, y as nat));
            assert(pow(x, (y + 1) as nat) == x * pow(x, y as nat));
            assert(coef(f, y + 1) == coef(g, y));
            assert(coef(g, y) * (x * pow(x, y as nat)) == x * (coef(g, y) * pow(x, y as nat))) by (nonlinear_arith);
        }
        lemma_sum_ext(u, |y: int| x * tg(y), 0, n - 1);
        lemma_sum_scale(tg, x, 0, n - 1);
    }
}

/// `(a + b)(x) == a(x) + b(x)`.
pub proof fn lemma_peval_add(a: Seq<u32>, b: Seq<u32>, x: int)
    ensures
        eqm(peval(add_spec(a, b), x), peval(a, x) + peval(b, x)),
{
    let p = modulus();
    let n = max_len(a, b) as int;
    let s = add_spec(a, b);
    lemma_trim(from_fn(max_len(a, b), add_coefs(a, b)));
    lemma_peval_sum(s, x, n);
    lemma_peval_sum(a, x, n);
    lemma_peval_sum(b, x, n);
    let ts = eval_term(s, x);
    let ta = eval_term(a, x);
    let tb = eval_term(b, x);
    let g = |i: int| ta(i) + tb(i);
    assert forall|i: int| 0 <= i < n implies #[trigger] (ts(i) % p) == g(i) % p by {
        lemma_add_spec_coef(a, b, i);
        let w = pow(x, i as nat);
        lemma_mul_mod_noop_left(coef(a, i) + coef(b, i), w, p);
        lemma_mul_is_distributive_add_other_way(w, coef(a, i), coef(b, i));
    }
    lemma_sum_mod(ts, g, 0, n);
    lemma_sum_add(ta, tb, 0, n);
    lemma_sum_ext(g, |i: int| ta(i) + tb(i), 0, n);
}

/// `(c a)(x) == c a(x)`.
pub proof fn lemma_peval_scalar(a: Seq<u32>, c: int, x: int)
    ensures
        eqm(peval(scalar_spec(a, c), x), c * peval(a, x)),
{
    let p = modulus();
    let n = a.len() as int;
    let s = scalar_spec(a, c);
    lemma_trim(from_fn(a.len(), scalar_coefs(a, c)));
    lemma_peval_sum(s, x, n);
    lemma_peval_sum(a, x, n);
    let ts = eval_term(s, x);
    let ta = eval_term(a, x);
    let g = |i: int| c * ta(i);
    assert forall|i: int| 0 <= i < n implies #[trigger] (ts(i) % p) == g(i) % p by {
        lemma_scalar_spec_coef(a, c, i);
        let w = pow(x, i as nat);
        lemma_mul_mod_noop_left(coef(a, i) * c, w, p);
        assert((coef(a, i) * c) * w == c * (coef(a, i) * w)) by (nonlinear_arith);
    }
    lemma_sum_mod(ts, g, 0, n);
    lemma_sum_scale(ta, c, 0, n);
    lemma_sum_ext(g, |i: int| c * ta(i), 0, n);
}

/// The evaluation sum of a product, before reduction: `sum_k conv(a, b, k) x^k`.
spec fn conv_eval_term(a: Seq<u32>, b: Seq<u32>, x: int) -> spec_fn(int) -> int {
    |k: int| if k < 0 { 0 } else { conv(a, b, k) * pow(x, k as nat) }
}

/// The grid `a_i b_{k - i} x^k`.
spec fn mul_grid(a: Seq<u32>, b: Seq<u32>, x: int) -> spec_fn(int, int) -> int {
    |k: int, i: int| if k < 0 { 0 } else { coef(a, i) * coef(b, k - i) * pow(x, k as nat) }
}

/// `(a b)(x) == a(x) b(x)`.
pub proof fn lemma_peval_mul(a: Seq<u32>, b: Seq<u32>, x: int)
    ensures
        eqm(peval(mul_spec(a, b), x), peval(a, x) * peval(b, x)),
{
    let p = modulus();
    if a.len() == 0 || b.len() == 0 {
        assert(mul_spec(a, b).len() == 0);
        if a.len() == 0 {
            assert(peval(a, x) == 0);
        } else {
            assert(peval(b, x) == 0);
        }
        lemma_mul_basics(peval(a, x));
        lemma_mul_basics(peval(b, x));
        return;
    }
    let na = a.len() as int;
    let nb = b.len() as int;
    let nn = na + nb - 1;
    let m = mul_spec(a, b);
    lemma_trim(from_fn(nn as nat, conv_coefs(a, b)));
    lemma_peval_sum(m, x, nn);
    let tm = eval_term(m, x);
    let tc = conv_eval_term(a, b, x);
    // reduce the coefficients away
    assert forall|k: int| 0 <= k < nn implies #[trigger] (tm(k) % p) == tc(k) % p by {
        lemma_mul_spec_coef(a, b, k);
        lemma_mul_mod_noop_left(conv(a, b, k), pow(x, k as nat), p);
    }
    lemma_sum_mod(tm, tc, 0, nn);
    // conv(a, b, k) x^k as a row of the grid
    let g = mul_grid(a, b, x);
    assert forall|k: int| 0 <= k < nn implies #[trigger] tc(k) == row_sums(g, 0, na)(k) by {
        lemma_conv_upto_sum(a, b, k, na);
        let ct = conv_term(a, b, k);
        let w = pow(x, k as nat);
        lemma_sum_scale(ct, w, 0, na);
        assert forall|i: int| 0 <= i < na implies #[trigger] row(g, k)(i) == w * ct(i) by {
            assert(coef(a, i) * coef(b, k - i) * w == w * (coef(a, i) * coef(b, k - i))) by (nonlinear_arith);
        }
        lemma_sum_ext(row(g, k), |i: int| w * ct(i), 0, na);
        assert(conv(a, b, k) * w == w * conv(a, b, k)) by (nonlinear_arith);
    }
    lemma_sum_ext(tc, row_sums(g, 0, na), 0, nn);
    lemma_sum_swap(g, 0, nn, 0, na);
    // each column is a_i x^i b(x)
    let ta = eval_term(a, x);
    let tb = eval_term(b, x);
    let pb = peval(b, x);
    lemma_peval_sum(b, x, nb);
    assert forall|i: int| 0 <= i < na implies #[trigger] col_sums(g, 0, nn)(i) == pb * ta(i) by {
        let wi = pow(x, i as nat);
        let ci = coef(a, i);
        let h = |j: int| col(g, i)(j + i);
        lemma_sum_shift(col(g, i), 0, nn, -i);
        lemma_sum_ext(|y: int| col(g, i)(y - (-i)), h, -i, nn - i);
        assert forall|j: int| -i <= j < nn - i implies #[trigger] h(j) == (ci * wi) * tb(j) by {
            if j < 0 {
                assert(coef(b, j) == 0);
                lemma_mul_basics(ci);
                lemma_mul_basics(ci * wi);
                assert(ci * 0 == 0);
                assert(ci * 0 * pow(x, (j + i) as nat) == 0) by (nonlinear_arith)
                    requires ci * 0 == 0;
            } else {
                lemma_pow_adds(x, i as nat, j as nat);
                assert(ci * coef(b, j) * (wi * pow(x, j as nat)) == (ci * wi) * (coef(b, j) * pow(x, j as nat))) by (nonlinear_arith);
            }
        }
        lemma_sum_ext(h, |j: int| (ci * wi) * tb(j), -i, nn - i);
        lemma_sum_scale(tb, ci * wi, -i, nn - i);
        assert forall|j: int| -i <= j < 0 implies #[trigger] tb(j) == 0 by {
        }
        assert forall|j: int| nb <= j < nn - i implies #[trigger] tb(j) == 0 by {
            lemma_mul_basics(pow(x, j as nat));
        }
        lemma_sum_window(tb, 0, nb, -i, nn - i);
        assert((ci * wi) * pb == pb * (ci * wi)) by (nonlinear_arith);
    }
    lemma_sum_ext(col_sums(g, 0, nn), |i: int| pb * ta(i), 0, na);
    lemma_sum_scale(ta, pb, 0, na);
    lemma_peval_sum(a, x, na);
    assert(pb * peval(a, x) == peval(a, x) * pb) by (nonlinear_arith);
}

/// `(a - b)(x) == a(x) - b(x)`.
pub proof fn lemma_peval_sub(a: Seq<u32>, b: Seq<u32>, x: int)
    ensures
        eqm(peval(sub_spec(a, b), x), peval(a, x) - peval(b, x)),
{
    let p = modulus();
    let n = max_len(a, b) as int;
    let s = sub_spec(a, b);
    lemma_trim(from_fn(max_len(a, b), crate::poly_spec::sub_coefs(a, b)));
    lemma_peval_sum(s, x, n);
    lemma_peval_sum(a, x, n);
    lemma_peval_sum(b, x, n);
    let ts = eval_term(s, x);
    let ta = eval_term(a, x);
    let tb = eval_term(b, x);
    let nb = |i: int| -tb(i);
    let g = |i: int| ta(i) + nb(i);
    assert forall|i: int| 0 <= i < n implies #[trigger] (ts(i) % p) == g(i) % p by {
        lemma_add_spec_coef(a, b, i);
        let w = pow(x, i as nat);
        lemma_mul_mod_noop_left(coef(a, i) - coef(b, i), w, p);
        assert((coef(a, i) - coef(b, i)) * w == coef(a, i) * w + -(coef(b, i) * w)) by (nonlinear_arith);
    }
    lemma_sum_mod(ts, g, 0, n);
    lemma_sum_add(ta, nb, 0, n);
    lemma_sum_ext(g, |i: int| ta(i) + nb(i), 0, n);
    lemma_sum_scale(tb, -1, 0, n);
    lemma_sum_ext(nb, |i: int| -1 * tb(i), 0, n);
}

/// Polynomials with the same coefficients mod p take the same values mod p.
pub proof fn lemma_peval_congruent(f1: Seq<u32>, f2: Seq<u32>, x: int)
    requires
        forall|i: int| #[trigger] eqm(coef(f1, i), coef(f2, i)),
    ensures
        eqm(peval(f1, x), peval(f2, x)),
{
    let p = modulus();
    let n = if f1.len() >= f2.len() { f1.len() as int } else { f2.len() as int };
    lemma_peval_sum(f1, x, n);
    lemma_peval_sum(f2, x, n);
    let t1 = eval_term(f1, x);
    let t2 = eval_term(f2, x);
    assert forall|i: int| 0 <= i < n implies #[trigger] (t1(i) % p) == t2(i) % p by {
        assert(eqm(coef(f1, i), coef(f2, i)));
        lemma_mul_mod_noop_left(coef(f1, i), pow(x, i as nat), p);
        lemma_mul_mod_noop_left(coef(f2, i), pow(x, i as nat), p);
    }
    lemma_sum_mod(t1, t2, 0, n);
}

} // verus!
